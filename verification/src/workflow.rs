//! The load and save workflow over the registry: which changes of a diff
//! a save accepts (`--yes` accepts all; each `--accept` path accepts the
//! changes whose paths start with it), the contract that results from
//! accepting them, and what a save answers.

use vstd::prelude::*;
use crate::diff::{
    ChangeView, FieldChange, action_path, action_types, contract_diff, diff_contracts,
    input_names, input_path, output_names, output_path, view_changes,
};
use crate::model::{
    Action, ActionView, ContractError, ContractView, ErrorView, Input, InputView, Output,
    OutputView, Project, ProjectContract, ProjectView, contract_error, is_valid,
    lemma_validation_is_validity, view_actions,
    view_inputs, view_outputs,
};
use crate::store::{Store, file_name, join_path};
use crate::text::{chars_of, join2, owned};

verus! {

pub open spec fn view_texts(s: Seq<String>) -> Seq<Seq<char>> {
    s.map_values(|t: String| t@)
}

/// `p` is a prefix of `s`.
pub open spec fn is_prefix(p: Seq<char>, s: Seq<char>) -> bool {
    p.len() <= s.len() && s.subrange(0, p.len() as int) == p
}

/// A change at `path` is accepted: `yes` accepts every change, and each
/// accepted prefix accepts the changes whose paths start with it.
pub open spec fn accepts(accept: Seq<Seq<char>>, yes: bool, path: Seq<char>) -> bool {
    yes || exists|i: int| 0 <= i < accept.len() && is_prefix(#[trigger] accept[i], path)
}

fn starts_with(p: &str, s: &str) -> (r: bool)
    ensures
        r == is_prefix(p@, s@),
{
    let pv = chars_of(p);
    let sv = chars_of(s);
    if pv.len() > sv.len() {
        return false;
    }
    let mut i: usize = 0;
    while i < pv.len()
        invariant
            i <= pv.len() <= sv.len(),
            pv@ == p@,
            sv@ == s@,
            forall|k: int| 0 <= k < i ==> sv@[k] == pv@[k],
        decreases pv.len() - i,
    {
        if pv[i] != sv[i] {
            assert(sv@.subrange(0, pv.len() as int)[i as int] != pv@[i as int]);
            return false;
        }
        i = i + 1;
    }
    assert(sv@.subrange(0, pv.len() as int) =~= pv@);
    true
}

/// Whether the change at `path` is accepted.
pub fn is_accepted(path: &str, accept: &[String], yes: bool) -> (r: bool)
    ensures
        r == accepts(view_texts(accept@), yes, path@),
{
    if yes {
        return true;
    }
    let ghost av = view_texts(accept@);
    let mut i: usize = 0;
    while i < accept.len()
        invariant
            i <= accept.len(),
            av == view_texts(accept@),
            forall|k: int| 0 <= k < i ==> !is_prefix(#[trigger] av[k], path@),
        decreases accept.len() - i,
    {
        assert(av[i as int] == accept[i as int]@);
        if starts_with(accept[i].as_str(), path) {
            return true;
        }
        i = i + 1;
    }
    false
}

// ---------------------------------------------------------------------
// The contract that accepting changes gives
// ---------------------------------------------------------------------

/// An action both versions have: the instructions come from `new` when
/// their change is accepted.
pub open spec fn merged_action(
    old: ActionView,
    new: ActionView,
    base: Seq<char>,
    accept: Seq<Seq<char>>,
    yes: bool,
) -> ActionView {
    let path = action_path(base, new.action_type);
    ActionView {
        action_type: new.action_type,
        instructions: if accepts(accept, yes, path + ".instructions"@) {
            new.instructions
        } else {
            old.instructions
        },
    }
}

/// The merged actions for the first `n` actions of `new`, in its order: a
/// shared action merged field by field, a new action only when its
/// addition is accepted.
pub open spec fn merged_new_actions(
    old: Seq<ActionView>,
    new: Seq<ActionView>,
    base: Seq<char>,
    accept: Seq<Seq<char>>,
    yes: bool,
    n: nat,
) -> Seq<ActionView>
    decreases n,
{
    if n == 0 {
        seq![]
    } else {
        let a = new[n - 1];
        merged_new_actions(old, new, base, accept, yes, (n - 1) as nat) + match action_types(
            old,
        ).index_of_first(a.action_type) {
            Some(j) => seq![merged_action(old[j], a, base, accept, yes)],
            None => if accepts(accept, yes, action_path(base, a.action_type)) {
                seq![a]
            } else {
                seq![]
            },
        }
    }
}

/// The actions among the first `n` of `old` that `new` no longer has and
/// whose removal is not accepted.
pub open spec fn kept_old_actions(
    old: Seq<ActionView>,
    new: Seq<ActionView>,
    base: Seq<char>,
    accept: Seq<Seq<char>>,
    yes: bool,
    n: nat,
) -> Seq<ActionView>
    decreases n,
{
    if n == 0 {
        seq![]
    } else {
        let a = old[n - 1];
        kept_old_actions(old, new, base, accept, yes, (n - 1) as nat) + if action_types(
            new,
        ).contains(a.action_type) || accepts(accept, yes, action_path(base, a.action_type)) {
            seq![]
        } else {
            seq![a]
        }
    }
}

pub open spec fn merged_actions(
    old: Seq<ActionView>,
    new: Seq<ActionView>,
    base: Seq<char>,
    accept: Seq<Seq<char>>,
    yes: bool,
) -> Seq<ActionView> {
    merged_new_actions(old, new, base, accept, yes, new.len()) + kept_old_actions(
        old,
        new,
        base,
        accept,
        yes,
        old.len(),
    )
}

/// An output both versions have, merged field by field.
pub open spec fn merged_output(
    old: OutputView,
    new: OutputView,
    base: Seq<char>,
    accept: Seq<Seq<char>>,
    yes: bool,
) -> OutputView {
    let path = output_path(base, new.name);
    OutputView {
        name: new.name,
        description: if accepts(accept, yes, path + ".description"@) {
            new.description
        } else {
            old.description
        },
        output_type: if accepts(accept, yes, path + ".type"@) {
            new.output_type
        } else {
            old.output_type
        },
        location: if accepts(accept, yes, path + ".location"@) {
            new.location
        } else {
            old.location
        },
    }
}

pub open spec fn merged_new_outputs(
    old: Seq<OutputView>,
    new: Seq<OutputView>,
    base: Seq<char>,
    accept: Seq<Seq<char>>,
    yes: bool,
    n: nat,
) -> Seq<OutputView>
    decreases n,
{
    if n == 0 {
        seq![]
    } else {
        let o = new[n - 1];
        merged_new_outputs(old, new, base, accept, yes, (n - 1) as nat) + match output_names(
            old,
        ).index_of_first(o.name) {
            Some(j) => seq![merged_output(old[j], o, base, accept, yes)],
            None => if accepts(accept, yes, output_path(base, o.name)) {
                seq![o]
            } else {
                seq![]
            },
        }
    }
}

pub open spec fn kept_old_outputs(
    old: Seq<OutputView>,
    new: Seq<OutputView>,
    base: Seq<char>,
    accept: Seq<Seq<char>>,
    yes: bool,
    n: nat,
) -> Seq<OutputView>
    decreases n,
{
    if n == 0 {
        seq![]
    } else {
        let o = old[n - 1];
        kept_old_outputs(old, new, base, accept, yes, (n - 1) as nat) + if output_names(
            new,
        ).contains(o.name) || accepts(accept, yes, output_path(base, o.name)) {
            seq![]
        } else {
            seq![o]
        }
    }
}

pub open spec fn merged_outputs(
    old: Seq<OutputView>,
    new: Seq<OutputView>,
    base: Seq<char>,
    accept: Seq<Seq<char>>,
    yes: bool,
) -> Seq<OutputView> {
    merged_new_outputs(old, new, base, accept, yes, new.len()) + kept_old_outputs(
        old,
        new,
        base,
        accept,
        yes,
        old.len(),
    )
}

/// An input both versions have, merged field by field.
pub open spec fn merged_input(
    old: InputView,
    new: InputView,
    accept: Seq<Seq<char>>,
    yes: bool,
) -> InputView {
    let base = input_path(new.name);
    InputView {
        name: new.name,
        description: if accepts(accept, yes, base + ".description"@) {
            new.description
        } else {
            old.description
        },
        input_type: if accepts(accept, yes, base + ".type"@) {
            new.input_type
        } else {
            old.input_type
        },
        outputs: merged_outputs(old.outputs, new.outputs, base, accept, yes),
        actions: merged_actions(old.actions, new.actions, base, accept, yes),
    }
}

pub open spec fn merged_new_inputs(
    old: Seq<InputView>,
    new: Seq<InputView>,
    accept: Seq<Seq<char>>,
    yes: bool,
    n: nat,
) -> Seq<InputView>
    decreases n,
{
    if n == 0 {
        seq![]
    } else {
        let i = new[n - 1];
        merged_new_inputs(old, new, accept, yes, (n - 1) as nat) + match input_names(
            old,
        ).index_of_first(i.name) {
            Some(j) => seq![merged_input(old[j], i, accept, yes)],
            None => if accepts(accept, yes, input_path(i.name)) {
                seq![i]
            } else {
                seq![]
            },
        }
    }
}

pub open spec fn kept_old_inputs(
    old: Seq<InputView>,
    new: Seq<InputView>,
    accept: Seq<Seq<char>>,
    yes: bool,
    n: nat,
) -> Seq<InputView>
    decreases n,
{
    if n == 0 {
        seq![]
    } else {
        let i = old[n - 1];
        kept_old_inputs(old, new, accept, yes, (n - 1) as nat) + if input_names(new).contains(
            i.name,
        ) || accepts(accept, yes, input_path(i.name)) {
            seq![]
        } else {
            seq![i]
        }
    }
}

pub open spec fn merged_inputs(
    old: Seq<InputView>,
    new: Seq<InputView>,
    accept: Seq<Seq<char>>,
    yes: bool,
) -> Seq<InputView> {
    merged_new_inputs(old, new, accept, yes, new.len()) + kept_old_inputs(
        old,
        new,
        accept,
        yes,
        old.len(),
    )
}

/// The contract that accepting changes of the diff from `old` to `new`
/// gives: each field takes the new value when the change at its path is
/// accepted and keeps the old one otherwise; an added input, output or
/// action comes in only when its addition is accepted, and a removed one
/// goes only when its removal is accepted. Shared and accepted new items
/// keep the order of `new`, the kept old items follow in the order of
/// `old`.
pub open spec fn merged(
    old: ContractView,
    new: ContractView,
    accept: Seq<Seq<char>>,
    yes: bool,
) -> ContractView {
    ContractView {
        schema_version: new.schema_version,
        project: ProjectView {
            name: if accepts(accept, yes, "project.name"@) {
                new.project.name
            } else {
                old.project.name
            },
            description: if accepts(accept, yes, "project.description"@) {
                new.project.description
            } else {
                old.project.description
            },
        },
        inputs: merged_inputs(old.inputs, new.inputs, accept, yes),
    }
}


// ---------------------------------------------------------------------
// Accepting everything
// ---------------------------------------------------------------------

proof fn lemma_all_actions(old: Seq<ActionView>, new: Seq<ActionView>, base: Seq<char>, accept: Seq<Seq<char>>)
    ensures
        merged_actions(old, new, base, accept, true) == new,
{
    assert forall|n: nat| n <= new.len() implies merged_new_actions(old, new, base, accept, true, n)
        == new.take(n as int) by {
        lemma_all_new_actions(old, new, base, accept, n);
    }
    assert forall|n: nat| n <= old.len() implies kept_old_actions(old, new, base, accept, true, n)
        == Seq::<ActionView>::empty() by {
        lemma_all_kept_actions(old, new, base, accept, n);
    }
    assert(new.take(new.len() as int) =~= new);
    assert(merged_actions(old, new, base, accept, true) =~= new);
}

proof fn lemma_all_new_actions(old: Seq<ActionView>, new: Seq<ActionView>, base: Seq<char>, accept: Seq<Seq<char>>, n: nat)
    requires
        n <= new.len(),
    ensures
        merged_new_actions(old, new, base, accept, true, n) == new.take(n as int),
    decreases n,
{
    if n > 0 {
        lemma_all_new_actions(old, new, base, accept, (n - 1) as nat);
        assert(new.take(n as int) =~= new.take(n - 1).push(new[n - 1]));
        assert(merged_new_actions(old, new, base, accept, true, n) =~= new.take(n as int));
    }
}

proof fn lemma_all_kept_actions(old: Seq<ActionView>, new: Seq<ActionView>, base: Seq<char>, accept: Seq<Seq<char>>, n: nat)
    ensures
        kept_old_actions(old, new, base, accept, true, n) == Seq::<ActionView>::empty(),
    decreases n,
{
    if n > 0 {
        lemma_all_kept_actions(old, new, base, accept, (n - 1) as nat);
        assert(kept_old_actions(old, new, base, accept, true, n) =~= Seq::<ActionView>::empty());
    }
}

proof fn lemma_all_outputs(old: Seq<OutputView>, new: Seq<OutputView>, base: Seq<char>, accept: Seq<Seq<char>>)
    ensures
        merged_outputs(old, new, base, accept, true) == new,
{
    assert forall|n: nat| n <= new.len() implies merged_new_outputs(old, new, base, accept, true, n)
        == new.take(n as int) by {
        lemma_all_new_outputs(old, new, base, accept, n);
    }
    assert forall|n: nat| n <= old.len() implies kept_old_outputs(old, new, base, accept, true, n)
        == Seq::<OutputView>::empty() by {
        lemma_all_kept_outputs(old, new, base, accept, n);
    }
    assert(new.take(new.len() as int) =~= new);
    assert(merged_outputs(old, new, base, accept, true) =~= new);
}

proof fn lemma_all_new_outputs(old: Seq<OutputView>, new: Seq<OutputView>, base: Seq<char>, accept: Seq<Seq<char>>, n: nat)
    requires
        n <= new.len(),
    ensures
        merged_new_outputs(old, new, base, accept, true, n) == new.take(n as int),
    decreases n,
{
    if n > 0 {
        lemma_all_new_outputs(old, new, base, accept, (n - 1) as nat);
        assert(new.take(n as int) =~= new.take(n - 1).push(new[n - 1]));
        assert(merged_new_outputs(old, new, base, accept, true, n) =~= new.take(n as int));
    }
}

proof fn lemma_all_kept_outputs(old: Seq<OutputView>, new: Seq<OutputView>, base: Seq<char>, accept: Seq<Seq<char>>, n: nat)
    ensures
        kept_old_outputs(old, new, base, accept, true, n) == Seq::<OutputView>::empty(),
    decreases n,
{
    if n > 0 {
        lemma_all_kept_outputs(old, new, base, accept, (n - 1) as nat);
        assert(kept_old_outputs(old, new, base, accept, true, n) =~= Seq::<OutputView>::empty());
    }
}

proof fn lemma_all_new_inputs(old: Seq<InputView>, new: Seq<InputView>, accept: Seq<Seq<char>>, n: nat)
    requires
        n <= new.len(),
    ensures
        merged_new_inputs(old, new, accept, true, n) == new.take(n as int),
    decreases n,
{
    if n > 0 {
        lemma_all_new_inputs(old, new, accept, (n - 1) as nat);
        let i = new[n - 1];
        match input_names(old).index_of_first(i.name) {
            Some(j) => {
                let o = old[j];
                lemma_all_outputs(o.outputs, i.outputs, input_path(i.name), accept);
                lemma_all_actions(o.actions, i.actions, input_path(i.name), accept);
                assert(merged_input(o, i, accept, true) == i);
            },
            None => {},
        }
        assert(new.take(n as int) =~= new.take(n - 1).push(new[n - 1]));
        assert(merged_new_inputs(old, new, accept, true, n) =~= new.take(n as int));
    }
}

proof fn lemma_all_kept_inputs(old: Seq<InputView>, new: Seq<InputView>, accept: Seq<Seq<char>>, n: nat)
    ensures
        kept_old_inputs(old, new, accept, true, n) == Seq::<InputView>::empty(),
    decreases n,
{
    if n > 0 {
        lemma_all_kept_inputs(old, new, accept, (n - 1) as nat);
        assert(kept_old_inputs(old, new, accept, true, n) =~= Seq::<InputView>::empty());
    }
}

/// Accepting every change (`--yes`) gives exactly the new contract,
/// whatever the old one was.
pub proof fn lemma_accept_all_gives_new(old: ContractView, new: ContractView, accept: Seq<Seq<char>>)
    ensures
        merged(old, new, accept, true) == new,
{
    lemma_all_new_inputs(old.inputs, new.inputs, accept, new.inputs.len());
    lemma_all_kept_inputs(old.inputs, new.inputs, accept, old.inputs.len());
    assert(new.inputs.take(new.inputs.len() as int) =~= new.inputs);
    assert(merged_inputs(old.inputs, new.inputs, accept, true) =~= new.inputs);
    assert(merged(old, new, accept, true) =~= new);
}

// ---------------------------------------------------------------------
// Accepting nothing
// ---------------------------------------------------------------------

/// `e` is the item of `old` that carries its name.
pub open spec fn from_old_output(old: Seq<OutputView>, e: OutputView) -> bool {
    match output_names(old).index_of_first(e.name) {
        Some(j) => old[j] == e,
        None => false,
    }
}

proof fn lemma_none_new_outputs_from_old(old: Seq<OutputView>, new: Seq<OutputView>, base: Seq<char>, n: nat)
    requires
        n <= new.len(),
    ensures
        forall|k: int| 0 <= k < merged_new_outputs(old, new, base, seq![], false, n).len()
            ==> from_old_output(old, #[trigger] merged_new_outputs(old, new, base, seq![], false, n)[k]),
    decreases n,
{
    if n > 0 {
        lemma_none_new_outputs_from_old(old, new, base, (n - 1) as nat);
        let prev = merged_new_outputs(old, new, base, seq![], false, (n - 1) as nat);
        let cur = merged_new_outputs(old, new, base, seq![], false, n);
        let o = new[n - 1];
        output_names(old).index_of_first_ensures(o.name);
        match output_names(old).index_of_first(o.name) {
            Some(j) => {
                let e = merged_output(old[j], o, base, seq![], false);
                assert(output_names(old)[j] == old[j].name);
                assert(e == old[j]);
                assert(cur == prev.push(e));
                assert forall|k: int| 0 <= k < cur.len() implies from_old_output(old, #[trigger] cur[k]) by {
                    if k < prev.len() {
                        assert(cur[k] == prev[k]);
                    }
                }
            },
            None => {
                assert(cur =~= prev);
            },
        }
    }
}

proof fn lemma_none_kept_outputs_from_old(old: Seq<OutputView>, new: Seq<OutputView>, base: Seq<char>, n: nat)
    requires
        n <= old.len(),
        crate::diff::distinct_keys(output_names(old)),
    ensures
        forall|k: int| 0 <= k < kept_old_outputs(old, new, base, seq![], false, n).len()
            ==> from_old_output(old, #[trigger] kept_old_outputs(old, new, base, seq![], false, n)[k]),
    decreases n,
{
    if n > 0 {
        lemma_none_kept_outputs_from_old(old, new, base, (n - 1) as nat);
        let prev = kept_old_outputs(old, new, base, seq![], false, (n - 1) as nat);
        let cur = kept_old_outputs(old, new, base, seq![], false, n);
        crate::diff::lemma_first_of_distinct(output_names(old), n - 1);
        assert(output_names(old)[n - 1] == old[n - 1].name);
        assert forall|k: int| 0 <= k < cur.len() implies from_old_output(old, #[trigger] cur[k]) by {
            if k < prev.len() {
                assert(cur[k] == prev[k]);
            }
        }
    }
}

proof fn lemma_none_new_outputs_cover(old: Seq<OutputView>, new: Seq<OutputView>, base: Seq<char>, n: nat, p: int)
    requires
        n <= new.len(),
        0 <= p < n,
        output_names(old).contains(new[p].name),
    ensures
        output_names(merged_new_outputs(old, new, base, seq![], false, n)).contains(new[p].name),
    decreases n,
{
    let prev = merged_new_outputs(old, new, base, seq![], false, (n - 1) as nat);
    let cur = merged_new_outputs(old, new, base, seq![], false, n);
    if p < n - 1 {
        lemma_none_new_outputs_cover(old, new, base, (n - 1) as nat, p);
        let i = choose|i: int| 0 <= i < output_names(prev).len() && output_names(prev)[i] == new[p].name;
        assert(cur.subrange(0, prev.len() as int) =~= prev);
        assert(cur[i] == prev[i]);
        assert(output_names(cur)[i] == new[p].name);
    } else {
        output_names(old).index_of_first_ensures(new[p].name);
        let j = output_names(old).index_of_first(new[p].name)->0;
        assert(cur == prev.push(merged_output(old[j], new[p], base, seq![], false)));
        assert(output_names(cur)[prev.len() as int] == new[p].name);
    }
}

proof fn lemma_none_kept_outputs_cover(old: Seq<OutputView>, new: Seq<OutputView>, base: Seq<char>, n: nat, m: int)
    requires
        n <= old.len(),
        0 <= m < n,
        !output_names(new).contains(old[m].name),
    ensures
        output_names(kept_old_outputs(old, new, base, seq![], false, n)).contains(old[m].name),
    decreases n,
{
    let prev = kept_old_outputs(old, new, base, seq![], false, (n - 1) as nat);
    let cur = kept_old_outputs(old, new, base, seq![], false, n);
    if m < n - 1 {
        lemma_none_kept_outputs_cover(old, new, base, (n - 1) as nat, m);
        let i = choose|i: int| 0 <= i < output_names(prev).len() && output_names(prev)[i] == old[m].name;
        assert(cur.subrange(0, prev.len() as int) =~= prev);
        assert(cur[i] == prev[i]);
        assert(output_names(cur)[i] == old[m].name);
    } else {
        assert(cur == prev.push(old[m]));
        assert(output_names(cur)[prev.len() as int] == old[m].name);
    }
}

proof fn lemma_changes_of_old_outputs(old: Seq<OutputView>, l: Seq<OutputView>, base: Seq<char>, n: nat)
    requires
        n <= l.len(),
        forall|k: int| 0 <= k < l.len() ==> from_old_output(old, #[trigger] l[k]),
    ensures
        crate::diff::new_outputs_changes(old, l, base, n) == Seq::<ChangeView>::empty(),
    decreases n,
{
    if n > 0 {
        lemma_changes_of_old_outputs(old, l, base, (n - 1) as nat);
        assert(from_old_output(old, l[n - 1]));
        assert(crate::diff::new_outputs_changes(old, l, base, n) =~= Seq::<ChangeView>::empty());
    }
}

proof fn lemma_no_removed_outputs(old: Seq<OutputView>, l: Seq<OutputView>, base: Seq<char>, n: nat)
    requires
        n <= old.len(),
        forall|m: int| 0 <= m < old.len() ==> output_names(l).contains(#[trigger] old[m].name),
    ensures
        crate::diff::removed_outputs(old, l, base, n) == Seq::<ChangeView>::empty(),
    decreases n,
{
    if n > 0 {
        lemma_no_removed_outputs(old, l, base, (n - 1) as nat);
        assert(output_names(l).contains(old[n - 1].name));
        assert(crate::diff::removed_outputs(old, l, base, n) =~= Seq::<ChangeView>::empty());
    }
}

/// Merging outputs with nothing accepted changes none of them.
proof fn lemma_none_outputs(old: Seq<OutputView>, new: Seq<OutputView>, base: Seq<char>, diff_base: Seq<char>)
    requires
        crate::diff::distinct_keys(output_names(old)),
    ensures
        crate::diff::outputs_diff(old, merged_outputs(old, new, base, seq![], false), diff_base)
            == Seq::<ChangeView>::empty(),
{
    let a = merged_new_outputs(old, new, base, seq![], false, new.len());
    let b = kept_old_outputs(old, new, base, seq![], false, old.len());
    let l = merged_outputs(old, new, base, seq![], false);
    lemma_none_new_outputs_from_old(old, new, base, new.len());
    lemma_none_kept_outputs_from_old(old, new, base, old.len());
    assert forall|k: int| 0 <= k < l.len() implies from_old_output(old, #[trigger] l[k]) by {
        if k < a.len() {
            assert(l[k] == a[k]);
        } else {
            assert(l[k] == b[k - a.len()]);
        }
    }
    assert forall|m: int| 0 <= m < old.len() implies output_names(l).contains(#[trigger] old[m].name) by {
        if output_names(new).contains(old[m].name) {
            let p = choose|p: int| 0 <= p < output_names(new).len() && output_names(new)[p] == old[m].name;
            assert(new[p].name == old[m].name);
            assert(output_names(old)[m] == old[m].name);
            lemma_none_new_outputs_cover(old, new, base, new.len(), p);
            let i = choose|i: int| 0 <= i < output_names(a).len() && output_names(a)[i] == new[p].name;
            assert(l[i] == a[i]);
            assert(output_names(l)[i] == old[m].name);
        } else {
            lemma_none_kept_outputs_cover(old, new, base, old.len(), m);
            let i = choose|i: int| 0 <= i < output_names(b).len() && output_names(b)[i] == old[m].name;
            assert(l[a.len() + i] == b[i]);
            assert(output_names(l)[a.len() + i] == old[m].name);
        }
    }
    lemma_changes_of_old_outputs(old, l, diff_base, l.len());
    lemma_no_removed_outputs(old, l, diff_base, old.len());
    assert(crate::diff::outputs_diff(old, l, diff_base) =~= Seq::<ChangeView>::empty());
}

/// `e` is the item of `old` that carries its name.
pub open spec fn from_old_action(old: Seq<ActionView>, e: ActionView) -> bool {
    match action_types(old).index_of_first(e.action_type) {
        Some(j) => old[j] == e,
        None => false,
    }
}

proof fn lemma_none_new_actions_from_old(old: Seq<ActionView>, new: Seq<ActionView>, base: Seq<char>, n: nat)
    requires
        n <= new.len(),
    ensures
        forall|k: int| 0 <= k < merged_new_actions(old, new, base, seq![], false, n).len()
            ==> from_old_action(old, #[trigger] merged_new_actions(old, new, base, seq![], false, n)[k]),
    decreases n,
{
    if n > 0 {
        lemma_none_new_actions_from_old(old, new, base, (n - 1) as nat);
        let prev = merged_new_actions(old, new, base, seq![], false, (n - 1) as nat);
        let cur = merged_new_actions(old, new, base, seq![], false, n);
        let o = new[n - 1];
        action_types(old).index_of_first_ensures(o.action_type);
        match action_types(old).index_of_first(o.action_type) {
            Some(j) => {
                let e = merged_action(old[j], o, base, seq![], false);
                assert(action_types(old)[j] == old[j].action_type);
                assert(e == old[j]);
                assert(cur == prev.push(e));
                assert forall|k: int| 0 <= k < cur.len() implies from_old_action(old, #[trigger] cur[k]) by {
                    if k < prev.len() {
                        assert(cur[k] == prev[k]);
                    }
                }
            },
            None => {
                assert(cur =~= prev);
            },
        }
    }
}

proof fn lemma_none_kept_actions_from_old(old: Seq<ActionView>, new: Seq<ActionView>, base: Seq<char>, n: nat)
    requires
        n <= old.len(),
        crate::diff::distinct_keys(action_types(old)),
    ensures
        forall|k: int| 0 <= k < kept_old_actions(old, new, base, seq![], false, n).len()
            ==> from_old_action(old, #[trigger] kept_old_actions(old, new, base, seq![], false, n)[k]),
    decreases n,
{
    if n > 0 {
        lemma_none_kept_actions_from_old(old, new, base, (n - 1) as nat);
        let prev = kept_old_actions(old, new, base, seq![], false, (n - 1) as nat);
        let cur = kept_old_actions(old, new, base, seq![], false, n);
        crate::diff::lemma_first_of_distinct(action_types(old), n - 1);
        assert(action_types(old)[n - 1] == old[n - 1].action_type);
        assert forall|k: int| 0 <= k < cur.len() implies from_old_action(old, #[trigger] cur[k]) by {
            if k < prev.len() {
                assert(cur[k] == prev[k]);
            }
        }
    }
}

proof fn lemma_none_new_actions_cover(old: Seq<ActionView>, new: Seq<ActionView>, base: Seq<char>, n: nat, p: int)
    requires
        n <= new.len(),
        0 <= p < n,
        action_types(old).contains(new[p].action_type),
    ensures
        action_types(merged_new_actions(old, new, base, seq![], false, n)).contains(new[p].action_type),
    decreases n,
{
    let prev = merged_new_actions(old, new, base, seq![], false, (n - 1) as nat);
    let cur = merged_new_actions(old, new, base, seq![], false, n);
    if p < n - 1 {
        lemma_none_new_actions_cover(old, new, base, (n - 1) as nat, p);
        let i = choose|i: int| 0 <= i < action_types(prev).len() && action_types(prev)[i] == new[p].action_type;
        assert(cur.subrange(0, prev.len() as int) =~= prev);
        assert(cur[i] == prev[i]);
        assert(action_types(cur)[i] == new[p].action_type);
    } else {
        action_types(old).index_of_first_ensures(new[p].action_type);
        let j = action_types(old).index_of_first(new[p].action_type)->0;
        assert(cur == prev.push(merged_action(old[j], new[p], base, seq![], false)));
        assert(action_types(cur)[prev.len() as int] == new[p].action_type);
    }
}

proof fn lemma_none_kept_actions_cover(old: Seq<ActionView>, new: Seq<ActionView>, base: Seq<char>, n: nat, m: int)
    requires
        n <= old.len(),
        0 <= m < n,
        !action_types(new).contains(old[m].action_type),
    ensures
        action_types(kept_old_actions(old, new, base, seq![], false, n)).contains(old[m].action_type),
    decreases n,
{
    let prev = kept_old_actions(old, new, base, seq![], false, (n - 1) as nat);
    let cur = kept_old_actions(old, new, base, seq![], false, n);
    if m < n - 1 {
        lemma_none_kept_actions_cover(old, new, base, (n - 1) as nat, m);
        let i = choose|i: int| 0 <= i < action_types(prev).len() && action_types(prev)[i] == old[m].action_type;
        assert(cur.subrange(0, prev.len() as int) =~= prev);
        assert(cur[i] == prev[i]);
        assert(action_types(cur)[i] == old[m].action_type);
    } else {
        assert(cur == prev.push(old[m]));
        assert(action_types(cur)[prev.len() as int] == old[m].action_type);
    }
}

proof fn lemma_changes_of_old_actions(old: Seq<ActionView>, l: Seq<ActionView>, base: Seq<char>, n: nat)
    requires
        n <= l.len(),
        forall|k: int| 0 <= k < l.len() ==> from_old_action(old, #[trigger] l[k]),
    ensures
        crate::diff::new_actions_changes(old, l, base, n) == Seq::<ChangeView>::empty(),
    decreases n,
{
    if n > 0 {
        lemma_changes_of_old_actions(old, l, base, (n - 1) as nat);
        assert(from_old_action(old, l[n - 1]));
        assert(crate::diff::new_actions_changes(old, l, base, n) =~= Seq::<ChangeView>::empty());
    }
}

proof fn lemma_no_removed_actions(old: Seq<ActionView>, l: Seq<ActionView>, base: Seq<char>, n: nat)
    requires
        n <= old.len(),
        forall|m: int| 0 <= m < old.len() ==> action_types(l).contains(#[trigger] old[m].action_type),
    ensures
        crate::diff::removed_actions(old, l, base, n) == Seq::<ChangeView>::empty(),
    decreases n,
{
    if n > 0 {
        lemma_no_removed_actions(old, l, base, (n - 1) as nat);
        assert(action_types(l).contains(old[n - 1].action_type));
        assert(crate::diff::removed_actions(old, l, base, n) =~= Seq::<ChangeView>::empty());
    }
}

/// Merging actions with nothing accepted changes none of them.
proof fn lemma_none_actions(old: Seq<ActionView>, new: Seq<ActionView>, base: Seq<char>, diff_base: Seq<char>)
    requires
        crate::diff::distinct_keys(action_types(old)),
    ensures
        crate::diff::actions_diff(old, merged_actions(old, new, base, seq![], false), diff_base)
            == Seq::<ChangeView>::empty(),
{
    let a = merged_new_actions(old, new, base, seq![], false, new.len());
    let b = kept_old_actions(old, new, base, seq![], false, old.len());
    let l = merged_actions(old, new, base, seq![], false);
    lemma_none_new_actions_from_old(old, new, base, new.len());
    lemma_none_kept_actions_from_old(old, new, base, old.len());
    assert forall|k: int| 0 <= k < l.len() implies from_old_action(old, #[trigger] l[k]) by {
        if k < a.len() {
            assert(l[k] == a[k]);
        } else {
            assert(l[k] == b[k - a.len()]);
        }
    }
    assert forall|m: int| 0 <= m < old.len() implies action_types(l).contains(#[trigger] old[m].action_type) by {
        if action_types(new).contains(old[m].action_type) {
            let p = choose|p: int| 0 <= p < action_types(new).len() && action_types(new)[p] == old[m].action_type;
            assert(new[p].action_type == old[m].action_type);
            assert(action_types(old)[m] == old[m].action_type);
            lemma_none_new_actions_cover(old, new, base, new.len(), p);
            let i = choose|i: int| 0 <= i < action_types(a).len() && action_types(a)[i] == new[p].action_type;
            assert(l[i] == a[i]);
            assert(action_types(l)[i] == old[m].action_type);
        } else {
            lemma_none_kept_actions_cover(old, new, base, old.len(), m);
            let i = choose|i: int| 0 <= i < action_types(b).len() && action_types(b)[i] == old[m].action_type;
            assert(l[a.len() + i] == b[i]);
            assert(action_types(l)[a.len() + i] == old[m].action_type);
        }
    }
    lemma_changes_of_old_actions(old, l, diff_base, l.len());
    lemma_no_removed_actions(old, l, diff_base, old.len());
    assert(crate::diff::actions_diff(old, l, diff_base) =~= Seq::<ChangeView>::empty());
}

/// `e` carries the name of an item of `old` and has no change against
/// it.
pub open spec fn from_old_input(old: Seq<InputView>, e: InputView) -> bool {
    match input_names(old).index_of_first(e.name) {
        Some(j) => crate::diff::input_changes(old[j], e) == Seq::<ChangeView>::empty(),
        None => false,
    }
}

proof fn lemma_none_new_inputs_from_old(old: ContractView, new: Seq<InputView>, n: nat)
    requires
        n <= new.len(),
        crate::diff::keys_distinct(old),
    ensures
        forall|k: int| 0 <= k < merged_new_inputs(old.inputs, new, seq![], false, n).len()
            ==> from_old_input(old.inputs, #[trigger] merged_new_inputs(old.inputs, new, seq![], false, n)[k]),
    decreases n,
{
    if n > 0 {
        lemma_none_new_inputs_from_old(old, new, (n - 1) as nat);
        let prev = merged_new_inputs(old.inputs, new, seq![], false, (n - 1) as nat);
        let cur = merged_new_inputs(old.inputs, new, seq![], false, n);
        let i = new[n - 1];
        input_names(old.inputs).index_of_first_ensures(i.name);
        match input_names(old.inputs).index_of_first(i.name) {
            Some(j) => {
                let o = old.inputs[j];
                let e = merged_input(o, i, seq![], false);
                assert(input_names(old.inputs)[j] == o.name);
                assert(crate::diff::distinct_keys(output_names(o.outputs)));
                lemma_none_outputs(o.outputs, i.outputs, input_path(i.name), input_path(e.name));
                lemma_none_actions(o.actions, i.actions, input_path(i.name), input_path(e.name));
                assert(crate::diff::input_changes(o, e) =~= Seq::<ChangeView>::empty());
                assert(cur == prev.push(e));
                assert forall|k: int| 0 <= k < cur.len() implies from_old_input(old.inputs, #[trigger] cur[k]) by {
                    if k < prev.len() {
                        assert(cur[k] == prev[k]);
                    }
                }
            },
            None => {
                assert(cur =~= prev);
            },
        }
    }
}

proof fn lemma_none_kept_inputs_from_old(old: ContractView, new: Seq<InputView>, n: nat)
    requires
        n <= old.inputs.len(),
        crate::diff::keys_distinct(old),
    ensures
        forall|k: int| 0 <= k < kept_old_inputs(old.inputs, new, seq![], false, n).len()
            ==> from_old_input(old.inputs, #[trigger] kept_old_inputs(old.inputs, new, seq![], false, n)[k]),
    decreases n,
{
    if n > 0 {
        lemma_none_kept_inputs_from_old(old, new, (n - 1) as nat);
        let prev = kept_old_inputs(old.inputs, new, seq![], false, (n - 1) as nat);
        let cur = kept_old_inputs(old.inputs, new, seq![], false, n);
        crate::diff::lemma_first_of_distinct(input_names(old.inputs), n - 1);
        assert(input_names(old.inputs)[n - 1] == old.inputs[n - 1].name);
        crate::diff::lemma_input_changes_same(old.inputs[n - 1]);
        assert forall|k: int| 0 <= k < cur.len() implies from_old_input(old.inputs, #[trigger] cur[k]) by {
            if k < prev.len() {
                assert(cur[k] == prev[k]);
            }
        }
    }
}

proof fn lemma_none_new_inputs_cover(old: Seq<InputView>, new: Seq<InputView>, n: nat, p: int)
    requires
        n <= new.len(),
        0 <= p < n,
        input_names(old).contains(new[p].name),
    ensures
        input_names(merged_new_inputs(old, new, seq![], false, n)).contains(new[p].name),
    decreases n,
{
    let prev = merged_new_inputs(old, new, seq![], false, (n - 1) as nat);
    let cur = merged_new_inputs(old, new, seq![], false, n);
    if p < n - 1 {
        lemma_none_new_inputs_cover(old, new, (n - 1) as nat, p);
        let i = choose|i: int| 0 <= i < input_names(prev).len() && input_names(prev)[i] == new[p].name;
        assert(cur.subrange(0, prev.len() as int) =~= prev);
        assert(cur[i] == prev[i]);
        assert(input_names(cur)[i] == new[p].name);
    } else {
        input_names(old).index_of_first_ensures(new[p].name);
        let j = input_names(old).index_of_first(new[p].name)->0;
        assert(cur == prev.push(merged_input(old[j], new[p], seq![], false)));
        assert(input_names(cur)[prev.len() as int] == new[p].name);
    }
}

proof fn lemma_none_kept_inputs_cover(old: Seq<InputView>, new: Seq<InputView>, n: nat, m: int)
    requires
        n <= old.len(),
        0 <= m < n,
        !input_names(new).contains(old[m].name),
    ensures
        input_names(kept_old_inputs(old, new, seq![], false, n)).contains(old[m].name),
    decreases n,
{
    let prev = kept_old_inputs(old, new, seq![], false, (n - 1) as nat);
    let cur = kept_old_inputs(old, new, seq![], false, n);
    if m < n - 1 {
        lemma_none_kept_inputs_cover(old, new, (n - 1) as nat, m);
        let i = choose|i: int| 0 <= i < input_names(prev).len() && input_names(prev)[i] == old[m].name;
        assert(cur.subrange(0, prev.len() as int) =~= prev);
        assert(cur[i] == prev[i]);
        assert(input_names(cur)[i] == old[m].name);
    } else {
        assert(cur == prev.push(old[m]));
        assert(input_names(cur)[prev.len() as int] == old[m].name);
    }
}

proof fn lemma_changes_of_old_inputs(old: Seq<InputView>, l: Seq<InputView>, n: nat)
    requires
        n <= l.len(),
        forall|k: int| 0 <= k < l.len() ==> from_old_input(old, #[trigger] l[k]),
    ensures
        crate::diff::new_inputs_changes(old, l, n) == Seq::<ChangeView>::empty(),
    decreases n,
{
    if n > 0 {
        lemma_changes_of_old_inputs(old, l, (n - 1) as nat);
        assert(from_old_input(old, l[n - 1]));
        assert(crate::diff::new_inputs_changes(old, l, n) =~= Seq::<ChangeView>::empty());
    }
}

proof fn lemma_no_removed_inputs(old: Seq<InputView>, l: Seq<InputView>, n: nat)
    requires
        n <= old.len(),
        forall|m: int| 0 <= m < old.len() ==> input_names(l).contains(#[trigger] old[m].name),
    ensures
        crate::diff::removed_inputs(old, l, n) == Seq::<ChangeView>::empty(),
    decreases n,
{
    if n > 0 {
        lemma_no_removed_inputs(old, l, (n - 1) as nat);
        assert(input_names(l).contains(old[n - 1].name));
        assert(crate::diff::removed_inputs(old, l, n) =~= Seq::<ChangeView>::empty());
    }
}

/// Accepting no change (no `--yes`, no `--accept`) gives a contract with
/// no change against the old one: nothing of the draft gets in, and
/// nothing of the registry is lost. The old contract's keys must be
/// distinct, as every valid contract's are.
pub proof fn lemma_accept_nothing_changes_nothing(old: ContractView, new: ContractView)
    requires
        crate::diff::keys_distinct(old),
    ensures
        contract_diff(old, merged(old, new, seq![], false)) == Seq::<ChangeView>::empty(),
{
    let m = merged(old, new, seq![], false);
    let a = merged_new_inputs(old.inputs, new.inputs, seq![], false, new.inputs.len());
    let b = kept_old_inputs(old.inputs, new.inputs, seq![], false, old.inputs.len());
    let l = m.inputs;
    assert(l == a + b);
    lemma_none_new_inputs_from_old(old, new.inputs, new.inputs.len());
    lemma_none_kept_inputs_from_old(old, new.inputs, old.inputs.len());
    assert forall|k: int| 0 <= k < l.len() implies from_old_input(old.inputs, #[trigger] l[k]) by {
        if k < a.len() {
            assert(l[k] == a[k]);
        } else {
            assert(l[k] == b[k - a.len()]);
        }
    }
    assert forall|j: int| 0 <= j < old.inputs.len() implies input_names(l).contains(#[trigger] old.inputs[j].name) by {
        if input_names(new.inputs).contains(old.inputs[j].name) {
            let p = choose|p: int| 0 <= p < input_names(new.inputs).len() && input_names(new.inputs)[p] == old.inputs[j].name;
            assert(new.inputs[p].name == old.inputs[j].name);
            assert(input_names(old.inputs)[j] == old.inputs[j].name);
            lemma_none_new_inputs_cover(old.inputs, new.inputs, new.inputs.len(), p);
            let i = choose|i: int| 0 <= i < input_names(a).len() && input_names(a)[i] == new.inputs[p].name;
            assert(l[i] == a[i]);
            assert(input_names(l)[i] == old.inputs[j].name);
        } else {
            lemma_none_kept_inputs_cover(old.inputs, new.inputs, old.inputs.len(), j);
            let i = choose|i: int| 0 <= i < input_names(b).len() && input_names(b)[i] == old.inputs[j].name;
            assert(l[a.len() + i] == b[i]);
            assert(input_names(l)[a.len() + i] == old.inputs[j].name);
        }
    }
    lemma_changes_of_old_inputs(old.inputs, l, l.len());
    lemma_no_removed_inputs(old.inputs, l, old.inputs.len());
    assert(contract_diff(old, m) =~= Seq::<ChangeView>::empty());
}

// ---------------------------------------------------------------------
// Accepting changes between valid contracts
// ---------------------------------------------------------------------

/// Outputs that each obey their rules and share no name.
pub open spec fn outputs_ok(s: Seq<OutputView>) -> bool {
    &&& forall|k: int| 0 <= k < s.len() ==> crate::model::output_ok(#[trigger] s[k])
    &&& forall|j: int, k: int| 0 <= j < k < s.len() ==> #[trigger] s[j].name != #[trigger] s[k].name
}

proof fn lemma_valid_new_outputs(old: Seq<OutputView>, new: Seq<OutputView>, base: Seq<char>, accept: Seq<Seq<char>>, yes: bool, n: nat)
    requires
        n <= new.len(),
        outputs_ok(old),
        outputs_ok(new),
    ensures
        forall|i: int| 0 <= i < merged_new_outputs(old, new, base, accept, yes, n).len() ==> {
            let e = #[trigger] merged_new_outputs(old, new, base, accept, yes, n)[i];
            crate::model::output_ok(e) && exists|k: int| 0 <= k < n && e.name == new[k].name
        },
        forall|i: int, j: int| 0 <= i < j < merged_new_outputs(old, new, base, accept, yes, n).len()
            ==> #[trigger] merged_new_outputs(old, new, base, accept, yes, n)[i].name
                != #[trigger] merged_new_outputs(old, new, base, accept, yes, n)[j].name,
    decreases n,
{
    if n > 0 {
        lemma_valid_new_outputs(old, new, base, accept, yes, (n - 1) as nat);
        let prev = merged_new_outputs(old, new, base, accept, yes, (n - 1) as nat);
        let cur = merged_new_outputs(old, new, base, accept, yes, n);
        let o = new[n - 1];
        assert(crate::model::output_ok(o));
        output_names(old).index_of_first_ensures(o.name);
        let add = match output_names(old).index_of_first(o.name) {
            Some(j) => seq![merged_output(old[j], o, base, accept, yes)],
            None => if accepts(accept, yes, output_path(base, o.name)) {
                seq![o]
            } else {
                seq![]
            },
        };
        assert(cur == prev + add);
        assert forall|i: int| 0 <= i < add.len() implies crate::model::output_ok(#[trigger] add[i]) && add[i].name == o.name by {
            if let Some(j) = output_names(old).index_of_first(o.name) {
                assert(crate::model::output_ok(old[j]));
            }
        }
        assert forall|i: int| 0 <= i < cur.len() implies {
            let e = #[trigger] cur[i];
            crate::model::output_ok(e) && exists|k: int| 0 <= k < n && e.name == new[k].name
        } by {
            if i < prev.len() {
                assert(cur[i] == prev[i]);
            } else {
                assert(cur[i] == add[i - prev.len()]);
                assert(cur[i].name == new[n - 1].name);
            }
        }
        assert forall|i: int, j: int| 0 <= i < j < cur.len() implies #[trigger] cur[i].name != #[trigger] cur[j].name by {
            if j < prev.len() {
                assert(cur[i] == prev[i] && cur[j] == prev[j]);
            } else if i < prev.len() {
                assert(cur[i] == prev[i]);
                assert(cur[j] == add[j - prev.len()]);
                let k = choose|k: int| 0 <= k < n - 1 && prev[i].name == new[k].name;
                assert(new[k].name != new[n - 1].name);
            } else {
                assert(add.len() <= 1);
            }
        }
    }
}

proof fn lemma_valid_kept_outputs(old: Seq<OutputView>, new: Seq<OutputView>, base: Seq<char>, accept: Seq<Seq<char>>, yes: bool, n: nat)
    requires
        n <= old.len(),
        outputs_ok(old),
    ensures
        forall|i: int| 0 <= i < kept_old_outputs(old, new, base, accept, yes, n).len() ==> {
            let e = #[trigger] kept_old_outputs(old, new, base, accept, yes, n)[i];
            crate::model::output_ok(e) && exists|m: int| 0 <= m < n && e.name == old[m].name
                && !output_names(new).contains(old[m].name)
        },
        forall|i: int, j: int| 0 <= i < j < kept_old_outputs(old, new, base, accept, yes, n).len()
            ==> #[trigger] kept_old_outputs(old, new, base, accept, yes, n)[i].name
                != #[trigger] kept_old_outputs(old, new, base, accept, yes, n)[j].name,
    decreases n,
{
    if n > 0 {
        lemma_valid_kept_outputs(old, new, base, accept, yes, (n - 1) as nat);
        let prev = kept_old_outputs(old, new, base, accept, yes, (n - 1) as nat);
        let cur = kept_old_outputs(old, new, base, accept, yes, n);
        let o = old[n - 1];
        assert(crate::model::output_ok(o));
        if output_names(new).contains(o.name) || accepts(accept, yes, output_path(base, o.name)) {
            assert(cur =~= prev);
        } else {
            assert(cur == prev.push(o));
            assert forall|i: int| 0 <= i < cur.len() implies {
                let e = #[trigger] cur[i];
                crate::model::output_ok(e) && exists|m: int| 0 <= m < n && e.name == old[m].name
                    && !output_names(new).contains(old[m].name)
            } by {
                if i < prev.len() {
                    assert(cur[i] == prev[i]);
                }
            }
            assert forall|i: int, j: int| 0 <= i < j < cur.len() implies #[trigger] cur[i].name != #[trigger] cur[j].name by {
                if j < prev.len() {
                    assert(cur[i] == prev[i] && cur[j] == prev[j]);
                } else {
                    assert(cur[i] == prev[i]);
                    let m = choose|m: int| 0 <= m < n - 1 && prev[i].name == old[m].name
                        && !output_names(new).contains(old[m].name);
                    assert(old[m].name != old[n - 1].name);
                }
            }
        }
    }
}

/// Merging two lists of valid outputs gives valid outputs.
proof fn lemma_valid_outputs(old: Seq<OutputView>, new: Seq<OutputView>, base: Seq<char>, accept: Seq<Seq<char>>, yes: bool)
    requires
        outputs_ok(old),
        outputs_ok(new),
    ensures
        outputs_ok(merged_outputs(old, new, base, accept, yes)),
{
    let a = merged_new_outputs(old, new, base, accept, yes, new.len());
    let b = kept_old_outputs(old, new, base, accept, yes, old.len());
    let l = merged_outputs(old, new, base, accept, yes);
    lemma_valid_new_outputs(old, new, base, accept, yes, new.len());
    lemma_valid_kept_outputs(old, new, base, accept, yes, old.len());
    assert forall|k: int| 0 <= k < l.len() implies crate::model::output_ok(#[trigger] l[k]) by {
        if k < a.len() {
            assert(l[k] == a[k]);
        } else {
            assert(l[k] == b[k - a.len()]);
        }
    }
    assert forall|i: int, j: int| 0 <= i < j < l.len() implies #[trigger] l[i].name != #[trigger] l[j].name by {
        if j < a.len() {
            assert(l[i] == a[i] && l[j] == a[j]);
        } else if i >= a.len() {
            assert(l[i] == b[i - a.len()] && l[j] == b[j - a.len()]);
        } else {
            assert(l[i] == a[i] && l[j] == b[j - a.len()]);
            let k = choose|k: int| 0 <= k < new.len() && a[i].name == new[k].name;
            let m = choose|m: int| 0 <= m < old.len() && b[j - a.len()].name == old[m].name
                && !output_names(new).contains(old[m].name);
            assert(output_names(new)[k] == new[k].name);
        }
    }
}

/// Actions that each obey their rules and share no type.
pub open spec fn actions_ok(s: Seq<ActionView>) -> bool {
    &&& forall|k: int| 0 <= k < s.len() ==> crate::model::action_ok(#[trigger] s[k])
    &&& forall|j: int, k: int| 0 <= j < k < s.len() ==> #[trigger] s[j].action_type != #[trigger] s[k].action_type
}

proof fn lemma_valid_new_actions(old: Seq<ActionView>, new: Seq<ActionView>, base: Seq<char>, accept: Seq<Seq<char>>, yes: bool, n: nat)
    requires
        n <= new.len(),
        actions_ok(old),
        actions_ok(new),
    ensures
        forall|i: int| 0 <= i < merged_new_actions(old, new, base, accept, yes, n).len() ==> {
            let e = #[trigger] merged_new_actions(old, new, base, accept, yes, n)[i];
            crate::model::action_ok(e) && exists|k: int| 0 <= k < n && e.action_type == new[k].action_type
        },
        forall|i: int, j: int| 0 <= i < j < merged_new_actions(old, new, base, accept, yes, n).len()
            ==> #[trigger] merged_new_actions(old, new, base, accept, yes, n)[i].action_type
                != #[trigger] merged_new_actions(old, new, base, accept, yes, n)[j].action_type,
    decreases n,
{
    if n > 0 {
        lemma_valid_new_actions(old, new, base, accept, yes, (n - 1) as nat);
        let prev = merged_new_actions(old, new, base, accept, yes, (n - 1) as nat);
        let cur = merged_new_actions(old, new, base, accept, yes, n);
        let o = new[n - 1];
        assert(crate::model::action_ok(o));
        action_types(old).index_of_first_ensures(o.action_type);
        let add = match action_types(old).index_of_first(o.action_type) {
            Some(j) => seq![merged_action(old[j], o, base, accept, yes)],
            None => if accepts(accept, yes, action_path(base, o.action_type)) {
                seq![o]
            } else {
                seq![]
            },
        };
        assert(cur == prev + add);
        assert forall|i: int| 0 <= i < add.len() implies crate::model::action_ok(#[trigger] add[i]) && add[i].action_type == o.action_type by {
            if let Some(j) = action_types(old).index_of_first(o.action_type) {
                assert(crate::model::action_ok(old[j]));
            }
        }
        assert forall|i: int| 0 <= i < cur.len() implies {
            let e = #[trigger] cur[i];
            crate::model::action_ok(e) && exists|k: int| 0 <= k < n && e.action_type == new[k].action_type
        } by {
            if i < prev.len() {
                assert(cur[i] == prev[i]);
            } else {
                assert(cur[i] == add[i - prev.len()]);
                assert(cur[i].action_type == new[n - 1].action_type);
            }
        }
        assert forall|i: int, j: int| 0 <= i < j < cur.len() implies #[trigger] cur[i].action_type != #[trigger] cur[j].action_type by {
            if j < prev.len() {
                assert(cur[i] == prev[i] && cur[j] == prev[j]);
            } else if i < prev.len() {
                assert(cur[i] == prev[i]);
                assert(cur[j] == add[j - prev.len()]);
                let k = choose|k: int| 0 <= k < n - 1 && prev[i].action_type == new[k].action_type;
                assert(new[k].action_type != new[n - 1].action_type);
            } else {
                assert(add.len() <= 1);
            }
        }
    }
}

proof fn lemma_valid_kept_actions(old: Seq<ActionView>, new: Seq<ActionView>, base: Seq<char>, accept: Seq<Seq<char>>, yes: bool, n: nat)
    requires
        n <= old.len(),
        actions_ok(old),
    ensures
        forall|i: int| 0 <= i < kept_old_actions(old, new, base, accept, yes, n).len() ==> {
            let e = #[trigger] kept_old_actions(old, new, base, accept, yes, n)[i];
            crate::model::action_ok(e) && exists|m: int| 0 <= m < n && e.action_type == old[m].action_type
                && !action_types(new).contains(old[m].action_type)
        },
        forall|i: int, j: int| 0 <= i < j < kept_old_actions(old, new, base, accept, yes, n).len()
            ==> #[trigger] kept_old_actions(old, new, base, accept, yes, n)[i].action_type
                != #[trigger] kept_old_actions(old, new, base, accept, yes, n)[j].action_type,
    decreases n,
{
    if n > 0 {
        lemma_valid_kept_actions(old, new, base, accept, yes, (n - 1) as nat);
        let prev = kept_old_actions(old, new, base, accept, yes, (n - 1) as nat);
        let cur = kept_old_actions(old, new, base, accept, yes, n);
        let o = old[n - 1];
        assert(crate::model::action_ok(o));
        if action_types(new).contains(o.action_type) || accepts(accept, yes, action_path(base, o.action_type)) {
            assert(cur =~= prev);
        } else {
            assert(cur == prev.push(o));
            assert forall|i: int| 0 <= i < cur.len() implies {
                let e = #[trigger] cur[i];
                crate::model::action_ok(e) && exists|m: int| 0 <= m < n && e.action_type == old[m].action_type
                    && !action_types(new).contains(old[m].action_type)
            } by {
                if i < prev.len() {
                    assert(cur[i] == prev[i]);
                }
            }
            assert forall|i: int, j: int| 0 <= i < j < cur.len() implies #[trigger] cur[i].action_type != #[trigger] cur[j].action_type by {
                if j < prev.len() {
                    assert(cur[i] == prev[i] && cur[j] == prev[j]);
                } else {
                    assert(cur[i] == prev[i]);
                    let m = choose|m: int| 0 <= m < n - 1 && prev[i].action_type == old[m].action_type
                        && !action_types(new).contains(old[m].action_type);
                    assert(old[m].action_type != old[n - 1].action_type);
                }
            }
        }
    }
}

/// Merging two lists of valid actions gives valid actions.
proof fn lemma_valid_actions(old: Seq<ActionView>, new: Seq<ActionView>, base: Seq<char>, accept: Seq<Seq<char>>, yes: bool)
    requires
        actions_ok(old),
        actions_ok(new),
    ensures
        actions_ok(merged_actions(old, new, base, accept, yes)),
{
    let a = merged_new_actions(old, new, base, accept, yes, new.len());
    let b = kept_old_actions(old, new, base, accept, yes, old.len());
    let l = merged_actions(old, new, base, accept, yes);
    lemma_valid_new_actions(old, new, base, accept, yes, new.len());
    lemma_valid_kept_actions(old, new, base, accept, yes, old.len());
    assert forall|k: int| 0 <= k < l.len() implies crate::model::action_ok(#[trigger] l[k]) by {
        if k < a.len() {
            assert(l[k] == a[k]);
        } else {
            assert(l[k] == b[k - a.len()]);
        }
    }
    assert forall|i: int, j: int| 0 <= i < j < l.len() implies #[trigger] l[i].action_type != #[trigger] l[j].action_type by {
        if j < a.len() {
            assert(l[i] == a[i] && l[j] == a[j]);
        } else if i >= a.len() {
            assert(l[i] == b[i - a.len()] && l[j] == b[j - a.len()]);
        } else {
            assert(l[i] == a[i] && l[j] == b[j - a.len()]);
            let k = choose|k: int| 0 <= k < new.len() && a[i].action_type == new[k].action_type;
            let m = choose|m: int| 0 <= m < old.len() && b[j - a.len()].action_type == old[m].action_type
                && !action_types(new).contains(old[m].action_type);
            assert(action_types(new)[k] == new[k].action_type);
        }
    }
}

proof fn lemma_valid_merged_input(o: InputView, n: InputView, accept: Seq<Seq<char>>, yes: bool)
    requires
        crate::model::input_ok(o),
        crate::model::input_ok(n),
    ensures
        crate::model::input_ok(merged_input(o, n, accept, yes)),
{
    let base = input_path(n.name);
    lemma_valid_outputs(o.outputs, n.outputs, base, accept, yes);
    lemma_valid_actions(o.actions, n.actions, base, accept, yes);
}

proof fn lemma_valid_new_inputs(old: Seq<InputView>, new: Seq<InputView>, accept: Seq<Seq<char>>, yes: bool, n: nat)
    requires
        n <= new.len(),
        forall|k: int| 0 <= k < old.len() ==> crate::model::input_ok(#[trigger] old[k]),
        forall|k: int| 0 <= k < new.len() ==> crate::model::input_ok(#[trigger] new[k]),
        forall|j: int, k: int| 0 <= j < k < new.len() ==> #[trigger] new[j].name != #[trigger] new[k].name,
    ensures
        forall|i: int| 0 <= i < merged_new_inputs(old, new, accept, yes, n).len() ==> {
            let e = #[trigger] merged_new_inputs(old, new, accept, yes, n)[i];
            crate::model::input_ok(e) && exists|k: int| 0 <= k < n && e.name == new[k].name
        },
        forall|i: int, j: int| 0 <= i < j < merged_new_inputs(old, new, accept, yes, n).len()
            ==> #[trigger] merged_new_inputs(old, new, accept, yes, n)[i].name
                != #[trigger] merged_new_inputs(old, new, accept, yes, n)[j].name,
    decreases n,
{
    if n > 0 {
        lemma_valid_new_inputs(old, new, accept, yes, (n - 1) as nat);
        let prev = merged_new_inputs(old, new, accept, yes, (n - 1) as nat);
        let cur = merged_new_inputs(old, new, accept, yes, n);
        let x = new[n - 1];
        assert(crate::model::input_ok(x));
        input_names(old).index_of_first_ensures(x.name);
        let add = match input_names(old).index_of_first(x.name) {
            Some(j) => seq![merged_input(old[j], x, accept, yes)],
            None => if accepts(accept, yes, input_path(x.name)) {
                seq![x]
            } else {
                seq![]
            },
        };
        assert(cur == prev + add);
        assert forall|i: int| 0 <= i < add.len() implies crate::model::input_ok(#[trigger] add[i]) && add[i].name == x.name by {
            if let Some(j) = input_names(old).index_of_first(x.name) {
                assert(crate::model::input_ok(old[j]));
                lemma_valid_merged_input(old[j], x, accept, yes);
            }
        }
        assert forall|i: int| 0 <= i < cur.len() implies {
            let e = #[trigger] cur[i];
            crate::model::input_ok(e) && exists|k: int| 0 <= k < n && e.name == new[k].name
        } by {
            if i < prev.len() {
                assert(cur[i] == prev[i]);
            } else {
                assert(cur[i] == add[i - prev.len()]);
                assert(cur[i].name == new[n - 1].name);
            }
        }
        assert forall|i: int, j: int| 0 <= i < j < cur.len() implies #[trigger] cur[i].name != #[trigger] cur[j].name by {
            if j < prev.len() {
                assert(cur[i] == prev[i] && cur[j] == prev[j]);
            } else if i < prev.len() {
                assert(cur[i] == prev[i]);
                assert(cur[j] == add[j - prev.len()]);
                let k = choose|k: int| 0 <= k < n - 1 && prev[i].name == new[k].name;
                assert(new[k].name != new[n - 1].name);
            } else {
                assert(add.len() <= 1);
            }
        }
    }
}

proof fn lemma_valid_kept_inputs(old: Seq<InputView>, new: Seq<InputView>, accept: Seq<Seq<char>>, yes: bool, n: nat)
    requires
        n <= old.len(),
        forall|k: int| 0 <= k < old.len() ==> crate::model::input_ok(#[trigger] old[k]),
        forall|j: int, k: int| 0 <= j < k < old.len() ==> #[trigger] old[j].name != #[trigger] old[k].name,
    ensures
        forall|i: int| 0 <= i < kept_old_inputs(old, new, accept, yes, n).len() ==> {
            let e = #[trigger] kept_old_inputs(old, new, accept, yes, n)[i];
            crate::model::input_ok(e) && exists|m: int| 0 <= m < n && e.name == old[m].name
                && !input_names(new).contains(old[m].name)
        },
        forall|i: int, j: int| 0 <= i < j < kept_old_inputs(old, new, accept, yes, n).len()
            ==> #[trigger] kept_old_inputs(old, new, accept, yes, n)[i].name
                != #[trigger] kept_old_inputs(old, new, accept, yes, n)[j].name,
    decreases n,
{
    if n > 0 {
        lemma_valid_kept_inputs(old, new, accept, yes, (n - 1) as nat);
        let prev = kept_old_inputs(old, new, accept, yes, (n - 1) as nat);
        let cur = kept_old_inputs(old, new, accept, yes, n);
        let o = old[n - 1];
        assert(crate::model::input_ok(o));
        if input_names(new).contains(o.name) || accepts(accept, yes, input_path(o.name)) {
            assert(cur =~= prev);
        } else {
            assert(cur == prev.push(o));
            assert forall|i: int| 0 <= i < cur.len() implies {
                let e = #[trigger] cur[i];
                crate::model::input_ok(e) && exists|m: int| 0 <= m < n && e.name == old[m].name
                    && !input_names(new).contains(old[m].name)
            } by {
                if i < prev.len() {
                    assert(cur[i] == prev[i]);
                }
            }
            assert forall|i: int, j: int| 0 <= i < j < cur.len() implies #[trigger] cur[i].name != #[trigger] cur[j].name by {
                if j < prev.len() {
                    assert(cur[i] == prev[i] && cur[j] == prev[j]);
                } else {
                    assert(cur[i] == prev[i]);
                    let m = choose|m: int| 0 <= m < n - 1 && prev[i].name == old[m].name
                        && !input_names(new).contains(old[m].name);
                    assert(old[m].name != old[n - 1].name);
                }
            }
        }
    }
}

/// Accepting any choice of changes between two valid contracts gives a
/// valid contract: a save whose draft and registry entry are valid is
/// never refused by the rules.
pub proof fn lemma_merge_keeps_validity(old: ContractView, new: ContractView, accept: Seq<Seq<char>>, yes: bool)
    requires
        is_valid(old),
        is_valid(new),
    ensures
        is_valid(merged(old, new, accept, yes)),
{
    let a = merged_new_inputs(old.inputs, new.inputs, accept, yes, new.inputs.len());
    let b = kept_old_inputs(old.inputs, new.inputs, accept, yes, old.inputs.len());
    let l = merged_inputs(old.inputs, new.inputs, accept, yes);
    lemma_valid_new_inputs(old.inputs, new.inputs, accept, yes, new.inputs.len());
    lemma_valid_kept_inputs(old.inputs, new.inputs, accept, yes, old.inputs.len());
    assert forall|k: int| 0 <= k < l.len() implies crate::model::input_ok(#[trigger] l[k]) by {
        if k < a.len() {
            assert(l[k] == a[k]);
        } else {
            assert(l[k] == b[k - a.len()]);
        }
    }
    assert forall|i: int, j: int| 0 <= i < j < l.len() implies #[trigger] l[i].name != #[trigger] l[j].name by {
        if j < a.len() {
            assert(l[i] == a[i] && l[j] == a[j]);
        } else if i >= a.len() {
            assert(l[i] == b[i - a.len()] && l[j] == b[j - a.len()]);
        } else {
            assert(l[i] == a[i] && l[j] == b[j - a.len()]);
            let k = choose|k: int| 0 <= k < new.inputs.len() && a[i].name == new.inputs[k].name;
            assert(input_names(new.inputs)[k] == new.inputs[k].name);
        }
    }
}

/// Saving a valid draft over a valid registry entry (or none) is never
/// refused by the rules.
pub proof fn lemma_valid_save_never_refused(
    project: Seq<char>,
    draft: ContractView,
    existing: Option<ContractView>,
    accept: Seq<Seq<char>>,
    yes: bool,
)
    requires
        is_valid(draft),
        existing matches Some(old) ==> is_valid(old),
    ensures
        !(save_answer(project, draft, existing, accept, yes) is Refused),
{
    lemma_validation_is_validity(draft);
    if let Some(old) = existing {
        lemma_merge_keeps_validity(old, draft, accept, yes);
        lemma_validation_is_validity(merged(old, draft, accept, yes));
    }
}

// ---------------------------------------------------------------------
// Computing the merged contract
// ---------------------------------------------------------------------

fn copy_action(a: &Action) -> (r: Action)
    ensures
        r@ == a@,
{
    Action { action_type: a.action_type.clone(), instructions: a.instructions.clone() }
}

fn copy_output(o: &Output) -> (r: Output)
    ensures
        r@ == o@,
{
    Output {
        name: o.name.clone(),
        description: match &o.description {
            Some(d) => Some(d.clone()),
            None => None,
        },
        output_type: o.output_type,
        location: o.location.clone(),
    }
}

fn copy_outputs(v: &[Output]) -> (r: Vec<Output>)
    ensures
        view_outputs(r@) == view_outputs(v@),
{
    let mut r: Vec<Output> = Vec::new();
    let mut i: usize = 0;
    while i < v.len()
        invariant
            i <= v.len(),
            r.len() == i,
            view_outputs(r@) == view_outputs(v@).take(i as int),
        decreases v.len() - i,
    {
        assert(view_outputs(v@)[i as int] == v@[i as int]@);
        r.push(copy_output(&v[i]));
        assert(view_outputs(r@) =~= view_outputs(v@).take(i + 1));
        i = i + 1;
    }
    assert(view_outputs(v@).take(v.len() as int) =~= view_outputs(v@));
    r
}

fn copy_actions(v: &[Action]) -> (r: Vec<Action>)
    ensures
        view_actions(r@) == view_actions(v@),
{
    let mut r: Vec<Action> = Vec::new();
    let mut i: usize = 0;
    while i < v.len()
        invariant
            i <= v.len(),
            r.len() == i,
            view_actions(r@) == view_actions(v@).take(i as int),
        decreases v.len() - i,
    {
        assert(view_actions(v@)[i as int] == v@[i as int]@);
        r.push(copy_action(&v[i]));
        assert(view_actions(r@) =~= view_actions(v@).take(i + 1));
        i = i + 1;
    }
    assert(view_actions(v@).take(v.len() as int) =~= view_actions(v@));
    r
}

fn copy_input(i: &Input) -> (r: Input)
    ensures
        r@ == i@,
{
    Input {
        name: i.name.clone(),
        description: i.description.clone(),
        input_type: i.input_type,
        outputs: copy_outputs(i.outputs.as_slice()),
        actions: copy_actions(i.actions.as_slice()),
    }
}

fn pick(take_new: bool, old: &String, new: &String) -> (r: String)
    ensures
        r@ == if take_new { new@ } else { old@ },
{
    if take_new { new.clone() } else { old.clone() }
}

#[verifier::loop_isolation(false)]
fn merge_actions(prior: &[Action], next: &[Action], base: &str, accept: &[String], yes: bool) -> (r: Vec<Action>)
    ensures
        view_actions(r@) == merged_actions(
            view_actions(prior@),
            view_actions(next@),
            base@,
            view_texts(accept@),
            yes,
        ),
{
    let ghost ov = view_actions(prior@);
    let ghost nv = view_actions(next@);
    let ghost av = view_texts(accept@);
    let mut r: Vec<Action> = Vec::new();
    let mut i: usize = 0;
    while i < next.len()
        invariant
            i <= next.len(),
            view_actions(r@) == merged_new_actions(ov, nv, base@, av, yes, i as nat),
        decreases next.len() - i,
    {
        let a = &next[i];
        assert(nv[i as int] == a@);
        match crate::diff::find_action(prior, &a.action_type) {
            Some(j) => {
                let o = &prior[j];
                assert(ov[j as int] == o@);
                let path = crate::diff::action_path_string(base, a.action_type.as_str());
                let take = is_accepted(join2(path.as_str(), ".instructions").as_str(), accept, yes);
                r.push(Action {
                    action_type: a.action_type.clone(),
                    instructions: pick(take, &o.instructions, &a.instructions),
                });
            },
            None => {
                let path = crate::diff::action_path_string(base, a.action_type.as_str());
                if is_accepted(path.as_str(), accept, yes) {
                    r.push(copy_action(a));
                }
            },
        }
        assert(view_actions(r@) =~= merged_new_actions(ov, nv, base@, av, yes, (i + 1) as nat));
        i = i + 1;
    }
    let ghost mid = view_actions(r@);
    let mut k: usize = 0;
    while k < prior.len()
        invariant
            k <= prior.len(),
            r.len() == view_actions(r@).len(),
            view_actions(r@) == mid + kept_old_actions(ov, nv, base@, av, yes, k as nat),
        decreases prior.len() - k,
    {
        let o = &prior[k];
        assert(ov[k as int] == o@);
        if crate::diff::find_action(next, &o.action_type).is_none() {
            let path = crate::diff::action_path_string(base, o.action_type.as_str());
            if !is_accepted(path.as_str(), accept, yes) {
                let ghost r0 = r@;
                r.push(copy_action(o));
                assert(view_actions(r@) =~= view_actions(r0).push(o@));
            }
        }
        assert(kept_old_actions(ov, nv, base@, av, yes, (k + 1) as nat) == kept_old_actions(ov, nv, base@, av, yes, k as nat) + (if action_types(nv).contains(ov[k as int].action_type) || accepts(av, yes, action_path(base@, ov[k as int].action_type)) { Seq::<ActionView>::empty() } else { seq![ov[k as int]] }));
        assert(view_actions(r@) =~= mid + kept_old_actions(ov, nv, base@, av, yes, (k + 1) as nat));
        k = k + 1;
    }
    r
}

#[verifier::loop_isolation(false)]
fn merge_outputs(prior: &[Output], next: &[Output], base: &str, accept: &[String], yes: bool) -> (r: Vec<Output>)
    ensures
        view_outputs(r@) == merged_outputs(
            view_outputs(prior@),
            view_outputs(next@),
            base@,
            view_texts(accept@),
            yes,
        ),
{
    let ghost ov = view_outputs(prior@);
    let ghost nv = view_outputs(next@);
    let ghost av = view_texts(accept@);
    let mut r: Vec<Output> = Vec::new();
    let mut i: usize = 0;
    while i < next.len()
        invariant
            i <= next.len(),
            view_outputs(r@) == merged_new_outputs(ov, nv, base@, av, yes, i as nat),
        decreases next.len() - i,
    {
        let n = &next[i];
        assert(nv[i as int] == n@);
        match crate::diff::find_output(prior, &n.name) {
            Some(j) => {
                let o = &prior[j];
                assert(ov[j as int] == o@);
                let path = crate::diff::output_path_string(base, n.name.as_str());
                let take_desc = is_accepted(join2(path.as_str(), ".description").as_str(), accept, yes);
                let take_type = is_accepted(join2(path.as_str(), ".type").as_str(), accept, yes);
                let take_loc = is_accepted(join2(path.as_str(), ".location").as_str(), accept, yes);
                let source = if take_desc { n } else { o };
                r.push(Output {
                    name: n.name.clone(),
                    description: match &source.description {
                        Some(d) => Some(d.clone()),
                        None => None,
                    },
                    output_type: if take_type { n.output_type } else { o.output_type },
                    location: pick(take_loc, &o.location, &n.location),
                });
            },
            None => {
                let path = crate::diff::output_path_string(base, n.name.as_str());
                if is_accepted(path.as_str(), accept, yes) {
                    r.push(copy_output(n));
                }
            },
        }
        assert(view_outputs(r@) =~= merged_new_outputs(ov, nv, base@, av, yes, (i + 1) as nat));
        i = i + 1;
    }
    let ghost mid = view_outputs(r@);
    let mut k: usize = 0;
    while k < prior.len()
        invariant
            k <= prior.len(),
            r.len() == view_outputs(r@).len(),
            view_outputs(r@) == mid + kept_old_outputs(ov, nv, base@, av, yes, k as nat),
        decreases prior.len() - k,
    {
        let o = &prior[k];
        assert(ov[k as int] == o@);
        if crate::diff::find_output(next, &o.name).is_none() {
            let path = crate::diff::output_path_string(base, o.name.as_str());
            if !is_accepted(path.as_str(), accept, yes) {
                let ghost r0 = r@;
                r.push(copy_output(o));
                assert(view_outputs(r@) =~= view_outputs(r0).push(o@));
            }
        }
        assert(view_outputs(r@) =~= mid + kept_old_outputs(ov, nv, base@, av, yes, (k + 1) as nat));
        k = k + 1;
    }
    r
}

#[verifier::loop_isolation(false)]
fn merge_inputs(prior: &[Input], next: &[Input], accept: &[String], yes: bool) -> (r: Vec<Input>)
    ensures
        view_inputs(r@) == merged_inputs(
            view_inputs(prior@),
            view_inputs(next@),
            view_texts(accept@),
            yes,
        ),
{
    let ghost ov = view_inputs(prior@);
    let ghost nv = view_inputs(next@);
    let ghost av = view_texts(accept@);
    let mut r: Vec<Input> = Vec::new();
    let mut i: usize = 0;
    while i < next.len()
        invariant
            i <= next.len(),
            view_inputs(r@) == merged_new_inputs(ov, nv, av, yes, i as nat),
        decreases next.len() - i,
    {
        let n = &next[i];
        assert(nv[i as int] == n@);
        match crate::diff::find_input(prior, &n.name) {
            Some(j) => {
                let o = &prior[j];
                assert(ov[j as int] == o@);
                let base = crate::diff::input_path_string(n.name.as_str());
                let take_desc = is_accepted(join2(base.as_str(), ".description").as_str(), accept, yes);
                let take_type = is_accepted(join2(base.as_str(), ".type").as_str(), accept, yes);
                r.push(Input {
                    name: n.name.clone(),
                    description: pick(take_desc, &o.description, &n.description),
                    input_type: if take_type { n.input_type } else { o.input_type },
                    outputs: merge_outputs(o.outputs.as_slice(), n.outputs.as_slice(), base.as_str(), accept, yes),
                    actions: merge_actions(o.actions.as_slice(), n.actions.as_slice(), base.as_str(), accept, yes),
                });
            },
            None => {
                let base = crate::diff::input_path_string(n.name.as_str());
                if is_accepted(base.as_str(), accept, yes) {
                    r.push(copy_input(n));
                }
            },
        }
        assert(view_inputs(r@) =~= merged_new_inputs(ov, nv, av, yes, (i + 1) as nat));
        i = i + 1;
    }
    let ghost mid = view_inputs(r@);
    let mut k: usize = 0;
    while k < prior.len()
        invariant
            k <= prior.len(),
            r.len() == view_inputs(r@).len(),
            view_inputs(r@) == mid + kept_old_inputs(ov, nv, av, yes, k as nat),
        decreases prior.len() - k,
    {
        let o = &prior[k];
        assert(ov[k as int] == o@);
        if crate::diff::find_input(next, &o.name).is_none() {
            let base = crate::diff::input_path_string(o.name.as_str());
            if !is_accepted(base.as_str(), accept, yes) {
                let ghost r0 = r@;
                r.push(copy_input(o));
                assert(view_inputs(r@) =~= view_inputs(r0).push(o@));
            }
        }
        assert(view_inputs(r@) =~= mid + kept_old_inputs(ov, nv, av, yes, (k + 1) as nat));
        k = k + 1;
    }
    r
}

/// The contract that accepting the chosen changes of the diff from `old`
/// to `new` gives (see `merged`).
pub fn apply_accepted(old: &ProjectContract, new: &ProjectContract, accept: &[String], yes: bool) -> (r: ProjectContract)
    ensures
        r@ == merged(old@, new@, view_texts(accept@), yes),
{
    let take_name = is_accepted("project.name", accept, yes);
    let take_desc = is_accepted("project.description", accept, yes);
    ProjectContract {
        schema_version: new.schema_version,
        project: Project {
            name: pick(take_name, &old.project.name, &new.project.name),
            description: pick(take_desc, &old.project.description, &new.project.description),
        },
        inputs: merge_inputs(old.inputs.as_slice(), new.inputs.as_slice(), accept, yes),
    }
}


// ---------------------------------------------------------------------
// What a save answers
// ---------------------------------------------------------------------

/// The paths of `changes`, in order.
pub open spec fn change_paths(changes: Seq<ChangeView>) -> Seq<Seq<char>> {
    changes.map_values(|c: ChangeView| c.path())
}

/// What a save answers.
#[derive(Debug, Clone, PartialEq, Eq)]
pub enum SaveOutcome {
    /// The draft names another project than the one being saved.
    NameMismatch { expected: String, found: String },
    /// The draft differs from the registry and no change was accepted;
    /// nothing is written.
    PendingChanges { changes: Vec<FieldChange> },
    /// `contract` is to be written to the registry; `accepted` lists the
    /// paths of the changes that were accepted.
    Saved { contract: ProjectContract, accepted: Vec<String> },
    /// The contract to be written breaks a rule; nothing is written.
    Refused { error: ContractError },
}

pub enum SaveView {
    NameMismatch { expected: Seq<char>, found: Seq<char> },
    PendingChanges { changes: Seq<ChangeView> },
    Saved { contract: ContractView, accepted: Seq<Seq<char>> },
    Refused { error: ErrorView },
}

impl View for SaveOutcome {
    type V = SaveView;

    open spec fn view(&self) -> SaveView {
        match self {
            SaveOutcome::NameMismatch { expected, found } => SaveView::NameMismatch {
                expected: expected@,
                found: found@,
            },
            SaveOutcome::PendingChanges { changes } => SaveView::PendingChanges {
                changes: view_changes(changes@),
            },
            SaveOutcome::Saved { contract, accepted } => SaveView::Saved {
                contract: contract@,
                accepted: view_texts(accepted@),
            },
            SaveOutcome::Refused { error } => SaveView::Refused { error: error@ },
        }
    }
}

/// `c` is written when it is valid, refused with its first broken rule
/// otherwise.
pub open spec fn checked_save(c: ContractView, accepted: Seq<Seq<char>>) -> SaveView {
    match contract_error(c) {
        None => SaveView::Saved { contract: c, accepted },
        Some(e) => SaveView::Refused { error: e },
    }
}

pub open spec fn opt_contract(c: Option<ProjectContract>) -> Option<ContractView> {
    match c {
        Some(c) => Some(c@),
        None => None,
    }
}

/// What saving the draft of `project` answers, given the registry's
/// current contract for it (if any), the accepted path prefixes and
/// whether every change is accepted:
/// - a draft that names another project is a name mismatch;
/// - a first save, or a draft with no change, writes the draft;
/// - otherwise the contract that accepting the chosen changes gives is
///   written, together with the paths of its changes against the
///   registry's contract (the changes that were taken); when the choice
///   takes no change, the changes are pending and nothing is written;
/// and whatever is to be written must be valid.
pub open spec fn save_answer(
    project: Seq<char>,
    draft: ContractView,
    existing: Option<ContractView>,
    accept: Seq<Seq<char>>,
    yes: bool,
) -> SaveView {
    if draft.project.name != project {
        SaveView::NameMismatch { expected: project, found: draft.project.name }
    } else {
        match existing {
            None => checked_save(draft, seq![]),
            Some(old) => {
                let changes = contract_diff(old, draft);
                let result = merged(old, draft, accept, yes);
                let taken = contract_diff(old, result);
                if changes.len() == 0 {
                    checked_save(draft, seq![])
                } else if taken.len() == 0 {
                    SaveView::PendingChanges { changes }
                } else {
                    checked_save(result, change_paths(taken))
                }
            },
        }
    }
}

/// Saving with `--yes` a valid draft that names the project writes the
/// draft itself, whatever the registry held and whatever was accepted.
pub proof fn lemma_save_yes_writes_draft(
    project: Seq<char>,
    draft: ContractView,
    existing: Option<ContractView>,
    accept: Seq<Seq<char>>,
)
    requires
        draft.project.name == project,
        is_valid(draft),
    ensures
        save_answer(project, draft, existing, accept, true) matches SaveView::Saved { contract, .. }
            && contract == draft,
{
    lemma_validation_is_validity(draft);
    match existing {
        None => {},
        Some(old) => {
            lemma_accept_all_gives_new(old, draft, accept);
        },
    }
}

/// Whatever a save writes obeys every rule of a contract.
pub proof fn lemma_saved_is_valid(
    project: Seq<char>,
    draft: ContractView,
    existing: Option<ContractView>,
    accept: Seq<Seq<char>>,
    yes: bool,
)
    ensures
        save_answer(project, draft, existing, accept, yes) matches SaveView::Saved { contract, .. }
            ==> is_valid(contract),
{
    if let SaveView::Saved { contract, .. } = save_answer(project, draft, existing, accept, yes) {
        lemma_validation_is_validity(contract);
    }
}

/// A save over a valid registry contract that has changes to report and
/// accepts none of them (no `--yes` and no `--accept`) writes nothing and
/// reports every change.
pub proof fn lemma_unaccepted_changes_are_pending(
    project: Seq<char>,
    draft: ContractView,
    old: ContractView,
)
    requires
        is_valid(old),
        draft.project.name == project,
        contract_diff(old, draft).len() > 0,
    ensures
        save_answer(project, draft, Some(old), seq![], false) == (SaveView::PendingChanges {
            changes: contract_diff(old, draft),
        }),
{
    crate::diff::lemma_valid_has_distinct_keys(old);
    lemma_accept_nothing_changes_nothing(old, draft);
}

fn check_save(c: ProjectContract, accepted: Vec<String>) -> (r: SaveOutcome)
    ensures
        r@ == checked_save(c@, view_texts(accepted@)),
{
    match c.validate() {
        Ok(()) => SaveOutcome::Saved { contract: c, accepted },
        Err(error) => SaveOutcome::Refused { error },
    }
}

/// The paths of `changes`, in order.
pub fn change_path_list(changes: &Vec<FieldChange>) -> (r: Vec<String>)
    ensures
        view_texts(r@) == change_paths(view_changes(changes@)),
{
    let ghost cv = view_changes(changes@);
    let mut r: Vec<String> = Vec::new();
    let mut i: usize = 0;
    while i < changes.len()
        invariant
            i <= changes.len(),
            cv == view_changes(changes@),
            view_texts(r@) == change_paths(cv).take(i as int),
        decreases changes.len() - i,
    {
        assert(cv[i as int] == changes[i as int]@);
        let path = changes[i].path();
        let ghost r0 = r@;
        r.push(path.clone());
        assert(view_texts(r@) =~= view_texts(r0).push(path@));
        assert(change_paths(cv).take(i + 1 as int) =~= change_paths(cv).take(i as int).push(path@));
        i = i + 1;
    }
    assert(change_paths(cv).take(changes.len() as int) =~= change_paths(cv));
    r
}

/// Decides what saving `draft` as `project` does (see `save_answer`).
pub fn decide_save(
    project: &str,
    draft: ProjectContract,
    existing: Option<ProjectContract>,
    accept: &[String],
    yes: bool,
) -> (r: SaveOutcome)
    ensures
        r@ == save_answer(project@, draft@, opt_contract(existing), view_texts(accept@), yes),
        match existing {
            Some(o) => is_valid(o@) && is_valid(draft@) && r@ is Saved ==> crate::selective::saved_as_accepted(
                o@,
                draft@,
                r@->contract,
                r@->accepted,
                view_texts(accept@),
                yes,
            ),
            None => true,
        },
{
    proof {
        if let Some(o) = opt_contract(existing) {
            if is_valid(o) && is_valid(draft@) {
                crate::selective::lemma_save_takes_accepted(project@, draft@, o, view_texts(accept@), yes);
            }
        }
    }
    let wanted = owned(project);
    if draft.project.name != wanted {
        return SaveOutcome::NameMismatch { expected: wanted, found: draft.project.name };
    }
    let none: Vec<String> = Vec::new();
    assert(view_texts(none@) =~= Seq::<Seq<char>>::empty());
    match existing {
        None => check_save(draft, none),
        Some(old) => {
            let changes = diff_contracts(&old, &draft);
            if changes.len() == 0 {
                check_save(draft, none)
            } else {
                let result = apply_accepted(&old, &draft, accept, yes);
                let taken = diff_contracts(&old, &result);
                if taken.len() == 0 {
                    SaveOutcome::PendingChanges { changes }
                } else {
                    let accepted = change_path_list(&taken);
                    check_save(result, accepted)
                }
            }
        },
    }
}


// ---------------------------------------------------------------------
// What a load answers
// ---------------------------------------------------------------------

/// What a load answers.
#[derive(Debug, Clone, PartialEq, Eq)]
pub enum LoadOutcome {
    /// The query names a project of the registry: its contract, and the
    /// draft file that is seeded with it for editing.
    Loaded { project: ProjectContract, draft_path: String },
    /// No project has that name, but some resemble the query.
    Ambiguous,
    /// No project has that name and none resembles the query.
    NotFound,
}

/// Decides what loading `query` answers, given the registry's contract
/// named exactly `query` (if any) and how many projects resemble it: an
/// exact match wins, then any resemblance; otherwise nothing is found.
pub fn decide_load(store: &Store, query: &str, exact: Option<ProjectContract>, candidates: usize) -> (r: LoadOutcome)
    ensures
        match exact {
            Some(c) => r matches LoadOutcome::Loaded { project, draft_path } && project == c
                && draft_path@ == join_path(join_path(store.root(), "drafts"@), file_name(query@)),
            None => if candidates > 0 {
                r is Ambiguous
            } else {
                r is NotFound
            },
        },
{
    match exact {
        Some(project) => LoadOutcome::Loaded { project, draft_path: store.draft_path(query) },
        None => if candidates > 0 {
            LoadOutcome::Ambiguous
        } else {
            LoadOutcome::NotFound
        },
    }
}

} // verus!
