//! Further laws of the diff between valid contracts: a modification always
//! changes a value, an added input is reported once at its own path, a
//! removed input has nothing reported below it, and every path follows
//! the path grammar.

use vstd::prelude::*;
use crate::diff::{
    ChangeView, action_changes, action_types, actions_diff, contract_diff, input_changes,
    input_names, input_type_name, input_type_text, inputs_diff, new_action_changes, new_actions_changes,
    new_input_changes, new_inputs_changes, new_output_changes, new_outputs_changes,
    opt_input_type_text, opt_text, output_changes, output_names, output_type_text, outputs_diff,
    project_changes, removed_actions, removed_inputs, removed_outputs,
};
use crate::model::{
    ActionView, ContractView, InputType, InputView, OutputType, OutputView, action_ok, input_ok,
    is_valid, output_ok,
};

verus! {

/// The changes of an output that both versions have (by name) are none
/// exactly when the two are equal, one per differing field otherwise.
pub proof fn lemma_output_changes_exact(o: OutputView, n: OutputView, base: Seq<char>)
    requires
        o.name == n.name,
    ensures
        output_changes(o, n, base).len() == (if o.description != n.description { 1int } else { 0 })
            + (if o.output_type != n.output_type { 1int } else { 0 })
            + (if o.location != n.location { 1int } else { 0 }),
        output_changes(o, n, base).len() == 0 <==> o == n,
{
}

/// The changes of an action that both versions have (by type) are none
/// exactly when the two are equal, a change of the instructions otherwise.
pub proof fn lemma_action_changes_exact(o: ActionView, n: ActionView, base: Seq<char>)
    requires
        o.action_type == n.action_type,
    ensures
        action_changes(o, n, base).len() == 0 <==> o == n,
        action_changes(o, n, base).len() <= 1,
{
}

/// Every modification of `cs` has different old and new texts.
pub open spec fn mods_differ(cs: Seq<ChangeView>) -> bool {
    forall|i: int|
        0 <= i < cs.len() ==> (#[trigger] cs[i] matches ChangeView::Modified { old, new, .. }
            ==> old != new)
}

proof fn lemma_mods_concat(a: Seq<ChangeView>, b: Seq<ChangeView>)
    requires
        mods_differ(a),
        mods_differ(b),
    ensures
        mods_differ(a + b),
{
    let c = a + b;
    assert forall|i: int| 0 <= i < c.len() implies (#[trigger] c[i] matches ChangeView::Modified {
        old,
        new,
        ..
    } ==> old != new) by {
        if i < a.len() {
            assert(c[i] == a[i]);
        } else {
            assert(c[i] == b[i - a.len()]);
        }
    }
}

proof fn lemma_output_type_text_injective(a: OutputType, b: OutputType)
    requires
        a != b,
    ensures
        output_type_text(a) != output_type_text(b),
{
    reveal_strlit("file");
    reveal_strlit("directory");
    assert(output_type_text(a).len() != output_type_text(b).len());
}

proof fn lemma_input_type_text_injective(a: Option<InputType>, b: Option<InputType>)
    requires
        a != b,
    ensures
        opt_input_type_text(a) != opt_input_type_text(b),
{
    reveal_strlit("Some(");
    reveal_strlit(")");
    reveal_strlit("None");
    reveal_strlit("File");
    reveal_strlit("Directory");
    reveal_strlit("Text");
    reveal_strlit("Url");
    reveal_strlit("Other");
    let x = opt_input_type_text(a);
    let y = opt_input_type_text(b);
    if let Some(t) = a {
        assert(x.len() == 6 + input_type_name(t).len());
        assert(x[5] == input_type_name(t)[0]);
    }
    if let Some(t) = b {
        assert(y.len() == 6 + input_type_name(t).len());
        assert(y[5] == input_type_name(t)[0]);
    }
    assert(x.len() != y.len() || x[5] != y[5]);
}

proof fn lemma_output_changes_differ(o: OutputView, n: OutputView, base: Seq<char>)
    requires
        output_ok(o),
        output_ok(n),
    ensures
        mods_differ(output_changes(o, n, base)),
{
    if o.description != n.description {
        match (o.description, n.description) {
            (Some(d), None) => {
                assert(!crate::text::is_blank(d));
                assert(d.len() > 0);
            },
            (None, Some(d)) => {
                assert(!crate::text::is_blank(d));
                assert(d.len() > 0);
            },
            _ => {},
        }
        assert(opt_text(o.description) != opt_text(n.description));
    }
    if o.output_type != n.output_type {
        lemma_output_type_text_injective(o.output_type, n.output_type);
    }
}

proof fn lemma_new_outputs_differ(old: Seq<OutputView>, new: Seq<OutputView>, base: Seq<char>, n: nat)
    requires
        n <= new.len(),
        forall|k: int| 0 <= k < old.len() ==> output_ok(#[trigger] old[k]),
        forall|k: int| 0 <= k < new.len() ==> output_ok(#[trigger] new[k]),
    ensures
        mods_differ(new_outputs_changes(old, new, base, n)),
    decreases n,
{
    if n > 0 {
        lemma_new_outputs_differ(old, new, base, (n - 1) as nat);
        output_names(old).index_of_first_ensures(new[n - 1].name);
        match output_names(old).index_of_first(new[n - 1].name) {
            Some(j) => lemma_output_changes_differ(old[j], new[n - 1], base),
            None => {},
        }
        lemma_mods_concat(
            new_outputs_changes(old, new, base, (n - 1) as nat),
            new_output_changes(old, new[n - 1], base),
        );
    }
}

proof fn lemma_removed_outputs_differ(old: Seq<OutputView>, new: Seq<OutputView>, base: Seq<char>, n: nat)
    ensures
        mods_differ(removed_outputs(old, new, base, n)),
    decreases n,
{
    if n > 0 {
        lemma_removed_outputs_differ(old, new, base, (n - 1) as nat);
        let prev = removed_outputs(old, new, base, (n - 1) as nat);
        let cur = removed_outputs(old, new, base, n);
        assert forall|i: int| 0 <= i < cur.len() implies (#[trigger] cur[i] matches ChangeView::Modified {
            old,
            new,
            ..
        } ==> old != new) by {
            if i < prev.len() {
                assert(cur[i] == prev[i]);
            }
        }
    }
}

proof fn lemma_new_actions_differ(old: Seq<ActionView>, new: Seq<ActionView>, base: Seq<char>, n: nat)
    requires
        n <= new.len(),
    ensures
        mods_differ(new_actions_changes(old, new, base, n)),
    decreases n,
{
    if n > 0 {
        lemma_new_actions_differ(old, new, base, (n - 1) as nat);
        lemma_mods_concat(
            new_actions_changes(old, new, base, (n - 1) as nat),
            new_action_changes(old, new[n - 1], base),
        );
    }
}

proof fn lemma_removed_actions_differ(old: Seq<ActionView>, new: Seq<ActionView>, base: Seq<char>, n: nat)
    ensures
        mods_differ(removed_actions(old, new, base, n)),
    decreases n,
{
    if n > 0 {
        lemma_removed_actions_differ(old, new, base, (n - 1) as nat);
        let prev = removed_actions(old, new, base, (n - 1) as nat);
        let cur = removed_actions(old, new, base, n);
        assert forall|i: int| 0 <= i < cur.len() implies (#[trigger] cur[i] matches ChangeView::Modified {
            old,
            new,
            ..
        } ==> old != new) by {
            if i < prev.len() {
                assert(cur[i] == prev[i]);
            }
        }
    }
}

proof fn lemma_input_changes_differ(o: InputView, n: InputView)
    requires
        input_ok(o),
        input_ok(n),
    ensures
        mods_differ(input_changes(o, n)),
{
    let base = crate::diff::input_path(n.name);
    if o.input_type != n.input_type {
        lemma_input_type_text_injective(o.input_type, n.input_type);
    }
    lemma_new_outputs_differ(o.outputs, n.outputs, base, n.outputs.len());
    lemma_removed_outputs_differ(o.outputs, n.outputs, base, o.outputs.len());
    lemma_new_actions_differ(o.actions, n.actions, base, n.actions.len());
    lemma_removed_actions_differ(o.actions, n.actions, base, o.actions.len());
    let d = if o.description != n.description {
        seq![ChangeView::Modified { path: base + ".description"@, old: o.description, new: n.description }]
    } else {
        Seq::<ChangeView>::empty()
    };
    let t = if o.input_type != n.input_type {
        seq![
            ChangeView::Modified {
                path: base + ".type"@,
                old: opt_input_type_text(o.input_type),
                new: opt_input_type_text(n.input_type),
            },
        ]
    } else {
        Seq::<ChangeView>::empty()
    };
    let od = outputs_diff(o.outputs, n.outputs, base);
    let ad = actions_diff(o.actions, n.actions, base);
    lemma_mods_concat(
        new_outputs_changes(o.outputs, n.outputs, base, n.outputs.len()),
        removed_outputs(o.outputs, n.outputs, base, o.outputs.len()),
    );
    lemma_mods_concat(
        new_actions_changes(o.actions, n.actions, base, n.actions.len()),
        removed_actions(o.actions, n.actions, base, o.actions.len()),
    );
    assert(input_changes(o, n) == d + t + od + ad);
    lemma_mods_concat(d, t);
    lemma_mods_concat(d + t, od);
    lemma_mods_concat(d + t + od, ad);
}

proof fn lemma_new_inputs_differ(old: Seq<InputView>, new: Seq<InputView>, n: nat)
    requires
        n <= new.len(),
        forall|k: int| 0 <= k < old.len() ==> input_ok(#[trigger] old[k]),
        forall|k: int| 0 <= k < new.len() ==> input_ok(#[trigger] new[k]),
    ensures
        mods_differ(new_inputs_changes(old, new, n)),
    decreases n,
{
    if n > 0 {
        lemma_new_inputs_differ(old, new, (n - 1) as nat);
        input_names(old).index_of_first_ensures(new[n - 1].name);
        let g = new_input_changes(old, new[n - 1]);
        match input_names(old).index_of_first(new[n - 1].name) {
            Some(j) => lemma_input_changes_differ(old[j], new[n - 1]),
            None => {
                assert forall|i: int| 0 <= i < g.len() implies (#[trigger] g[i] matches ChangeView::Modified {
                    old,
                    new,
                    ..
                } ==> old != new) by {
                    lemma_added_has_no_mods(new[n - 1], i);
                }
            },
        }
        lemma_mods_concat(new_inputs_changes(old, new, (n - 1) as nat), g);
    }
}

proof fn lemma_removed_inputs_differ(old: Seq<InputView>, new: Seq<InputView>, n: nat)
    ensures
        mods_differ(removed_inputs(old, new, n)),
    decreases n,
{
    if n > 0 {
        lemma_removed_inputs_differ(old, new, (n - 1) as nat);
        let prev = removed_inputs(old, new, (n - 1) as nat);
        let cur = removed_inputs(old, new, n);
        assert forall|i: int| 0 <= i < cur.len() implies (#[trigger] cur[i] matches ChangeView::Modified {
            old,
            new,
            ..
        } ==> old != new) by {
            if i < prev.len() {
                assert(cur[i] == prev[i]);
            }
        }
    }
}

/// Every change that an added input brings is an addition.
pub open spec fn all_added(cs: Seq<ChangeView>) -> bool {
    forall|i: int| 0 <= i < cs.len() ==> #[trigger] cs[i] is Added
}

proof fn lemma_added_concat(a: Seq<ChangeView>, b: Seq<ChangeView>)
    requires
        all_added(a),
        all_added(b),
    ensures
        all_added(a + b),
{
    let c = a + b;
    assert forall|i: int| 0 <= i < c.len() implies #[trigger] c[i] is Added by {
        if i < a.len() {
            assert(c[i] == a[i]);
        } else {
            assert(c[i] == b[i - a.len()]);
        }
    }
}

proof fn lemma_outputs_added_all(base: Seq<char>, outs: Seq<OutputView>, n: nat)
    ensures
        all_added(crate::diff::outputs_added(base, outs, n)),
    decreases n,
{
    if n > 0 {
        lemma_outputs_added_all(base, outs, (n - 1) as nat);
        lemma_added_concat(
            crate::diff::outputs_added(base, outs, (n - 1) as nat),
            crate::diff::output_added(crate::diff::output_path(base, outs[n - 1].name), outs[n - 1]),
        );
    }
}

proof fn lemma_actions_added_all(base: Seq<char>, acts: Seq<ActionView>, n: nat)
    ensures
        all_added(crate::diff::actions_added(base, acts, n)),
    decreases n,
{
    if n > 0 {
        lemma_actions_added_all(base, acts, (n - 1) as nat);
        lemma_added_concat(
            crate::diff::actions_added(base, acts, (n - 1) as nat),
            crate::diff::action_added(crate::diff::action_path(base, acts[n - 1].action_type), acts[n - 1]),
        );
    }
}

/// The changes of an input that the old version lacks are all additions.
pub proof fn lemma_added_input_all_added(n: InputView)
    ensures
        all_added(
            seq![ChangeView::Added { path: crate::diff::input_path(n.name), value: crate::diff::input_summary(n) }]
                + crate::diff::input_added(crate::diff::input_path(n.name), n),
        ),
{
    let base = crate::diff::input_path(n.name);
    lemma_outputs_added_all(base, n.outputs, n.outputs.len());
    lemma_actions_added_all(base, n.actions, n.actions.len());
    let w = seq![ChangeView::Added { path: base, value: crate::diff::input_summary(n) }];
    let d = if n.description.len() != 0 {
        seq![ChangeView::Added { path: base + ".description"@, value: n.description }]
    } else {
        Seq::<ChangeView>::empty()
    };
    let t = match n.input_type {
        Some(x) => seq![ChangeView::Added { path: base + ".type"@, value: crate::diff::input_type_text(x) }],
        None => Seq::<ChangeView>::empty(),
    };
    let oa = crate::diff::outputs_added(base, n.outputs, n.outputs.len());
    let aa = crate::diff::actions_added(base, n.actions, n.actions.len());
    assert(crate::diff::input_added(base, n) == d + t + oa + aa);
    lemma_added_concat(d, t);
    lemma_added_concat(d + t, oa);
    lemma_added_concat(d + t + oa, aa);
    lemma_added_concat(w, d + t + oa + aa);
}

proof fn lemma_added_has_no_mods(n: InputView, i: int)
    requires
        0 <= i < (seq![ChangeView::Added { path: crate::diff::input_path(n.name), value: crate::diff::input_summary(n) }]
            + crate::diff::input_added(crate::diff::input_path(n.name), n)).len(),
    ensures
        (seq![ChangeView::Added { path: crate::diff::input_path(n.name), value: crate::diff::input_summary(n) }]
            + crate::diff::input_added(crate::diff::input_path(n.name), n))[i] is Added,
{
    lemma_added_input_all_added(n);
}

/// Between valid contracts a modification always changes its value: its
/// old and new texts differ.
pub proof fn lemma_modifications_change_values(old: ContractView, new: ContractView)
    requires
        is_valid(old),
        is_valid(new),
    ensures
        mods_differ(contract_diff(old, new)),
{
    lemma_new_inputs_differ(old.inputs, new.inputs, new.inputs.len());
    lemma_removed_inputs_differ(old.inputs, new.inputs, old.inputs.len());
    lemma_mods_concat(
        new_inputs_changes(old.inputs, new.inputs, new.inputs.len()),
        removed_inputs(old.inputs, new.inputs, old.inputs.len()),
    );
    let pc = project_changes(old.project, new.project);
    assert(mods_differ(pc));
    lemma_mods_concat(pc, inputs_diff(old.inputs, new.inputs));
}

// ---------------------------------------------------------------------
// The path grammar
// ---------------------------------------------------------------------

/// `p` is the path of an output at `q` or of one of its fields.
pub open spec fn output_tail(p: Seq<char>, q: Seq<char>) -> bool {
    ||| p == q
    ||| p == q + ".description"@
    ||| p == q + ".type"@
    ||| p == q + ".location"@
}

/// `p` is the path of an action at `q` or of its instructions.
pub open spec fn action_tail(p: Seq<char>, q: Seq<char>) -> bool {
    p == q || p == q + ".instructions"@
}

/// `c` has an input named `i` with an output named `o`.
pub open spec fn has_output(c: ContractView, i: Seq<char>, o: Seq<char>) -> bool {
    exists|k: int| 0 <= k < c.inputs.len() && c.inputs[k].name == i && #[trigger] output_names(c.inputs[k].outputs).contains(o)
}

/// `c` has an input named `i` with an action of type `a`.
pub open spec fn has_action(c: ContractView, i: Seq<char>, a: Seq<char>) -> bool {
    exists|k: int| 0 <= k < c.inputs.len() && c.inputs[k].name == i && #[trigger] action_types(c.inputs[k].actions).contains(a)
}

/// `p` follows the path grammar under the input named `i` of `old` or
/// `new`: `inputs[i]`, its `.description` or `.type`, or an output or
/// action of that input (by name or type) with one of its fields.
pub open spec fn input_field_path(p: Seq<char>, i: Seq<char>, old: ContractView, new: ContractView) -> bool {
    let base = crate::diff::input_path(i);
    ||| p == base
    ||| p == base + ".description"@
    ||| p == base + ".type"@
    ||| exists|o: Seq<char>| (has_output(old, i, o) || has_output(new, i, o)) && #[trigger] output_tail(p, crate::diff::output_path(base, o))
    ||| exists|a: Seq<char>| (has_action(old, i, a) || has_action(new, i, a)) && #[trigger] action_tail(p, crate::diff::action_path(base, a))
}

/// `p` follows the path grammar of the diff from `old` to `new`:
/// `project.name`, `project.description`, or a path under an input that
/// one of the two has, every item addressed by its key.
pub open spec fn grammar_path(p: Seq<char>, old: ContractView, new: ContractView) -> bool {
    ||| p == "project.name"@
    ||| p == "project.description"@
    ||| exists|i: Seq<char>| (input_names(old.inputs).contains(i) || input_names(new.inputs).contains(i))
        && #[trigger] input_field_path(p, i, old, new)
}

/// `p` is the path of an output under `base`, named by one of `names`, or
/// of one of its fields.
pub open spec fn output_path_ok(p: Seq<char>, base: Seq<char>, names: Set<Seq<char>>) -> bool {
    exists|o: Seq<char>| names.contains(o) && #[trigger] output_tail(p, crate::diff::output_path(base, o))
}

/// `p` is the path of an action under `base`, typed by one of `names`, or
/// of its instructions.
pub open spec fn action_path_ok(p: Seq<char>, base: Seq<char>, names: Set<Seq<char>>) -> bool {
    exists|a: Seq<char>| names.contains(a) && #[trigger] action_tail(p, crate::diff::action_path(base, a))
}

/// Every path of `cs` is an output path under `base` whose output is one
/// of the given names.
pub open spec fn output_paths(cs: Seq<ChangeView>, base: Seq<char>, names: Set<Seq<char>>) -> bool {
    forall|k: int| 0 <= k < cs.len() ==> output_path_ok(#[trigger] cs[k].path(), base, names)
}

pub open spec fn action_paths(cs: Seq<ChangeView>, base: Seq<char>, names: Set<Seq<char>>) -> bool {
    forall|k: int| 0 <= k < cs.len() ==> action_path_ok(#[trigger] cs[k].path(), base, names)
}

proof fn lemma_output_paths_concat(a: Seq<ChangeView>, b: Seq<ChangeView>, base: Seq<char>, names: Set<Seq<char>>)
    requires
        output_paths(a, base, names),
        output_paths(b, base, names),
    ensures
        output_paths(a + b, base, names),
{
    let c = a + b;
    assert forall|k: int| 0 <= k < c.len() implies output_path_ok(#[trigger] c[k].path(), base, names) by {
        if k < a.len() {
            assert(c[k] == a[k]);
        } else {
            assert(c[k] == b[k - a.len()]);
        }
    }
}

proof fn lemma_action_paths_concat(a: Seq<ChangeView>, b: Seq<ChangeView>, base: Seq<char>, names: Set<Seq<char>>)
    requires
        action_paths(a, base, names),
        action_paths(b, base, names),
    ensures
        action_paths(a + b, base, names),
{
    let c = a + b;
    assert forall|k: int| 0 <= k < c.len() implies action_path_ok(#[trigger] c[k].path(), base, names) by {
        if k < a.len() {
            assert(c[k] == a[k]);
        } else {
            assert(c[k] == b[k - a.len()]);
        }
    }
}

pub open spec fn out_names(o: Seq<OutputView>, n: Seq<OutputView>) -> Set<Seq<char>> {
    output_names(o).to_set().union(output_names(n).to_set())
}

pub open spec fn act_names(o: Seq<ActionView>, n: Seq<ActionView>) -> Set<Seq<char>> {
    action_types(o).to_set().union(action_types(n).to_set())
}

proof fn lemma_outputs_diff_grammar(old: Seq<OutputView>, new: Seq<OutputView>, base: Seq<char>, n: nat, m: nat)
    requires
        n <= new.len(),
        m <= old.len(),
    ensures
        output_paths(new_outputs_changes(old, new, base, n), base, out_names(old, new)),
        output_paths(removed_outputs(old, new, base, m), base, out_names(old, new)),
    decreases n + m,
{
    let names = out_names(old, new);
    if n > 0 {
        lemma_outputs_diff_grammar(old, new, base, (n - 1) as nat, m);
        let x = new[n - 1];
        assert(output_names(new)[n - 1] == x.name);
        assert(output_names(new).to_set().contains(x.name));
        let g = new_output_changes(old, new[n - 1], base);
        let q = crate::diff::output_path(base, x.name);
        assert forall|k: int| 0 <= k < g.len() implies output_path_ok(#[trigger] g[k].path(), base, names) by {
            assert(output_tail(g[k].path(), q));
        }
        lemma_output_paths_concat(new_outputs_changes(old, new, base, (n - 1) as nat), g, base, names);
    }
    if m > 0 {
        lemma_outputs_diff_grammar(old, new, base, n, (m - 1) as nat);
        let x = old[m - 1];
        assert(output_names(old)[m - 1] == x.name);
        assert(output_names(old).to_set().contains(x.name));
        let prev = removed_outputs(old, new, base, (m - 1) as nat);
        let cur = removed_outputs(old, new, base, m);
        let q = crate::diff::output_path(base, x.name);
        assert forall|k: int| 0 <= k < cur.len() implies output_path_ok(#[trigger] cur[k].path(), base, names) by {
            if k < prev.len() {
                assert(cur[k] == prev[k]);
            } else {
                assert(output_tail(cur[k].path(), q));
            }
        }
    }
}

proof fn lemma_actions_diff_grammar(old: Seq<ActionView>, new: Seq<ActionView>, base: Seq<char>, n: nat, m: nat)
    requires
        n <= new.len(),
        m <= old.len(),
    ensures
        action_paths(new_actions_changes(old, new, base, n), base, act_names(old, new)),
        action_paths(removed_actions(old, new, base, m), base, act_names(old, new)),
    decreases n + m,
{
    let names = act_names(old, new);
    if n > 0 {
        lemma_actions_diff_grammar(old, new, base, (n - 1) as nat, m);
        let x = new[n - 1];
        assert(action_types(new)[n - 1] == x.action_type);
        assert(action_types(new).to_set().contains(x.action_type));
        let g = new_action_changes(old, new[n - 1], base);
        let q = crate::diff::action_path(base, x.action_type);
        assert forall|k: int| 0 <= k < g.len() implies action_path_ok(#[trigger] g[k].path(), base, names) by {
            assert(action_tail(g[k].path(), q));
        }
        lemma_action_paths_concat(new_actions_changes(old, new, base, (n - 1) as nat), g, base, names);
    }
    if m > 0 {
        lemma_actions_diff_grammar(old, new, base, n, (m - 1) as nat);
        let x = old[m - 1];
        assert(action_types(old)[m - 1] == x.action_type);
        assert(action_types(old).to_set().contains(x.action_type));
        let prev = removed_actions(old, new, base, (m - 1) as nat);
        let cur = removed_actions(old, new, base, m);
        let q = crate::diff::action_path(base, x.action_type);
        assert forall|k: int| 0 <= k < cur.len() implies action_path_ok(#[trigger] cur[k].path(), base, names) by {
            if k < prev.len() {
                assert(cur[k] == prev[k]);
            } else {
                assert(action_tail(cur[k].path(), q));
            }
        }
    }
}

proof fn lemma_outputs_added_grammar(base: Seq<char>, outs: Seq<OutputView>, n: nat)
    requires
        n <= outs.len(),
    ensures
        output_paths(crate::diff::outputs_added(base, outs, n), base, output_names(outs).to_set()),
    decreases n,
{
    if n > 0 {
        lemma_outputs_added_grammar(base, outs, (n - 1) as nat);
        let x = outs[n - 1];
        assert(output_names(outs)[n - 1] == x.name);
        assert(output_names(outs).to_set().contains(x.name));
        let q = crate::diff::output_path(base, x.name);
        let g = crate::diff::output_added(q, x);
        assert forall|k: int| 0 <= k < g.len() implies output_path_ok(#[trigger] g[k].path(), base, output_names(outs).to_set()) by {
            assert(output_tail(g[k].path(), q));
        }
        lemma_output_paths_concat(crate::diff::outputs_added(base, outs, (n - 1) as nat), g, base, output_names(outs).to_set());
    }
}

proof fn lemma_actions_added_grammar(base: Seq<char>, acts: Seq<ActionView>, n: nat)
    requires
        n <= acts.len(),
    ensures
        action_paths(crate::diff::actions_added(base, acts, n), base, action_types(acts).to_set()),
    decreases n,
{
    if n > 0 {
        lemma_actions_added_grammar(base, acts, (n - 1) as nat);
        let x = acts[n - 1];
        assert(action_types(acts)[n - 1] == x.action_type);
        assert(action_types(acts).to_set().contains(x.action_type));
        let q = crate::diff::action_path(base, x.action_type);
        let g = crate::diff::action_added(q, x);
        assert forall|k: int| 0 <= k < g.len() implies action_path_ok(#[trigger] g[k].path(), base, action_types(acts).to_set()) by {
            assert(action_tail(g[k].path(), q));
        }
        lemma_action_paths_concat(crate::diff::actions_added(base, acts, (n - 1) as nat), g, base, action_types(acts).to_set());
    }
}

/// Every path of `cs` follows the grammar under the input named `i`.
pub open spec fn input_paths(cs: Seq<ChangeView>, i: Seq<char>, old: ContractView, new: ContractView) -> bool {
    forall|k: int| 0 <= k < cs.len() ==> input_field_path(#[trigger] cs[k].path(), i, old, new)
}

proof fn lemma_input_paths_concat(a: Seq<ChangeView>, b: Seq<ChangeView>, i: Seq<char>, old: ContractView, new: ContractView)
    requires
        input_paths(a, i, old, new),
        input_paths(b, i, old, new),
    ensures
        input_paths(a + b, i, old, new),
{
    let c = a + b;
    assert forall|k: int| 0 <= k < c.len() implies input_field_path(#[trigger] c[k].path(), i, old, new) by {
        if k < a.len() {
            assert(c[k] == a[k]);
        } else {
            assert(c[k] == b[k - a.len()]);
        }
    }
}

proof fn lemma_lift_outputs(cs: Seq<ChangeView>, i: Seq<char>, old: ContractView, new: ContractView, ko: int, kn: int, c_old: bool, c_new: bool)
    requires
        c_old ==> 0 <= ko < old.inputs.len() && old.inputs[ko].name == i,
        c_new ==> 0 <= kn < new.inputs.len() && new.inputs[kn].name == i,
        output_paths(cs, crate::diff::input_path(i), {
            let so = if c_old { output_names(old.inputs[ko].outputs).to_set() } else { Set::empty() };
            let sn = if c_new { output_names(new.inputs[kn].outputs).to_set() } else { Set::empty() };
            so.union(sn)
        }),
    ensures
        input_paths(cs, i, old, new),
{
    let base = crate::diff::input_path(i);
    assert forall|k: int| 0 <= k < cs.len() implies input_field_path(#[trigger] cs[k].path(), i, old, new) by {
        let so = if c_old { output_names(old.inputs[ko].outputs).to_set() } else { Set::empty() };
        let sn = if c_new { output_names(new.inputs[kn].outputs).to_set() } else { Set::empty() };
        let o = choose|o: Seq<char>| so.union(sn).contains(o) && #[trigger] output_tail(cs[k].path(), crate::diff::output_path(base, o));
        if so.contains(o) {
            assert(output_names(old.inputs[ko].outputs).contains(o));
            assert(has_output(old, i, o));
        } else {
            assert(output_names(new.inputs[kn].outputs).contains(o));
            assert(has_output(new, i, o));
        }
    }
}

proof fn lemma_lift_actions(cs: Seq<ChangeView>, i: Seq<char>, old: ContractView, new: ContractView, ko: int, kn: int, c_old: bool, c_new: bool)
    requires
        c_old ==> 0 <= ko < old.inputs.len() && old.inputs[ko].name == i,
        c_new ==> 0 <= kn < new.inputs.len() && new.inputs[kn].name == i,
        action_paths(cs, crate::diff::input_path(i), {
            let so = if c_old { action_types(old.inputs[ko].actions).to_set() } else { Set::empty() };
            let sn = if c_new { action_types(new.inputs[kn].actions).to_set() } else { Set::empty() };
            so.union(sn)
        }),
    ensures
        input_paths(cs, i, old, new),
{
    let base = crate::diff::input_path(i);
    assert forall|k: int| 0 <= k < cs.len() implies input_field_path(#[trigger] cs[k].path(), i, old, new) by {
        let so = if c_old { action_types(old.inputs[ko].actions).to_set() } else { Set::empty() };
        let sn = if c_new { action_types(new.inputs[kn].actions).to_set() } else { Set::empty() };
        let a = choose|a: Seq<char>| so.union(sn).contains(a) && #[trigger] action_tail(cs[k].path(), crate::diff::action_path(base, a));
        if so.contains(a) {
            assert(action_types(old.inputs[ko].actions).contains(a));
            assert(has_action(old, i, a));
        } else {
            assert(action_types(new.inputs[kn].actions).contains(a));
            assert(has_action(new, i, a));
        }
    }
}

proof fn lemma_new_input_grammar(old: ContractView, new: ContractView, kn: int)
    requires
        0 <= kn < new.inputs.len(),
    ensures
        input_paths(new_input_changes(old.inputs, new.inputs[kn]), new.inputs[kn].name, old, new),
{
    let x = new.inputs[kn];
    let i = x.name;
    let base = crate::diff::input_path(i);
    input_names(old.inputs).index_of_first_ensures(i);
    match input_names(old.inputs).index_of_first(i) {
        Some(ko) => {
            let o = old.inputs[ko];
            assert(input_names(old.inputs)[ko] == o.name);
            let d = if o.description != x.description {
                seq![ChangeView::Modified { path: base + ".description"@, old: o.description, new: x.description }]
            } else {
                Seq::<ChangeView>::empty()
            };
            let t = if o.input_type != x.input_type {
                seq![
                    ChangeView::Modified {
                        path: base + ".type"@,
                        old: opt_input_type_text(o.input_type),
                        new: opt_input_type_text(x.input_type),
                    },
                ]
            } else {
                Seq::<ChangeView>::empty()
            };
            let od = outputs_diff(o.outputs, x.outputs, base);
            let ad = actions_diff(o.actions, x.actions, base);
            assert(input_changes(o, x) == d + t + od + ad);
            lemma_outputs_diff_grammar(o.outputs, x.outputs, base, x.outputs.len(), o.outputs.len());
            lemma_output_paths_concat(
                new_outputs_changes(o.outputs, x.outputs, base, x.outputs.len()),
                removed_outputs(o.outputs, x.outputs, base, o.outputs.len()),
                base,
                out_names(o.outputs, x.outputs),
            );
            lemma_lift_outputs(od, i, old, new, ko, kn, true, true);
            lemma_actions_diff_grammar(o.actions, x.actions, base, x.actions.len(), o.actions.len());
            lemma_action_paths_concat(
                new_actions_changes(o.actions, x.actions, base, x.actions.len()),
                removed_actions(o.actions, x.actions, base, o.actions.len()),
                base,
                act_names(o.actions, x.actions),
            );
            lemma_lift_actions(ad, i, old, new, ko, kn, true, true);
            assert(input_paths(d, i, old, new));
            assert(input_paths(t, i, old, new));
            lemma_input_paths_concat(d, t, i, old, new);
            lemma_input_paths_concat(d + t, od, i, old, new);
            lemma_input_paths_concat(d + t + od, ad, i, old, new);
        },
        None => {
            let w = seq![ChangeView::Added { path: base, value: crate::diff::input_summary(x) }];
            let d = if x.description.len() != 0 {
                seq![ChangeView::Added { path: base + ".description"@, value: x.description }]
            } else {
                Seq::<ChangeView>::empty()
            };
            let t = match x.input_type {
                Some(y) => seq![ChangeView::Added { path: base + ".type"@, value: crate::diff::input_type_text(y) }],
                None => Seq::<ChangeView>::empty(),
            };
            let oa = crate::diff::outputs_added(base, x.outputs, x.outputs.len());
            let aa = crate::diff::actions_added(base, x.actions, x.actions.len());
            assert(crate::diff::input_added(base, x) == d + t + oa + aa);
            lemma_outputs_added_grammar(base, x.outputs, x.outputs.len());
            assert(Set::<Seq<char>>::empty().union(output_names(x.outputs).to_set()) =~= output_names(x.outputs).to_set());
            lemma_lift_outputs(oa, i, old, new, 0, kn, false, true);
            lemma_actions_added_grammar(base, x.actions, x.actions.len());
            assert(Set::<Seq<char>>::empty().union(action_types(x.actions).to_set()) =~= action_types(x.actions).to_set());
            lemma_lift_actions(aa, i, old, new, 0, kn, false, true);
            assert(input_paths(w, i, old, new));
            assert(input_paths(d, i, old, new));
            assert(input_paths(t, i, old, new));
            lemma_input_paths_concat(d, t, i, old, new);
            lemma_input_paths_concat(d + t, oa, i, old, new);
            lemma_input_paths_concat(d + t + oa, aa, i, old, new);
            lemma_input_paths_concat(w, d + t + oa + aa, i, old, new);
        },
    }
}

/// Every path of `cs` follows the grammar.
pub open spec fn grammar_paths(cs: Seq<ChangeView>, old: ContractView, new: ContractView) -> bool {
    forall|k: int| 0 <= k < cs.len() ==> grammar_path(#[trigger] cs[k].path(), old, new)
}

proof fn lemma_grammar_concat(a: Seq<ChangeView>, b: Seq<ChangeView>, old: ContractView, new: ContractView)
    requires
        grammar_paths(a, old, new),
        grammar_paths(b, old, new),
    ensures
        grammar_paths(a + b, old, new),
{
    let c = a + b;
    assert forall|k: int| 0 <= k < c.len() implies grammar_path(#[trigger] c[k].path(), old, new) by {
        if k < a.len() {
            assert(c[k] == a[k]);
        } else {
            assert(c[k] == b[k - a.len()]);
        }
    }
}

proof fn lemma_new_inputs_grammar(old: ContractView, new: ContractView, n: nat)
    requires
        n <= new.inputs.len(),
    ensures
        grammar_paths(new_inputs_changes(old.inputs, new.inputs, n), old, new),
    decreases n,
{
    if n > 0 {
        lemma_new_inputs_grammar(old, new, (n - 1) as nat);
        let i = new.inputs[n - 1].name;
        lemma_new_input_grammar(old, new, n - 1);
        assert(input_names(new.inputs)[n - 1] == i);
        let g = new_input_changes(old.inputs, new.inputs[n - 1]);
        assert forall|k: int| 0 <= k < g.len() implies grammar_path(#[trigger] g[k].path(), old, new) by {
            assert(input_field_path(g[k].path(), i, old, new));
        }
        lemma_grammar_concat(new_inputs_changes(old.inputs, new.inputs, (n - 1) as nat), g, old, new);
    }
}

proof fn lemma_removed_inputs_grammar(old: ContractView, new: ContractView, m: nat)
    requires
        m <= old.inputs.len(),
    ensures
        grammar_paths(removed_inputs(old.inputs, new.inputs, m), old, new),
    decreases m,
{
    if m > 0 {
        lemma_removed_inputs_grammar(old, new, (m - 1) as nat);
        let prev = removed_inputs(old.inputs, new.inputs, (m - 1) as nat);
        let cur = removed_inputs(old.inputs, new.inputs, m);
        let i = old.inputs[m - 1].name;
        assert(input_names(old.inputs)[m - 1] == i);
        assert forall|k: int| 0 <= k < cur.len() implies grammar_path(#[trigger] cur[k].path(), old, new) by {
            if k < prev.len() {
                assert(cur[k] == prev[k]);
            } else {
                assert(input_field_path(cur[k].path(), i, old, new));
            }
        }
    }
}

/// Every path of the diff follows the path grammar: `project.name`,
/// `project.description`, or `inputs[I]` optionally followed by
/// `.description`, `.type`, `.outputs[O]` (optionally then `.description`,
/// `.type` or `.location`) or `.actions[T]` (optionally then
/// `.instructions`), where I is the name of an input of either contract
/// and O, T the name of an output and the type of an action of an input
/// named I in either contract.
pub proof fn lemma_paths_follow_grammar(old: ContractView, new: ContractView)
    ensures
        grammar_paths(contract_diff(old, new), old, new),
{
    lemma_new_inputs_grammar(old, new, new.inputs.len());
    lemma_removed_inputs_grammar(old, new, old.inputs.len());
    lemma_grammar_concat(
        new_inputs_changes(old.inputs, new.inputs, new.inputs.len()),
        removed_inputs(old.inputs, new.inputs, old.inputs.len()),
        old,
        new,
    );
    let pc = project_changes(old.project, new.project);
    assert(grammar_paths(pc, old, new));
    lemma_grammar_concat(pc, inputs_diff(old.inputs, new.inputs), old, new);
}

// ---------------------------------------------------------------------
// What the texts of a change say
// ---------------------------------------------------------------------

/// The text of an input type names that type: a change of an input's type
/// shows `Some(<variant>)` (`Some(File)`, `Some(Directory)`, `Some(Text)`,
/// `Some(Url)`, `Some(Other)`) or `None`; an added input shows the variant
/// in lower case, which for a file or directory input is the text that a
/// file or directory output shows.
pub proof fn lemma_input_type_texts(t: InputType)
    ensures
        input_type_name(t) == match t {
            InputType::File => "File"@,
            InputType::Directory => "Directory"@,
            InputType::Text => "Text"@,
            InputType::Url => "Url"@,
            InputType::Other => "Other"@,
        },
        opt_input_type_text(Some(t)) == "Some("@ + input_type_name(t) + ")"@,
        opt_input_type_text(None) == "None"@,
        input_type_text(t) == crate::search::fold(input_type_name(t)),
        input_type_text(InputType::File) == output_type_text(OutputType::File),
        input_type_text(InputType::Directory) == output_type_text(OutputType::Directory),
{
    reveal_strlit("File");
    reveal_strlit("Directory");
    reveal_strlit("Text");
    reveal_strlit("Url");
    reveal_strlit("Other");
    reveal_strlit("file");
    reveal_strlit("directory");
    reveal_strlit("text");
    reveal_strlit("url");
    reveal_strlit("other");
    let n = input_type_name(t);
    let f = crate::search::fold(n);
    assert forall|i: int| 0 <= i < n.len() implies f[i] == input_type_text(t)[i] by {
        let c = n[i];
        if 'A' <= c && c <= 'Z' {
            assert(((c as u32) + 32) as char == input_type_text(t)[i]);
        }
    }
    assert(f =~= input_type_text(t));
}

/// A new input is reported as added at `inputs[<name>]` with the text
/// "input with <its number of outputs> outputs and <its number of actions>
/// actions".
pub proof fn lemma_added_input_summary(old: ContractView, new: ContractView, k: int)
    requires
        0 <= k < new.inputs.len(),
        !input_names(old.inputs).contains(new.inputs[k].name),
    ensures
        contract_diff(old, new).contains(
            ChangeView::Added {
                path: crate::diff::input_path(new.inputs[k].name),
                value: "input with "@ + crate::text::decimal(new.inputs[k].outputs.len()) + " outputs and "@
                    + crate::text::decimal(new.inputs[k].actions.len()) + " actions"@,
            },
        ),
{
    let x = new.inputs[k];
    let a = ChangeView::Added {
        path: crate::diff::input_path(x.name),
        value: "input with "@ + crate::text::decimal(x.outputs.len()) + " outputs and "@
            + crate::text::decimal(x.actions.len()) + " actions"@,
    };
    input_names(old.inputs).index_of_first_ensures(x.name);
    let g = new_input_changes(old.inputs, x);
    assert(g[0] == a);
    assert(g.contains(a));
    crate::mirror::lemma_new_inputs_included(old.inputs, new.inputs, new.inputs.len(), k);
    let nd = new_inputs_changes(old.inputs, new.inputs, new.inputs.len());
    let j = choose|j: int| 0 <= j < g.len() && g[j] == a;
    assert(nd.contains(g[j]));
    let pc = project_changes(old.project, new.project);
    let rd = removed_inputs(old.inputs, new.inputs, old.inputs.len());
    crate::mirror::lemma_included_three(pc, nd, rd);
    assert(contract_diff(old, new) =~= pc + nd + rd);
    let i = choose|i: int| 0 <= i < nd.len() && nd[i] == a;
    assert(contract_diff(old, new).contains(nd[i]));
}

/// An input that the new version no longer has is reported as removed at
/// `inputs[<name>]` with the text "input with <its number of outputs>
/// outputs and <its number of actions> actions".
pub proof fn lemma_removed_input_summary(old: ContractView, new: ContractView, m: int)
    requires
        0 <= m < old.inputs.len(),
        !input_names(new.inputs).contains(old.inputs[m].name),
    ensures
        contract_diff(old, new).contains(
            ChangeView::Removed {
                path: crate::diff::input_path(old.inputs[m].name),
                old: "input with "@ + crate::text::decimal(old.inputs[m].outputs.len()) + " outputs and "@
                    + crate::text::decimal(old.inputs[m].actions.len()) + " actions"@,
            },
        ),
{
    let x = old.inputs[m];
    let r = ChangeView::Removed {
        path: crate::diff::input_path(x.name),
        old: "input with "@ + crate::text::decimal(x.outputs.len()) + " outputs and "@
            + crate::text::decimal(x.actions.len()) + " actions"@,
    };
    crate::selective::lemma_removed_inputs_has(old.inputs, new.inputs, old.inputs.len(), m);
    assert(r == ChangeView::Removed { path: crate::diff::input_path(x.name), old: crate::diff::input_summary(x) });
    let pc = project_changes(old.project, new.project);
    let nd = new_inputs_changes(old.inputs, new.inputs, new.inputs.len());
    let rd = removed_inputs(old.inputs, new.inputs, old.inputs.len());
    crate::mirror::lemma_included_three(pc, nd, rd);
    assert(contract_diff(old, new) =~= pc + nd + rd);
    let i = choose|i: int| 0 <= i < rd.len() && rd[i] == r;
    assert(contract_diff(old, new).contains(rd[i]));
}

} // verus!
