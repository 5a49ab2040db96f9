//! Selective acceptance: the contract that a save writes has, against the
//! registry's contract, exactly the changes of the draft that were taken.
//! A change is taken when its path is accepted and, if it belongs to an
//! input, output or action that only the draft has, the addition of that
//! item is accepted too (an item comes in whole or not at all).

use vstd::prelude::*;
use crate::diff::{
    ChangeView, contract_diff, distinct_keys, input_added, input_changes, input_names, input_path,
    input_summary, inputs_diff, keys_distinct, new_input_changes, new_inputs_changes,
    opt_input_type_text, removed_inputs, action_added, action_changes, action_path, action_types, actions_diff,
    new_action_changes, new_actions_changes, new_output_changes, new_outputs_changes, opt_text,
    output_added, output_changes, output_names, output_path, output_type_text, outputs_diff,
    removed_actions, removed_outputs,
};
use crate::mirror::{included, lemma_included_parts, lemma_included_three};
use crate::model::{ActionView, ContractView, InputView, OutputView, is_valid};
use crate::paths::{all_under, has_prefix, input_keys_good, inputs_keys_good};
use crate::workflow::{
    SaveView, change_paths, save_answer, accepts, kept_old_inputs, merged, merged_input, merged_inputs, merged_new_inputs, is_prefix, kept_old_actions, kept_old_outputs, merged_action, merged_actions,
    merged_new_actions, merged_new_outputs, merged_output, merged_outputs,
};

verus! {

// ---------------------------------------------------------------------
// Taken changes, and how they sit in the diff
// ---------------------------------------------------------------------

/// Every change of `t` is a change of `d` whose path is accepted.
pub open spec fn within_accepted(t: Seq<ChangeView>, d: Seq<ChangeView>, accept: Seq<Seq<char>>, yes: bool) -> bool {
    forall|i: int| 0 <= i < t.len() ==> d.contains(#[trigger] t[i]) && accepts(accept, yes, t[i].path())
}

/// `d` holds the addition of an item, at a prefix of `p`, whose path is not
/// accepted.
pub open spec fn blocked(d: Seq<ChangeView>, p: Seq<char>, accept: Seq<Seq<char>>, yes: bool) -> bool {
    exists|a: ChangeView|
        #![trigger d.contains(a)]
        d.contains(a) && a is Added && !accepts(accept, yes, a.path()) && is_prefix(a.path(), p)
}

/// Every change of `d` whose path is accepted is in `t`, unless it lies
/// under an added item whose own path is not accepted.
pub open spec fn covers_accepted(d: Seq<ChangeView>, t: Seq<ChangeView>, accept: Seq<Seq<char>>, yes: bool) -> bool {
    forall|i: int|
        0 <= i < d.len() && accepts(accept, yes, (#[trigger] d[i]).path()) ==> t.contains(d[i])
            || blocked(d, d[i].path(), accept, yes)
}

/// `t` is what a choice of accepted paths takes of `d`.
pub open spec fn taken_from(t: Seq<ChangeView>, d: Seq<ChangeView>, accept: Seq<Seq<char>>, yes: bool) -> bool {
    within_accepted(t, d, accept, yes) && covers_accepted(d, t, accept, yes)
}

proof fn lemma_contains_widen(x: Seq<ChangeView>, y: Seq<ChangeView>, c: ChangeView)
    requires
        x.contains(c),
        included(x, y),
    ensures
        y.contains(c),
{
    let i = choose|i: int| 0 <= i < x.len() && x[i] == c;
    assert(y.contains(x[i]));
}

proof fn lemma_taken_concat(
    t1: Seq<ChangeView>,
    d1: Seq<ChangeView>,
    t2: Seq<ChangeView>,
    d2: Seq<ChangeView>,
    accept: Seq<Seq<char>>,
    yes: bool,
)
    requires
        taken_from(t1, d1, accept, yes),
        taken_from(t2, d2, accept, yes),
    ensures
        taken_from(t1 + t2, d1 + d2, accept, yes),
{
    let t = t1 + t2;
    let d = d1 + d2;
    lemma_included_parts(t1, t2);
    lemma_included_parts(d1, d2);
    assert forall|i: int| 0 <= i < t.len() implies d.contains(#[trigger] t[i]) && accepts(accept, yes, t[i].path()) by {
        if i < t1.len() {
            assert(t[i] == t1[i]);
            lemma_contains_widen(d1, d, t1[i]);
        } else {
            assert(t[i] == t2[i - t1.len()]);
            lemma_contains_widen(d2, d, t2[i - t1.len()]);
        }
    }
    assert forall|i: int| 0 <= i < d.len() && accepts(accept, yes, (#[trigger] d[i]).path()) implies t.contains(d[i])
        || blocked(d, d[i].path(), accept, yes) by {
        let (dd, tt, k) = if i < d1.len() { (d1, t1, i) } else { (d2, t2, i - d1.len()) };
        assert(d[i] == dd[k]);
        if tt.contains(dd[k]) {
            lemma_contains_widen(tt, t, dd[k]);
        } else {
            let a = choose|a: ChangeView|
                #![trigger dd.contains(a)]
                dd.contains(a) && a is Added && !accepts(accept, yes, a.path()) && is_prefix(a.path(), dd[k].path());
            lemma_contains_widen(dd, d, a);
        }
    }
}

proof fn lemma_taken_three(
    t1: Seq<ChangeView>, d1: Seq<ChangeView>,
    t2: Seq<ChangeView>, d2: Seq<ChangeView>,
    t3: Seq<ChangeView>, d3: Seq<ChangeView>,
    accept: Seq<Seq<char>>, yes: bool,
)
    requires
        taken_from(t1, d1, accept, yes),
        taken_from(t2, d2, accept, yes),
        taken_from(t3, d3, accept, yes),
    ensures
        taken_from(t1 + t2 + t3, d1 + d2 + d3, accept, yes),
{
    lemma_taken_concat(t1, d1, t2, d2, accept, yes);
    lemma_taken_concat(t1 + t2, d1 + d2, t3, d3, accept, yes);
}

/// A field that changes is taken exactly when its path is accepted.
proof fn lemma_taken_field(m: ChangeView, differ: bool, accept: Seq<Seq<char>>, yes: bool)
    ensures
        taken_from(
            if differ && accepts(accept, yes, m.path()) { seq![m] } else { seq![] },
            if differ { seq![m] } else { seq![] },
            accept,
            yes,
        ),
{
    if differ {
        let d = seq![m];
        assert(d[0] == m);
        assert(d.contains(m));
    }
}

/// Accepting a path accepts every path that it starts.
pub proof fn lemma_accepts_extend(accept: Seq<Seq<char>>, yes: bool, q: Seq<char>, p: Seq<char>)
    requires
        accepts(accept, yes, q),
        has_prefix(p, q),
    ensures
        accepts(accept, yes, p),
{
    if !yes {
        let i = choose|i: int| 0 <= i < accept.len() && is_prefix(#[trigger] accept[i], q);
        let a = accept[i];
        assert(p.subrange(0, a.len() as int) =~= p.subrange(0, q.len() as int).subrange(0, a.len() as int));
        assert(is_prefix(accept[i], p));
    }
}

/// The changes of a new item: all of them when its own path is accepted,
/// none otherwise.
proof fn lemma_taken_item(d: Seq<ChangeView>, q: Seq<char>, accept: Seq<Seq<char>>, yes: bool)
    requires
        d.len() > 0,
        d[0] is Added,
        d[0].path() == q,
        all_under(d, q),
    ensures
        taken_from(if accepts(accept, yes, q) { d } else { seq![] }, d, accept, yes),
{
    if accepts(accept, yes, q) {
        assert forall|i: int| 0 <= i < d.len() implies d.contains(#[trigger] d[i]) && accepts(accept, yes, d[i].path()) by {
            lemma_accepts_extend(accept, yes, q, d[i].path());
        }
    } else {
        assert(d.contains(d[0]));
        assert forall|i: int| 0 <= i < d.len() && accepts(accept, yes, (#[trigger] d[i]).path()) implies blocked(
            d,
            d[i].path(),
            accept,
            yes,
        ) by {
            assert(has_prefix(d[i].path(), q));
        }
    }
}

// ---------------------------------------------------------------------
// Outputs
// ---------------------------------------------------------------------

/// The taken changes of an output that both versions have: each field
/// whose value differs and whose path is accepted.
pub open spec fn taken_output_changes(
    old: OutputView,
    new: OutputView,
    base: Seq<char>,
    accept: Seq<Seq<char>>,
    yes: bool,
) -> Seq<ChangeView> {
    let path = output_path(base, new.name);
    (if old.description != new.description && accepts(accept, yes, path + ".description"@) {
        seq![
            ChangeView::Modified {
                path: path + ".description"@,
                old: opt_text(old.description),
                new: opt_text(new.description),
            },
        ]
    } else {
        seq![]
    }) + (if old.output_type != new.output_type && accepts(accept, yes, path + ".type"@) {
        seq![
            ChangeView::Modified {
                path: path + ".type"@,
                old: output_type_text(old.output_type),
                new: output_type_text(new.output_type),
            },
        ]
    } else {
        seq![]
    }) + (if old.location != new.location && accepts(accept, yes, path + ".location"@) {
        seq![ChangeView::Modified { path: path + ".location"@, old: old.location, new: new.location }]
    } else {
        seq![]
    })
}

/// The taken changes of one output of the new version: a shared one field
/// by field, a new one whole when its path is accepted.
pub open spec fn taken_new_output_changes(
    old: Seq<OutputView>,
    new: OutputView,
    base: Seq<char>,
    accept: Seq<Seq<char>>,
    yes: bool,
) -> Seq<ChangeView> {
    match output_names(old).index_of_first(new.name) {
        Some(j) => taken_output_changes(old[j], new, base, accept, yes),
        None => if accepts(accept, yes, output_path(base, new.name)) {
            output_added(output_path(base, new.name), new)
        } else {
            seq![]
        },
    }
}

pub open spec fn taken_new_outputs(
    old: Seq<OutputView>,
    new: Seq<OutputView>,
    base: Seq<char>,
    accept: Seq<Seq<char>>,
    yes: bool,
    n: nat,
) -> Seq<ChangeView>
    decreases n,
{
    if n == 0 {
        seq![]
    } else {
        taken_new_outputs(old, new, base, accept, yes, (n - 1) as nat) + taken_new_output_changes(
            old,
            new[n - 1],
            base,
            accept,
            yes,
        )
    }
}

/// The taken removals among the first `n` outputs of the old version.
pub open spec fn taken_removed_outputs(
    old: Seq<OutputView>,
    new: Seq<OutputView>,
    base: Seq<char>,
    accept: Seq<Seq<char>>,
    yes: bool,
    n: nat,
) -> Seq<ChangeView>
    decreases n,
{
    if n == 0 {
        seq![]
    } else {
        taken_removed_outputs(old, new, base, accept, yes, (n - 1) as nat) + (if !output_names(
            new,
        ).contains(old[n - 1].name) && accepts(accept, yes, output_path(base, old[n - 1].name)) {
            seq![
                ChangeView::Removed {
                    path: output_path(base, old[n - 1].name),
                    old: crate::diff::output_summary(old[n - 1]),
                },
            ]
        } else {
            seq![]
        })
    }
}

pub open spec fn taken_outputs_diff(
    old: Seq<OutputView>,
    new: Seq<OutputView>,
    base: Seq<char>,
    accept: Seq<Seq<char>>,
    yes: bool,
) -> Seq<ChangeView> {
    taken_new_outputs(old, new, base, accept, yes, new.len()) + taken_removed_outputs(
        old,
        new,
        base,
        accept,
        yes,
        old.len(),
    )
}

proof fn lemma_output_taken_from(old: OutputView, new: OutputView, base: Seq<char>, accept: Seq<Seq<char>>, yes: bool)
    ensures
        taken_from(taken_output_changes(old, new, base, accept, yes), output_changes(old, new, base), accept, yes),
{
    let path = output_path(base, new.name);
    let md = ChangeView::Modified { path: path + ".description"@, old: opt_text(old.description), new: opt_text(new.description) };
    let mt = ChangeView::Modified { path: path + ".type"@, old: output_type_text(old.output_type), new: output_type_text(new.output_type) };
    let ml = ChangeView::Modified { path: path + ".location"@, old: old.location, new: new.location };
    lemma_taken_field(md, old.description != new.description, accept, yes);
    lemma_taken_field(mt, old.output_type != new.output_type, accept, yes);
    lemma_taken_field(ml, old.location != new.location, accept, yes);
    lemma_taken_three(
        if old.description != new.description && accepts(accept, yes, md.path()) { seq![md] } else { seq![] },
        if old.description != new.description { seq![md] } else { seq![] },
        if old.output_type != new.output_type && accepts(accept, yes, mt.path()) { seq![mt] } else { seq![] },
        if old.output_type != new.output_type { seq![mt] } else { seq![] },
        if old.location != new.location && accepts(accept, yes, ml.path()) { seq![ml] } else { seq![] },
        if old.location != new.location { seq![ml] } else { seq![] },
        accept,
        yes,
    );
    assert(taken_output_changes(old, new, base, accept, yes) =~= (if old.description != new.description && accepts(accept, yes, md.path()) { seq![md] } else { seq![] })
        + (if old.output_type != new.output_type && accepts(accept, yes, mt.path()) { seq![mt] } else { seq![] })
        + (if old.location != new.location && accepts(accept, yes, ml.path()) { seq![ml] } else { seq![] }));
    assert(output_changes(old, new, base) =~= (if old.description != new.description { seq![md] } else { seq![] })
        + (if old.output_type != new.output_type { seq![mt] } else { seq![] })
        + (if old.location != new.location { seq![ml] } else { seq![] }));
}

proof fn lemma_new_outputs_taken_from(old: Seq<OutputView>, new: Seq<OutputView>, base: Seq<char>, accept: Seq<Seq<char>>, yes: bool, n: nat)
    requires
        n <= new.len(),
    ensures
        taken_from(
            taken_new_outputs(old, new, base, accept, yes, n),
            new_outputs_changes(old, new, base, n),
            accept,
            yes,
        ),
    decreases n,
{
    if n > 0 {
        lemma_new_outputs_taken_from(old, new, base, accept, yes, (n - 1) as nat);
        let o = new[n - 1];
        match output_names(old).index_of_first(o.name) {
            Some(j) => {
                lemma_output_taken_from(old[j], o, base, accept, yes);
            },
            None => {
                let q = output_path(base, o.name);
                crate::paths::lemma_output_added_paths(q, o);
                lemma_taken_item(output_added(q, o), q, accept, yes);
            },
        }
        lemma_taken_concat(
            taken_new_outputs(old, new, base, accept, yes, (n - 1) as nat),
            new_outputs_changes(old, new, base, (n - 1) as nat),
            taken_new_output_changes(old, o, base, accept, yes),
            new_output_changes(old, o, base),
            accept,
            yes,
        );
    }
}

proof fn lemma_removed_outputs_taken_from(old: Seq<OutputView>, new: Seq<OutputView>, base: Seq<char>, accept: Seq<Seq<char>>, yes: bool, n: nat)
    requires
        n <= old.len(),
    ensures
        taken_from(
            taken_removed_outputs(old, new, base, accept, yes, n),
            removed_outputs(old, new, base, n),
            accept,
            yes,
        ),
    decreases n,
{
    if n > 0 {
        lemma_removed_outputs_taken_from(old, new, base, accept, yes, (n - 1) as nat);
        let m = ChangeView::Removed {
            path: output_path(base, old[n - 1].name),
            old: crate::diff::output_summary(old[n - 1]),
        };
        lemma_taken_field(m, !output_names(new).contains(old[n - 1].name), accept, yes);
        lemma_taken_concat(
            taken_removed_outputs(old, new, base, accept, yes, (n - 1) as nat),
            removed_outputs(old, new, base, (n - 1) as nat),
            if !output_names(new).contains(old[n - 1].name) && accepts(accept, yes, m.path()) { seq![m] } else { seq![] },
            if !output_names(new).contains(old[n - 1].name) { seq![m] } else { seq![] },
            accept,
            yes,
        );
    }
}

pub(crate) proof fn lemma_outputs_taken_from(old: Seq<OutputView>, new: Seq<OutputView>, base: Seq<char>, accept: Seq<Seq<char>>, yes: bool)
    ensures
        taken_from(taken_outputs_diff(old, new, base, accept, yes), outputs_diff(old, new, base), accept, yes),
{
    lemma_new_outputs_taken_from(old, new, base, accept, yes, new.len());
    lemma_removed_outputs_taken_from(old, new, base, accept, yes, old.len());
    lemma_taken_concat(
        taken_new_outputs(old, new, base, accept, yes, new.len()),
        new_outputs_changes(old, new, base, new.len()),
        taken_removed_outputs(old, new, base, accept, yes, old.len()),
        removed_outputs(old, new, base, old.len()),
        accept,
        yes,
    );
}

// ---------------------------------------------------------------------
// The diff of merged outputs
// ---------------------------------------------------------------------

proof fn lemma_new_outputs_prefix(old: Seq<OutputView>, s: Seq<OutputView>, t: Seq<OutputView>, base: Seq<char>, n: nat)
    requires
        n <= s.len(),
        n <= t.len(),
        forall|k: int| 0 <= k < n ==> s[k] == t[k],
    ensures
        new_outputs_changes(old, s, base, n) == new_outputs_changes(old, t, base, n),
    decreases n,
{
    if n > 0 {
        lemma_new_outputs_prefix(old, s, t, base, (n - 1) as nat);
        assert(s[n - 1] == t[n - 1]);
    }
}

proof fn lemma_new_outputs_split(old: Seq<OutputView>, a: Seq<OutputView>, b: Seq<OutputView>, base: Seq<char>, n: nat)
    requires
        n <= b.len(),
    ensures
        new_outputs_changes(old, a + b, base, a.len() + n) == new_outputs_changes(old, a, base, a.len())
            + new_outputs_changes(old, b, base, n),
    decreases n,
{
    if n == 0 {
        assert forall|k: int| 0 <= k < a.len() implies (a + b)[k] == a[k] by {}
        lemma_new_outputs_prefix(old, a + b, a, base, a.len());
        assert(new_outputs_changes(old, b, base, 0) =~= Seq::<ChangeView>::empty());
        assert(new_outputs_changes(old, a, base, a.len()) + Seq::<ChangeView>::empty() =~= new_outputs_changes(old, a, base, a.len()));
    } else {
        lemma_new_outputs_split(old, a, b, base, (n - 1) as nat);
        assert((a + b)[a.len() + n - 1] == b[n - 1]);
        assert(new_outputs_changes(old, a + b, base, a.len() + n) == new_outputs_changes(old, a + b, base, (a.len() + n - 1) as nat)
            + new_output_changes(old, b[n - 1], base));
        assert(new_outputs_changes(old, a, base, a.len()) + new_outputs_changes(old, b, base, n) =~= new_outputs_changes(old, a, base, a.len())
            + new_outputs_changes(old, b, base, (n - 1) as nat) + new_output_changes(old, b[n - 1], base));
    }
}

proof fn lemma_merged_output_changes(x: OutputView, n: OutputView, base: Seq<char>, accept: Seq<Seq<char>>, yes: bool)
    ensures
        output_changes(x, merged_output(x, n, base, accept, yes), base) == taken_output_changes(x, n, base, accept, yes),
{
    assert(output_changes(x, merged_output(x, n, base, accept, yes), base) =~= taken_output_changes(x, n, base, accept, yes));
}

proof fn lemma_merged_new_outputs(old: Seq<OutputView>, new: Seq<OutputView>, base: Seq<char>, accept: Seq<Seq<char>>, yes: bool, k: nat)
    requires
        k <= new.len(),
    ensures
        new_outputs_changes(
            old,
            merged_new_outputs(old, new, base, accept, yes, k),
            base,
            merged_new_outputs(old, new, base, accept, yes, k).len(),
        ) == taken_new_outputs(old, new, base, accept, yes, k),
        forall|i: int| 0 <= i < merged_new_outputs(old, new, base, accept, yes, k).len()
            ==> output_names(new).contains(#[trigger] merged_new_outputs(old, new, base, accept, yes, k)[i].name),
    decreases k,
{
    if k > 0 {
        lemma_merged_new_outputs(old, new, base, accept, yes, (k - 1) as nat);
        let prev = merged_new_outputs(old, new, base, accept, yes, (k - 1) as nat);
        let cur = merged_new_outputs(old, new, base, accept, yes, k);
        let o = new[k - 1];
        assert(output_names(new)[k - 1] == o.name);
        let piece: Seq<OutputView> = match output_names(old).index_of_first(o.name) {
            Some(j) => seq![merged_output(old[j], o, base, accept, yes)],
            None => if accepts(accept, yes, output_path(base, o.name)) { seq![o] } else { seq![] },
        };
        assert(cur == prev + piece);
        lemma_new_outputs_split(old, prev, piece, base, piece.len());
        assert(new_outputs_changes(old, piece, base, 0) =~= Seq::<ChangeView>::empty());
        match output_names(old).index_of_first(o.name) {
            Some(j) => {
                lemma_merged_output_changes(old[j], o, base, accept, yes);
                assert(new_outputs_changes(old, piece, base, 1) =~= new_output_changes(old, piece[0], base));
            },
            None => {
                if accepts(accept, yes, output_path(base, o.name)) {
                    assert(new_outputs_changes(old, piece, base, 1) =~= new_output_changes(old, o, base));
                } else {
                    assert(new_outputs_changes(old, piece, base, 0) =~= Seq::<ChangeView>::empty());
                }
            },
        }
        assert(new_outputs_changes(old, cur, base, cur.len()) =~= taken_new_outputs(old, new, base, accept, yes, k));
        assert forall|i: int| 0 <= i < cur.len() implies output_names(new).contains(#[trigger] cur[i].name) by {
            if i < prev.len() {
                assert(cur[i] == prev[i]);
            } else {
                assert(cur[i] == piece[i - prev.len()]);
            }
        }
    }
}

/// Every kept old output is an old output, gone from the new version, whose
/// removal is not accepted.
proof fn lemma_kept_outputs(old: Seq<OutputView>, new: Seq<OutputView>, base: Seq<char>, accept: Seq<Seq<char>>, yes: bool, n: nat)
    requires
        n <= old.len(),
    ensures
        forall|i: int| 0 <= i < kept_old_outputs(old, new, base, accept, yes, n).len() ==> exists|m: int|
            0 <= m < n && old[m] == #[trigger] kept_old_outputs(old, new, base, accept, yes, n)[i]
                && !accepts(accept, yes, output_path(base, old[m].name)),
    decreases n,
{
    if n > 0 {
        lemma_kept_outputs(old, new, base, accept, yes, (n - 1) as nat);
        let prev = kept_old_outputs(old, new, base, accept, yes, (n - 1) as nat);
        let cur = kept_old_outputs(old, new, base, accept, yes, n);
        assert forall|i: int| 0 <= i < cur.len() implies exists|m: int|
            0 <= m < n && old[m] == #[trigger] cur[i] && !accepts(accept, yes, output_path(base, old[m].name)) by {
            if i < prev.len() {
                assert(cur[i] == prev[i]);
                let m = choose|m: int| 0 <= m < n - 1 && old[m] == prev[i] && !accepts(accept, yes, output_path(base, old[m].name));
            } else {
                assert(cur[i] == old[n - 1]);
            }
        }
    }
}

/// Old items have no changes against the old list (its names distinct).
proof fn lemma_old_outputs_unchanged(old: Seq<OutputView>, l: Seq<OutputView>, base: Seq<char>, n: nat)
    requires
        n <= l.len(),
        crate::diff::distinct_keys(output_names(old)),
        forall|k: int| 0 <= k < l.len() ==> old.contains(#[trigger] l[k]),
    ensures
        new_outputs_changes(old, l, base, n) == Seq::<ChangeView>::empty(),
    decreases n,
{
    if n > 0 {
        lemma_old_outputs_unchanged(old, l, base, (n - 1) as nat);
        let m = choose|m: int| 0 <= m < old.len() && old[m] == l[n - 1];
        assert(output_names(old)[m] == old[m].name);
        crate::diff::lemma_first_of_distinct(output_names(old), m);
        assert(output_changes(old[m], old[m], base) =~= Seq::<ChangeView>::empty());
        assert(new_outputs_changes(old, l, base, n) =~= Seq::<ChangeView>::empty());
    }
}

proof fn lemma_merged_new_outputs_cover(old: Seq<OutputView>, new: Seq<OutputView>, base: Seq<char>, accept: Seq<Seq<char>>, yes: bool, k: nat, p: int)
    requires
        k <= new.len(),
        0 <= p < k,
        output_names(old).contains(new[p].name),
    ensures
        output_names(merged_new_outputs(old, new, base, accept, yes, k)).contains(new[p].name),
    decreases k,
{
    let prev = merged_new_outputs(old, new, base, accept, yes, (k - 1) as nat);
    let cur = merged_new_outputs(old, new, base, accept, yes, k);
    if p < k - 1 {
        lemma_merged_new_outputs_cover(old, new, base, accept, yes, (k - 1) as nat, p);
        let i = choose|i: int| 0 <= i < output_names(prev).len() && output_names(prev)[i] == new[p].name;
        assert(cur.subrange(0, prev.len() as int) =~= prev);
        assert(cur[i] == prev[i]);
        assert(output_names(cur)[i] == new[p].name);
    } else {
        output_names(old).index_of_first_ensures(new[p].name);
        let j = output_names(old).index_of_first(new[p].name)->0;
        assert(cur == prev.push(merged_output(old[j], new[p], base, accept, yes)));
        assert(output_names(cur)[prev.len() as int] == new[p].name);
    }
}

proof fn lemma_kept_outputs_cover(old: Seq<OutputView>, new: Seq<OutputView>, base: Seq<char>, accept: Seq<Seq<char>>, yes: bool, n: nat, m: int)
    requires
        n <= old.len(),
        0 <= m < n,
        !output_names(new).contains(old[m].name),
        !accepts(accept, yes, output_path(base, old[m].name)),
    ensures
        output_names(kept_old_outputs(old, new, base, accept, yes, n)).contains(old[m].name),
    decreases n,
{
    let prev = kept_old_outputs(old, new, base, accept, yes, (n - 1) as nat);
    let cur = kept_old_outputs(old, new, base, accept, yes, n);
    if m < n - 1 {
        lemma_kept_outputs_cover(old, new, base, accept, yes, (n - 1) as nat, m);
        let i = choose|i: int| 0 <= i < output_names(prev).len() && output_names(prev)[i] == old[m].name;
        assert(cur.subrange(0, prev.len() as int) =~= prev);
        assert(cur[i] == prev[i]);
        assert(output_names(cur)[i] == old[m].name);
    } else {
        assert(cur == prev.push(old[m]));
        assert(output_names(cur)[prev.len() as int] == old[m].name);
    }
}

proof fn lemma_removed_of_merged_outputs(old: Seq<OutputView>, new: Seq<OutputView>, l: Seq<OutputView>, base: Seq<char>, accept: Seq<Seq<char>>, yes: bool, n: nat)
    requires
        n <= old.len(),
        forall|m: int| 0 <= m < old.len() ==> (output_names(l).contains(#[trigger] old[m].name) <==> (
            output_names(new).contains(old[m].name) || !accepts(accept, yes, output_path(base, old[m].name)))),
    ensures
        removed_outputs(old, l, base, n) == taken_removed_outputs(old, new, base, accept, yes, n),
    decreases n,
{
    if n > 0 {
        lemma_removed_of_merged_outputs(old, new, l, base, accept, yes, (n - 1) as nat);
        assert(output_names(l).contains(old[n - 1].name) <==> (output_names(new).contains(old[n - 1].name)
            || !accepts(accept, yes, output_path(base, old[n - 1].name))));
    }
}

/// The diff from the old outputs to the merged ones is what the accepted
/// paths take of the diff from the old outputs to the new ones.
pub(crate) proof fn lemma_merged_outputs_diff(old: Seq<OutputView>, new: Seq<OutputView>, base: Seq<char>, accept: Seq<Seq<char>>, yes: bool)
    requires
        crate::diff::distinct_keys(output_names(old)),
    ensures
        outputs_diff(old, merged_outputs(old, new, base, accept, yes), base) == taken_outputs_diff(old, new, base, accept, yes),
{
    let a = merged_new_outputs(old, new, base, accept, yes, new.len());
    let b = kept_old_outputs(old, new, base, accept, yes, old.len());
    let l = merged_outputs(old, new, base, accept, yes);
    assert(l == a + b);
    lemma_merged_new_outputs(old, new, base, accept, yes, new.len());
    lemma_kept_outputs(old, new, base, accept, yes, old.len());
    assert forall|k: int| 0 <= k < b.len() implies old.contains(#[trigger] b[k]) by {
        let m = choose|m: int| 0 <= m < old.len() && old[m] == b[k] && !accepts(accept, yes, output_path(base, old[m].name));
    }
    lemma_old_outputs_unchanged(old, b, base, b.len());
    lemma_new_outputs_split(old, a, b, base, b.len());
    assert forall|m: int| 0 <= m < old.len() implies (output_names(l).contains(#[trigger] old[m].name) <==> (
        output_names(new).contains(old[m].name) || !accepts(accept, yes, output_path(base, old[m].name)))) by {
        if output_names(new).contains(old[m].name) {
            let p = choose|p: int| 0 <= p < output_names(new).len() && output_names(new)[p] == old[m].name;
            assert(new[p].name == old[m].name);
            assert(output_names(old)[m] == old[m].name);
            lemma_merged_new_outputs_cover(old, new, base, accept, yes, new.len(), p);
            let i = choose|i: int| 0 <= i < output_names(a).len() && output_names(a)[i] == new[p].name;
            assert(l[i] == a[i]);
            assert(output_names(l)[i] == old[m].name);
        } else if !accepts(accept, yes, output_path(base, old[m].name)) {
            lemma_kept_outputs_cover(old, new, base, accept, yes, old.len(), m);
            let i = choose|i: int| 0 <= i < output_names(b).len() && output_names(b)[i] == old[m].name;
            assert(l[a.len() + i] == b[i]);
            assert(output_names(l)[a.len() + i] == old[m].name);
        } else {
            if output_names(l).contains(old[m].name) {
                let i = choose|i: int| 0 <= i < output_names(l).len() && output_names(l)[i] == old[m].name;
                if i < a.len() {
                    assert(l[i] == a[i]);
                    assert(output_names(new).contains(a[i].name));
                } else {
                    assert(l[i] == b[i - a.len()]);
                    let mm = choose|mm: int| 0 <= mm < old.len() && old[mm] == #[trigger] b[i - a.len()]
                        && !accepts(accept, yes, output_path(base, old[mm].name));
                    assert(old[mm].name == old[m].name);
                }
            }
        }
    }
    lemma_removed_of_merged_outputs(old, new, l, base, accept, yes, old.len());
    assert(outputs_diff(old, l, base) =~= taken_outputs_diff(old, new, base, accept, yes));
}


// ---------------------------------------------------------------------
// Actions
// ---------------------------------------------------------------------

/// The taken change of an action that both versions have: its
/// instructions when they differ and their path is accepted.
pub open spec fn taken_action_changes(
    old: ActionView,
    new: ActionView,
    base: Seq<char>,
    accept: Seq<Seq<char>>,
    yes: bool,
) -> Seq<ChangeView> {
    let path = action_path(base, new.action_type) + ".instructions"@;
    if old.instructions != new.instructions && accepts(accept, yes, path) {
        seq![ChangeView::Modified { path, old: old.instructions, new: new.instructions }]
    } else {
        seq![]
    }
}

/// The taken changes of one action of the new version: a shared one by
/// its instructions, a new one whole when its path is accepted.
pub open spec fn taken_new_action_changes(
    old: Seq<ActionView>,
    new: ActionView,
    base: Seq<char>,
    accept: Seq<Seq<char>>,
    yes: bool,
) -> Seq<ChangeView> {
    match action_types(old).index_of_first(new.action_type) {
        Some(j) => taken_action_changes(old[j], new, base, accept, yes),
        None => if accepts(accept, yes, action_path(base, new.action_type)) {
            action_added(action_path(base, new.action_type), new)
        } else {
            seq![]
        },
    }
}

pub open spec fn taken_new_actions(
    old: Seq<ActionView>,
    new: Seq<ActionView>,
    base: Seq<char>,
    accept: Seq<Seq<char>>,
    yes: bool,
    n: nat,
) -> Seq<ChangeView>
    decreases n,
{
    if n == 0 {
        seq![]
    } else {
        taken_new_actions(old, new, base, accept, yes, (n - 1) as nat) + taken_new_action_changes(
            old,
            new[n - 1],
            base,
            accept,
            yes,
        )
    }
}

/// The taken removals among the first `n` actions of the old version.
pub open spec fn taken_removed_actions(
    old: Seq<ActionView>,
    new: Seq<ActionView>,
    base: Seq<char>,
    accept: Seq<Seq<char>>,
    yes: bool,
    n: nat,
) -> Seq<ChangeView>
    decreases n,
{
    if n == 0 {
        seq![]
    } else {
        taken_removed_actions(old, new, base, accept, yes, (n - 1) as nat) + (if !action_types(
            new,
        ).contains(old[n - 1].action_type) && accepts(accept, yes, action_path(base, old[n - 1].action_type)) {
            seq![
                ChangeView::Removed {
                    path: action_path(base, old[n - 1].action_type),
                    old: old[n - 1].instructions,
                },
            ]
        } else {
            seq![]
        })
    }
}

pub open spec fn taken_actions_diff(
    old: Seq<ActionView>,
    new: Seq<ActionView>,
    base: Seq<char>,
    accept: Seq<Seq<char>>,
    yes: bool,
) -> Seq<ChangeView> {
    taken_new_actions(old, new, base, accept, yes, new.len()) + taken_removed_actions(
        old,
        new,
        base,
        accept,
        yes,
        old.len(),
    )
}

proof fn lemma_action_taken_from(old: ActionView, new: ActionView, base: Seq<char>, accept: Seq<Seq<char>>, yes: bool)
    ensures
        taken_from(taken_action_changes(old, new, base, accept, yes), action_changes(old, new, base), accept, yes),
{
    let path = action_path(base, new.action_type) + ".instructions"@;
    let m = ChangeView::Modified { path, old: old.instructions, new: new.instructions };
    lemma_taken_field(m, old.instructions != new.instructions, accept, yes);
}

proof fn lemma_new_actions_taken_from(old: Seq<ActionView>, new: Seq<ActionView>, base: Seq<char>, accept: Seq<Seq<char>>, yes: bool, n: nat)
    requires
        n <= new.len(),
    ensures
        taken_from(
            taken_new_actions(old, new, base, accept, yes, n),
            new_actions_changes(old, new, base, n),
            accept,
            yes,
        ),
    decreases n,
{
    if n > 0 {
        lemma_new_actions_taken_from(old, new, base, accept, yes, (n - 1) as nat);
        let a = new[n - 1];
        match action_types(old).index_of_first(a.action_type) {
            Some(j) => {
                lemma_action_taken_from(old[j], a, base, accept, yes);
            },
            None => {
                let q = action_path(base, a.action_type);
                crate::paths::lemma_action_added_paths(q, a);
                lemma_taken_item(action_added(q, a), q, accept, yes);
            },
        }
        lemma_taken_concat(
            taken_new_actions(old, new, base, accept, yes, (n - 1) as nat),
            new_actions_changes(old, new, base, (n - 1) as nat),
            taken_new_action_changes(old, a, base, accept, yes),
            new_action_changes(old, a, base),
            accept,
            yes,
        );
    }
}

proof fn lemma_removed_actions_taken_from(old: Seq<ActionView>, new: Seq<ActionView>, base: Seq<char>, accept: Seq<Seq<char>>, yes: bool, n: nat)
    requires
        n <= old.len(),
    ensures
        taken_from(
            taken_removed_actions(old, new, base, accept, yes, n),
            removed_actions(old, new, base, n),
            accept,
            yes,
        ),
    decreases n,
{
    if n > 0 {
        lemma_removed_actions_taken_from(old, new, base, accept, yes, (n - 1) as nat);
        let m = ChangeView::Removed {
            path: action_path(base, old[n - 1].action_type),
            old: old[n - 1].instructions,
        };
        lemma_taken_field(m, !action_types(new).contains(old[n - 1].action_type), accept, yes);
        lemma_taken_concat(
            taken_removed_actions(old, new, base, accept, yes, (n - 1) as nat),
            removed_actions(old, new, base, (n - 1) as nat),
            if !action_types(new).contains(old[n - 1].action_type) && accepts(accept, yes, m.path()) { seq![m] } else { seq![] },
            if !action_types(new).contains(old[n - 1].action_type) { seq![m] } else { seq![] },
            accept,
            yes,
        );
    }
}

pub(crate) proof fn lemma_actions_taken_from(old: Seq<ActionView>, new: Seq<ActionView>, base: Seq<char>, accept: Seq<Seq<char>>, yes: bool)
    ensures
        taken_from(taken_actions_diff(old, new, base, accept, yes), actions_diff(old, new, base), accept, yes),
{
    lemma_new_actions_taken_from(old, new, base, accept, yes, new.len());
    lemma_removed_actions_taken_from(old, new, base, accept, yes, old.len());
    lemma_taken_concat(
        taken_new_actions(old, new, base, accept, yes, new.len()),
        new_actions_changes(old, new, base, new.len()),
        taken_removed_actions(old, new, base, accept, yes, old.len()),
        removed_actions(old, new, base, old.len()),
        accept,
        yes,
    );
}

// ---------------------------------------------------------------------
// The diff of merged actions
// ---------------------------------------------------------------------

proof fn lemma_new_actions_prefix(old: Seq<ActionView>, s: Seq<ActionView>, t: Seq<ActionView>, base: Seq<char>, n: nat)
    requires
        n <= s.len(),
        n <= t.len(),
        forall|k: int| 0 <= k < n ==> s[k] == t[k],
    ensures
        new_actions_changes(old, s, base, n) == new_actions_changes(old, t, base, n),
    decreases n,
{
    if n > 0 {
        lemma_new_actions_prefix(old, s, t, base, (n - 1) as nat);
        assert(s[n - 1] == t[n - 1]);
    }
}

proof fn lemma_new_actions_split(old: Seq<ActionView>, a: Seq<ActionView>, b: Seq<ActionView>, base: Seq<char>, n: nat)
    requires
        n <= b.len(),
    ensures
        new_actions_changes(old, a + b, base, a.len() + n) == new_actions_changes(old, a, base, a.len())
            + new_actions_changes(old, b, base, n),
    decreases n,
{
    if n == 0 {
        assert forall|k: int| 0 <= k < a.len() implies (a + b)[k] == a[k] by {}
        lemma_new_actions_prefix(old, a + b, a, base, a.len());
        assert(new_actions_changes(old, b, base, 0) =~= Seq::<ChangeView>::empty());
        assert(new_actions_changes(old, a, base, a.len()) + Seq::<ChangeView>::empty() =~= new_actions_changes(old, a, base, a.len()));
    } else {
        lemma_new_actions_split(old, a, b, base, (n - 1) as nat);
        assert((a + b)[a.len() + n - 1] == b[n - 1]);
        assert(new_actions_changes(old, a + b, base, a.len() + n) == new_actions_changes(old, a + b, base, (a.len() + n - 1) as nat)
            + new_action_changes(old, b[n - 1], base));
        assert(new_actions_changes(old, a, base, a.len()) + new_actions_changes(old, b, base, n) =~= new_actions_changes(old, a, base, a.len())
            + new_actions_changes(old, b, base, (n - 1) as nat) + new_action_changes(old, b[n - 1], base));
    }
}

proof fn lemma_merged_action_changes(x: ActionView, n: ActionView, base: Seq<char>, accept: Seq<Seq<char>>, yes: bool)
    ensures
        action_changes(x, merged_action(x, n, base, accept, yes), base) == taken_action_changes(x, n, base, accept, yes),
{
    assert(action_changes(x, merged_action(x, n, base, accept, yes), base) =~= taken_action_changes(x, n, base, accept, yes));
}

proof fn lemma_merged_new_actions(old: Seq<ActionView>, new: Seq<ActionView>, base: Seq<char>, accept: Seq<Seq<char>>, yes: bool, k: nat)
    requires
        k <= new.len(),
    ensures
        new_actions_changes(
            old,
            merged_new_actions(old, new, base, accept, yes, k),
            base,
            merged_new_actions(old, new, base, accept, yes, k).len(),
        ) == taken_new_actions(old, new, base, accept, yes, k),
        forall|i: int| 0 <= i < merged_new_actions(old, new, base, accept, yes, k).len()
            ==> action_types(new).contains(#[trigger] merged_new_actions(old, new, base, accept, yes, k)[i].action_type),
    decreases k,
{
    if k > 0 {
        lemma_merged_new_actions(old, new, base, accept, yes, (k - 1) as nat);
        let prev = merged_new_actions(old, new, base, accept, yes, (k - 1) as nat);
        let cur = merged_new_actions(old, new, base, accept, yes, k);
        let o = new[k - 1];
        assert(action_types(new)[k - 1] == o.action_type);
        let piece: Seq<ActionView> = match action_types(old).index_of_first(o.action_type) {
            Some(j) => seq![merged_action(old[j], o, base, accept, yes)],
            None => if accepts(accept, yes, action_path(base, o.action_type)) { seq![o] } else { seq![] },
        };
        assert(cur == prev + piece);
        lemma_new_actions_split(old, prev, piece, base, piece.len());
        assert(new_actions_changes(old, piece, base, 0) =~= Seq::<ChangeView>::empty());
        match action_types(old).index_of_first(o.action_type) {
            Some(j) => {
                lemma_merged_action_changes(old[j], o, base, accept, yes);
                assert(new_actions_changes(old, piece, base, 1) =~= new_action_changes(old, piece[0], base));
            },
            None => {
                if accepts(accept, yes, action_path(base, o.action_type)) {
                    assert(new_actions_changes(old, piece, base, 1) =~= new_action_changes(old, o, base));
                } else {
                    assert(new_actions_changes(old, piece, base, 0) =~= Seq::<ChangeView>::empty());
                }
            },
        }
        assert(new_actions_changes(old, cur, base, cur.len()) =~= taken_new_actions(old, new, base, accept, yes, k));
        assert forall|i: int| 0 <= i < cur.len() implies action_types(new).contains(#[trigger] cur[i].action_type) by {
            if i < prev.len() {
                assert(cur[i] == prev[i]);
            } else {
                assert(cur[i] == piece[i - prev.len()]);
            }
        }
    }
}

/// Every kept old action is an old action, gone from the new version, whose
/// removal is not accepted.
proof fn lemma_kept_actions(old: Seq<ActionView>, new: Seq<ActionView>, base: Seq<char>, accept: Seq<Seq<char>>, yes: bool, n: nat)
    requires
        n <= old.len(),
    ensures
        forall|i: int| 0 <= i < kept_old_actions(old, new, base, accept, yes, n).len() ==> exists|m: int|
            0 <= m < n && old[m] == #[trigger] kept_old_actions(old, new, base, accept, yes, n)[i]
                && !accepts(accept, yes, action_path(base, old[m].action_type)),
    decreases n,
{
    if n > 0 {
        lemma_kept_actions(old, new, base, accept, yes, (n - 1) as nat);
        let prev = kept_old_actions(old, new, base, accept, yes, (n - 1) as nat);
        let cur = kept_old_actions(old, new, base, accept, yes, n);
        assert forall|i: int| 0 <= i < cur.len() implies exists|m: int|
            0 <= m < n && old[m] == #[trigger] cur[i] && !accepts(accept, yes, action_path(base, old[m].action_type)) by {
            if i < prev.len() {
                assert(cur[i] == prev[i]);
                let m = choose|m: int| 0 <= m < n - 1 && old[m] == prev[i] && !accepts(accept, yes, action_path(base, old[m].action_type));
            } else {
                assert(cur[i] == old[n - 1]);
            }
        }
    }
}

/// Old items have no changes against the old list (its names distinct).
proof fn lemma_old_actions_unchanged(old: Seq<ActionView>, l: Seq<ActionView>, base: Seq<char>, n: nat)
    requires
        n <= l.len(),
        crate::diff::distinct_keys(action_types(old)),
        forall|k: int| 0 <= k < l.len() ==> old.contains(#[trigger] l[k]),
    ensures
        new_actions_changes(old, l, base, n) == Seq::<ChangeView>::empty(),
    decreases n,
{
    if n > 0 {
        lemma_old_actions_unchanged(old, l, base, (n - 1) as nat);
        let m = choose|m: int| 0 <= m < old.len() && old[m] == l[n - 1];
        assert(action_types(old)[m] == old[m].action_type);
        crate::diff::lemma_first_of_distinct(action_types(old), m);
        assert(action_changes(old[m], old[m], base) =~= Seq::<ChangeView>::empty());
        assert(new_actions_changes(old, l, base, n) =~= Seq::<ChangeView>::empty());
    }
}

proof fn lemma_merged_new_actions_cover(old: Seq<ActionView>, new: Seq<ActionView>, base: Seq<char>, accept: Seq<Seq<char>>, yes: bool, k: nat, p: int)
    requires
        k <= new.len(),
        0 <= p < k,
        action_types(old).contains(new[p].action_type),
    ensures
        action_types(merged_new_actions(old, new, base, accept, yes, k)).contains(new[p].action_type),
    decreases k,
{
    let prev = merged_new_actions(old, new, base, accept, yes, (k - 1) as nat);
    let cur = merged_new_actions(old, new, base, accept, yes, k);
    if p < k - 1 {
        lemma_merged_new_actions_cover(old, new, base, accept, yes, (k - 1) as nat, p);
        let i = choose|i: int| 0 <= i < action_types(prev).len() && action_types(prev)[i] == new[p].action_type;
        assert(cur.subrange(0, prev.len() as int) =~= prev);
        assert(cur[i] == prev[i]);
        assert(action_types(cur)[i] == new[p].action_type);
    } else {
        action_types(old).index_of_first_ensures(new[p].action_type);
        let j = action_types(old).index_of_first(new[p].action_type)->0;
        assert(cur == prev.push(merged_action(old[j], new[p], base, accept, yes)));
        assert(action_types(cur)[prev.len() as int] == new[p].action_type);
    }
}

proof fn lemma_kept_actions_cover(old: Seq<ActionView>, new: Seq<ActionView>, base: Seq<char>, accept: Seq<Seq<char>>, yes: bool, n: nat, m: int)
    requires
        n <= old.len(),
        0 <= m < n,
        !action_types(new).contains(old[m].action_type),
        !accepts(accept, yes, action_path(base, old[m].action_type)),
    ensures
        action_types(kept_old_actions(old, new, base, accept, yes, n)).contains(old[m].action_type),
    decreases n,
{
    let prev = kept_old_actions(old, new, base, accept, yes, (n - 1) as nat);
    let cur = kept_old_actions(old, new, base, accept, yes, n);
    if m < n - 1 {
        lemma_kept_actions_cover(old, new, base, accept, yes, (n - 1) as nat, m);
        let i = choose|i: int| 0 <= i < action_types(prev).len() && action_types(prev)[i] == old[m].action_type;
        assert(cur.subrange(0, prev.len() as int) =~= prev);
        assert(cur[i] == prev[i]);
        assert(action_types(cur)[i] == old[m].action_type);
    } else {
        assert(cur == prev.push(old[m]));
        assert(action_types(cur)[prev.len() as int] == old[m].action_type);
    }
}

proof fn lemma_removed_of_merged_actions(old: Seq<ActionView>, new: Seq<ActionView>, l: Seq<ActionView>, base: Seq<char>, accept: Seq<Seq<char>>, yes: bool, n: nat)
    requires
        n <= old.len(),
        forall|m: int| 0 <= m < old.len() ==> (action_types(l).contains(#[trigger] old[m].action_type) <==> (
            action_types(new).contains(old[m].action_type) || !accepts(accept, yes, action_path(base, old[m].action_type)))),
    ensures
        removed_actions(old, l, base, n) == taken_removed_actions(old, new, base, accept, yes, n),
    decreases n,
{
    if n > 0 {
        lemma_removed_of_merged_actions(old, new, l, base, accept, yes, (n - 1) as nat);
        assert(action_types(l).contains(old[n - 1].action_type) <==> (action_types(new).contains(old[n - 1].action_type)
            || !accepts(accept, yes, action_path(base, old[n - 1].action_type))));
    }
}

/// The diff from the old actions to the merged ones is what the accepted
/// paths take of the diff from the old actions to the new ones.
pub(crate) proof fn lemma_merged_actions_diff(old: Seq<ActionView>, new: Seq<ActionView>, base: Seq<char>, accept: Seq<Seq<char>>, yes: bool)
    requires
        crate::diff::distinct_keys(action_types(old)),
    ensures
        actions_diff(old, merged_actions(old, new, base, accept, yes), base) == taken_actions_diff(old, new, base, accept, yes),
{
    let a = merged_new_actions(old, new, base, accept, yes, new.len());
    let b = kept_old_actions(old, new, base, accept, yes, old.len());
    let l = merged_actions(old, new, base, accept, yes);
    assert(l == a + b);
    lemma_merged_new_actions(old, new, base, accept, yes, new.len());
    lemma_kept_actions(old, new, base, accept, yes, old.len());
    assert forall|k: int| 0 <= k < b.len() implies old.contains(#[trigger] b[k]) by {
        let m = choose|m: int| 0 <= m < old.len() && old[m] == b[k] && !accepts(accept, yes, action_path(base, old[m].action_type));
    }
    lemma_old_actions_unchanged(old, b, base, b.len());
    lemma_new_actions_split(old, a, b, base, b.len());
    assert forall|m: int| 0 <= m < old.len() implies (action_types(l).contains(#[trigger] old[m].action_type) <==> (
        action_types(new).contains(old[m].action_type) || !accepts(accept, yes, action_path(base, old[m].action_type)))) by {
        if action_types(new).contains(old[m].action_type) {
            let p = choose|p: int| 0 <= p < action_types(new).len() && action_types(new)[p] == old[m].action_type;
            assert(new[p].action_type == old[m].action_type);
            assert(action_types(old)[m] == old[m].action_type);
            lemma_merged_new_actions_cover(old, new, base, accept, yes, new.len(), p);
            let i = choose|i: int| 0 <= i < action_types(a).len() && action_types(a)[i] == new[p].action_type;
            assert(l[i] == a[i]);
            assert(action_types(l)[i] == old[m].action_type);
        } else if !accepts(accept, yes, action_path(base, old[m].action_type)) {
            lemma_kept_actions_cover(old, new, base, accept, yes, old.len(), m);
            let i = choose|i: int| 0 <= i < action_types(b).len() && action_types(b)[i] == old[m].action_type;
            assert(l[a.len() + i] == b[i]);
            assert(action_types(l)[a.len() + i] == old[m].action_type);
        } else {
            if action_types(l).contains(old[m].action_type) {
                let i = choose|i: int| 0 <= i < action_types(l).len() && action_types(l)[i] == old[m].action_type;
                if i < a.len() {
                    assert(l[i] == a[i]);
                    assert(action_types(new).contains(a[i].action_type));
                } else {
                    assert(l[i] == b[i - a.len()]);
                    let mm = choose|mm: int| 0 <= mm < old.len() && old[mm] == #[trigger] b[i - a.len()]
                        && !accepts(accept, yes, action_path(base, old[mm].action_type));
                    assert(old[mm].action_type == old[m].action_type);
                }
            }
        }
    }
    lemma_removed_of_merged_actions(old, new, l, base, accept, yes, old.len());
    assert(actions_diff(old, l, base) =~= taken_actions_diff(old, new, base, accept, yes));
}

// ---------------------------------------------------------------------
// Inputs
// ---------------------------------------------------------------------

/// The taken changes of an input that both versions have: its fields that
/// differ and whose paths are accepted, then the taken changes of its
/// outputs and of its actions.
pub open spec fn taken_input_changes(old: InputView, new: InputView, accept: Seq<Seq<char>>, yes: bool) -> Seq<ChangeView> {
    let base = input_path(new.name);
    (if old.description != new.description && accepts(accept, yes, base + ".description"@) {
        seq![ChangeView::Modified { path: base + ".description"@, old: old.description, new: new.description }]
    } else {
        seq![]
    }) + (if old.input_type != new.input_type && accepts(accept, yes, base + ".type"@) {
        seq![
            ChangeView::Modified {
                path: base + ".type"@,
                old: opt_input_type_text(old.input_type),
                new: opt_input_type_text(new.input_type),
            },
        ]
    } else {
        seq![]
    }) + taken_outputs_diff(old.outputs, new.outputs, base, accept, yes) + taken_actions_diff(
        old.actions,
        new.actions,
        base,
        accept,
        yes,
    )
}

/// The changes that a new input brings: its addition, then its fields.
pub open spec fn input_group(new: InputView) -> Seq<ChangeView> {
    seq![ChangeView::Added { path: input_path(new.name), value: input_summary(new) }] + input_added(
        input_path(new.name),
        new,
    )
}

/// The taken changes of one input of the new version: a shared one field
/// by field, a new one whole when its path is accepted.
pub open spec fn taken_new_input_changes(old: Seq<InputView>, new: InputView, accept: Seq<Seq<char>>, yes: bool) -> Seq<ChangeView> {
    match input_names(old).index_of_first(new.name) {
        Some(j) => taken_input_changes(old[j], new, accept, yes),
        None => if accepts(accept, yes, input_path(new.name)) {
            input_group(new)
        } else {
            seq![]
        },
    }
}

pub open spec fn taken_new_inputs(old: Seq<InputView>, new: Seq<InputView>, accept: Seq<Seq<char>>, yes: bool, n: nat) -> Seq<ChangeView>
    decreases n,
{
    if n == 0 {
        seq![]
    } else {
        taken_new_inputs(old, new, accept, yes, (n - 1) as nat) + taken_new_input_changes(old, new[n - 1], accept, yes)
    }
}

pub open spec fn taken_removed_inputs(old: Seq<InputView>, new: Seq<InputView>, accept: Seq<Seq<char>>, yes: bool, n: nat) -> Seq<ChangeView>
    decreases n,
{
    if n == 0 {
        seq![]
    } else {
        taken_removed_inputs(old, new, accept, yes, (n - 1) as nat) + (if !input_names(new).contains(old[n - 1].name)
            && accepts(accept, yes, input_path(old[n - 1].name)) {
            seq![ChangeView::Removed { path: input_path(old[n - 1].name), old: input_summary(old[n - 1]) }]
        } else {
            seq![]
        })
    }
}

pub open spec fn taken_inputs_diff(old: Seq<InputView>, new: Seq<InputView>, accept: Seq<Seq<char>>, yes: bool) -> Seq<ChangeView> {
    taken_new_inputs(old, new, accept, yes, new.len()) + taken_removed_inputs(old, new, accept, yes, old.len())
}

/// The changes of the diff from `old` to `new` that the accepted paths
/// take: a changed field when its path is accepted; a new input, output or
/// action, whole, when its own path is accepted; a removal when its path
/// is accepted. They keep the order of the diff.
pub open spec fn taken_diff(old: ContractView, new: ContractView, accept: Seq<Seq<char>>, yes: bool) -> Seq<ChangeView> {
    (if old.project.name != new.project.name && accepts(accept, yes, "project.name"@) {
        seq![ChangeView::Modified { path: "project.name"@, old: old.project.name, new: new.project.name }]
    } else {
        seq![]
    }) + (if old.project.description != new.project.description && accepts(accept, yes, "project.description"@) {
        seq![
            ChangeView::Modified {
                path: "project.description"@,
                old: old.project.description,
                new: new.project.description,
            },
        ]
    } else {
        seq![]
    }) + taken_inputs_diff(old.inputs, new.inputs, accept, yes)
}

proof fn lemma_taken_four(
    t1: Seq<ChangeView>, d1: Seq<ChangeView>,
    t2: Seq<ChangeView>, d2: Seq<ChangeView>,
    t3: Seq<ChangeView>, d3: Seq<ChangeView>,
    t4: Seq<ChangeView>, d4: Seq<ChangeView>,
    accept: Seq<Seq<char>>, yes: bool,
)
    requires
        taken_from(t1, d1, accept, yes),
        taken_from(t2, d2, accept, yes),
        taken_from(t3, d3, accept, yes),
        taken_from(t4, d4, accept, yes),
    ensures
        taken_from(t1 + t2 + t3 + t4, d1 + d2 + d3 + d4, accept, yes),
{
    lemma_taken_three(t1, d1, t2, d2, t3, d3, accept, yes);
    lemma_taken_concat(t1 + t2 + t3, d1 + d2 + d3, t4, d4, accept, yes);
}

proof fn lemma_input_taken_from(old: InputView, new: InputView, accept: Seq<Seq<char>>, yes: bool)
    ensures
        taken_from(taken_input_changes(old, new, accept, yes), input_changes(old, new), accept, yes),
{
    let base = input_path(new.name);
    let md = ChangeView::Modified { path: base + ".description"@, old: old.description, new: new.description };
    let mt = ChangeView::Modified {
        path: base + ".type"@,
        old: opt_input_type_text(old.input_type),
        new: opt_input_type_text(new.input_type),
    };
    let dd = old.description != new.description;
    let td = old.input_type != new.input_type;
    lemma_taken_field(md, dd, accept, yes);
    lemma_taken_field(mt, td, accept, yes);
    lemma_outputs_taken_from(old.outputs, new.outputs, base, accept, yes);
    lemma_actions_taken_from(old.actions, new.actions, base, accept, yes);
    let t1 = if dd && accepts(accept, yes, md.path()) { seq![md] } else { seq![] };
    let d1 = if dd { seq![md] } else { seq![] };
    let t2 = if td && accepts(accept, yes, mt.path()) { seq![mt] } else { seq![] };
    let d2 = if td { seq![mt] } else { seq![] };
    lemma_taken_four(
        t1, d1, t2, d2,
        taken_outputs_diff(old.outputs, new.outputs, base, accept, yes), outputs_diff(old.outputs, new.outputs, base),
        taken_actions_diff(old.actions, new.actions, base, accept, yes), actions_diff(old.actions, new.actions, base),
        accept, yes,
    );
    assert(taken_input_changes(old, new, accept, yes) =~= t1 + t2 + taken_outputs_diff(old.outputs, new.outputs, base, accept, yes)
        + taken_actions_diff(old.actions, new.actions, base, accept, yes));
    assert(input_changes(old, new) =~= d1 + d2 + outputs_diff(old.outputs, new.outputs, base) + actions_diff(old.actions, new.actions, base));
}

proof fn lemma_new_inputs_taken_from(old: Seq<InputView>, new: Seq<InputView>, accept: Seq<Seq<char>>, yes: bool, n: nat)
    requires
        n <= new.len(),
        inputs_keys_good(new),
    ensures
        taken_from(taken_new_inputs(old, new, accept, yes, n), new_inputs_changes(old, new, n), accept, yes),
    decreases n,
{
    if n > 0 {
        lemma_new_inputs_taken_from(old, new, accept, yes, (n - 1) as nat);
        let x = new[n - 1];
        match input_names(old).index_of_first(x.name) {
            Some(j) => {
                lemma_input_taken_from(old[j], x, accept, yes);
            },
            None => {
                assert(input_keys_good(new[n - 1]));
                crate::paths::lemma_input_added_paths(x);
                lemma_taken_item(input_group(x), input_path(x.name), accept, yes);
            },
        }
        lemma_taken_concat(
            taken_new_inputs(old, new, accept, yes, (n - 1) as nat),
            new_inputs_changes(old, new, (n - 1) as nat),
            taken_new_input_changes(old, x, accept, yes),
            new_input_changes(old, x),
            accept,
            yes,
        );
    }
}

proof fn lemma_removed_inputs_taken_from(old: Seq<InputView>, new: Seq<InputView>, accept: Seq<Seq<char>>, yes: bool, n: nat)
    requires
        n <= old.len(),
    ensures
        taken_from(taken_removed_inputs(old, new, accept, yes, n), removed_inputs(old, new, n), accept, yes),
    decreases n,
{
    if n > 0 {
        lemma_removed_inputs_taken_from(old, new, accept, yes, (n - 1) as nat);
        let m = ChangeView::Removed { path: input_path(old[n - 1].name), old: input_summary(old[n - 1]) };
        lemma_taken_field(m, !input_names(new).contains(old[n - 1].name), accept, yes);
        lemma_taken_concat(
            taken_removed_inputs(old, new, accept, yes, (n - 1) as nat),
            removed_inputs(old, new, (n - 1) as nat),
            if !input_names(new).contains(old[n - 1].name) && accepts(accept, yes, m.path()) { seq![m] } else { seq![] },
            if !input_names(new).contains(old[n - 1].name) { seq![m] } else { seq![] },
            accept,
            yes,
        );
    }
}

/// What the accepted paths take of the diff between valid contracts: only
/// changes of the diff whose paths are accepted, and every change whose
/// path is accepted unless it belongs to a new item whose own path is not.
pub(crate) proof fn lemma_diff_taken_from(old: ContractView, new: ContractView, accept: Seq<Seq<char>>, yes: bool)
    requires
        inputs_keys_good(new.inputs),
    ensures
        taken_from(taken_diff(old, new, accept, yes), contract_diff(old, new), accept, yes),
{
    let mn = ChangeView::Modified { path: "project.name"@, old: old.project.name, new: new.project.name };
    let md = ChangeView::Modified {
        path: "project.description"@,
        old: old.project.description,
        new: new.project.description,
    };
    let nd = old.project.name != new.project.name;
    let dd = old.project.description != new.project.description;
    lemma_taken_field(mn, nd, accept, yes);
    lemma_taken_field(md, dd, accept, yes);
    lemma_new_inputs_taken_from(old.inputs, new.inputs, accept, yes, new.inputs.len());
    lemma_removed_inputs_taken_from(old.inputs, new.inputs, accept, yes, old.inputs.len());
    lemma_taken_concat(
        taken_new_inputs(old.inputs, new.inputs, accept, yes, new.inputs.len()),
        new_inputs_changes(old.inputs, new.inputs, new.inputs.len()),
        taken_removed_inputs(old.inputs, new.inputs, accept, yes, old.inputs.len()),
        removed_inputs(old.inputs, new.inputs, old.inputs.len()),
        accept,
        yes,
    );
    let t1 = if nd && accepts(accept, yes, mn.path()) { seq![mn] } else { seq![] };
    let d1 = if nd { seq![mn] } else { seq![] };
    let t2 = if dd && accepts(accept, yes, md.path()) { seq![md] } else { seq![] };
    let d2 = if dd { seq![md] } else { seq![] };
    lemma_taken_three(
        t1, d1, t2, d2,
        taken_inputs_diff(old.inputs, new.inputs, accept, yes), inputs_diff(old.inputs, new.inputs),
        accept, yes,
    );
    assert(taken_diff(old, new, accept, yes) =~= t1 + t2 + taken_inputs_diff(old.inputs, new.inputs, accept, yes));
    assert(contract_diff(old, new) =~= d1 + d2 + inputs_diff(old.inputs, new.inputs));
}

// ---------------------------------------------------------------------
// The diff of merged inputs and contracts
// ---------------------------------------------------------------------

/// The outputs and actions of every input of `s` have distinct keys.
pub open spec fn item_keys_distinct(s: Seq<InputView>) -> bool {
    forall|k: int|
        0 <= k < s.len() ==> distinct_keys(output_names(#[trigger] s[k].outputs))
            && distinct_keys(action_types(s[k].actions))
}

proof fn lemma_new_inputs_prefix(old: Seq<InputView>, s: Seq<InputView>, t: Seq<InputView>, n: nat)
    requires
        n <= s.len(),
        n <= t.len(),
        forall|k: int| 0 <= k < n ==> s[k] == t[k],
    ensures
        new_inputs_changes(old, s, n) == new_inputs_changes(old, t, n),
    decreases n,
{
    if n > 0 {
        lemma_new_inputs_prefix(old, s, t, (n - 1) as nat);
        assert(s[n - 1] == t[n - 1]);
    }
}

proof fn lemma_new_inputs_split(old: Seq<InputView>, a: Seq<InputView>, b: Seq<InputView>, n: nat)
    requires
        n <= b.len(),
    ensures
        new_inputs_changes(old, a + b, a.len() + n) == new_inputs_changes(old, a, a.len())
            + new_inputs_changes(old, b, n),
    decreases n,
{
    if n == 0 {
        assert forall|k: int| 0 <= k < a.len() implies (a + b)[k] == a[k] by {}
        lemma_new_inputs_prefix(old, a + b, a, a.len());
        assert(new_inputs_changes(old, b, 0) =~= Seq::<ChangeView>::empty());
        assert(new_inputs_changes(old, a, a.len()) + Seq::<ChangeView>::empty() =~= new_inputs_changes(old, a, a.len()));
    } else {
        lemma_new_inputs_split(old, a, b, (n - 1) as nat);
        assert((a + b)[a.len() + n - 1] == b[n - 1]);
        assert(new_inputs_changes(old, a + b, a.len() + n) == new_inputs_changes(old, a + b, (a.len() + n - 1) as nat)
            + new_input_changes(old, b[n - 1]));
        assert(new_inputs_changes(old, a, a.len()) + new_inputs_changes(old, b, n) =~= new_inputs_changes(old, a, a.len())
            + new_inputs_changes(old, b, (n - 1) as nat) + new_input_changes(old, b[n - 1]));
    }
}

proof fn lemma_merged_input_changes(x: InputView, n: InputView, accept: Seq<Seq<char>>, yes: bool)
    requires
        distinct_keys(output_names(x.outputs)),
        distinct_keys(action_types(x.actions)),
    ensures
        input_changes(x, merged_input(x, n, accept, yes)) == taken_input_changes(x, n, accept, yes),
{
    let base = input_path(n.name);
    lemma_merged_outputs_diff(x.outputs, n.outputs, base, accept, yes);
    lemma_merged_actions_diff(x.actions, n.actions, base, accept, yes);
    assert(input_changes(x, merged_input(x, n, accept, yes)) =~= taken_input_changes(x, n, accept, yes));
}

proof fn lemma_merged_new_inputs(old: Seq<InputView>, new: Seq<InputView>, accept: Seq<Seq<char>>, yes: bool, k: nat)
    requires
        k <= new.len(),
        item_keys_distinct(old),
    ensures
        new_inputs_changes(old, merged_new_inputs(old, new, accept, yes, k), merged_new_inputs(old, new, accept, yes, k).len())
            == taken_new_inputs(old, new, accept, yes, k),
        forall|i: int| 0 <= i < merged_new_inputs(old, new, accept, yes, k).len()
            ==> input_names(new).contains(#[trigger] merged_new_inputs(old, new, accept, yes, k)[i].name),
    decreases k,
{
    if k > 0 {
        lemma_merged_new_inputs(old, new, accept, yes, (k - 1) as nat);
        let prev = merged_new_inputs(old, new, accept, yes, (k - 1) as nat);
        let cur = merged_new_inputs(old, new, accept, yes, k);
        let x = new[k - 1];
        assert(input_names(new)[k - 1] == x.name);
        let piece: Seq<InputView> = match input_names(old).index_of_first(x.name) {
            Some(j) => seq![merged_input(old[j], x, accept, yes)],
            None => if accepts(accept, yes, input_path(x.name)) { seq![x] } else { seq![] },
        };
        assert(cur == prev + piece);
        lemma_new_inputs_split(old, prev, piece, piece.len());
        assert(new_inputs_changes(old, piece, 0) =~= Seq::<ChangeView>::empty());
        input_names(old).index_of_first_ensures(x.name);
        match input_names(old).index_of_first(x.name) {
            Some(j) => {
                assert(distinct_keys(output_names(old[j].outputs)));
                lemma_merged_input_changes(old[j], x, accept, yes);
                assert(new_inputs_changes(old, piece, 1) =~= new_input_changes(old, piece[0]));
            },
            None => {
                if accepts(accept, yes, input_path(x.name)) {
                    assert(new_inputs_changes(old, piece, 1) =~= new_input_changes(old, x));
                }
            },
        }
        assert(new_inputs_changes(old, cur, cur.len()) =~= taken_new_inputs(old, new, accept, yes, k));
        assert forall|i: int| 0 <= i < cur.len() implies input_names(new).contains(#[trigger] cur[i].name) by {
            if i < prev.len() {
                assert(cur[i] == prev[i]);
            } else {
                assert(cur[i] == piece[i - prev.len()]);
            }
        }
    }
}

proof fn lemma_kept_inputs(old: Seq<InputView>, new: Seq<InputView>, accept: Seq<Seq<char>>, yes: bool, n: nat)
    requires
        n <= old.len(),
    ensures
        forall|i: int| 0 <= i < kept_old_inputs(old, new, accept, yes, n).len() ==> exists|m: int|
            0 <= m < n && old[m] == #[trigger] kept_old_inputs(old, new, accept, yes, n)[i]
                && !accepts(accept, yes, input_path(old[m].name)),
    decreases n,
{
    if n > 0 {
        lemma_kept_inputs(old, new, accept, yes, (n - 1) as nat);
        let prev = kept_old_inputs(old, new, accept, yes, (n - 1) as nat);
        let cur = kept_old_inputs(old, new, accept, yes, n);
        assert forall|i: int| 0 <= i < cur.len() implies exists|m: int|
            0 <= m < n && old[m] == #[trigger] cur[i] && !accepts(accept, yes, input_path(old[m].name)) by {
            if i < prev.len() {
                assert(cur[i] == prev[i]);
                let m = choose|m: int| 0 <= m < n - 1 && old[m] == prev[i] && !accepts(accept, yes, input_path(old[m].name));
            } else {
                assert(cur[i] == old[n - 1]);
            }
        }
    }
}

proof fn lemma_old_inputs_unchanged(old: Seq<InputView>, l: Seq<InputView>, n: nat)
    requires
        n <= l.len(),
        distinct_keys(input_names(old)),
        item_keys_distinct(old),
        forall|k: int| 0 <= k < l.len() ==> old.contains(#[trigger] l[k]),
    ensures
        new_inputs_changes(old, l, n) == Seq::<ChangeView>::empty(),
    decreases n,
{
    if n > 0 {
        lemma_old_inputs_unchanged(old, l, (n - 1) as nat);
        let m = choose|m: int| 0 <= m < old.len() && old[m] == l[n - 1];
        assert(input_names(old)[m] == old[m].name);
        crate::diff::lemma_first_of_distinct(input_names(old), m);
        assert(distinct_keys(output_names(old[m].outputs)));
        crate::diff::lemma_input_changes_same(old[m]);
        assert(new_inputs_changes(old, l, n) =~= Seq::<ChangeView>::empty());
    }
}

proof fn lemma_merged_new_inputs_cover(old: Seq<InputView>, new: Seq<InputView>, accept: Seq<Seq<char>>, yes: bool, k: nat, p: int)
    requires
        k <= new.len(),
        0 <= p < k,
        input_names(old).contains(new[p].name),
    ensures
        input_names(merged_new_inputs(old, new, accept, yes, k)).contains(new[p].name),
    decreases k,
{
    let prev = merged_new_inputs(old, new, accept, yes, (k - 1) as nat);
    let cur = merged_new_inputs(old, new, accept, yes, k);
    if p < k - 1 {
        lemma_merged_new_inputs_cover(old, new, accept, yes, (k - 1) as nat, p);
        let i = choose|i: int| 0 <= i < input_names(prev).len() && input_names(prev)[i] == new[p].name;
        assert(cur.subrange(0, prev.len() as int) =~= prev);
        assert(cur[i] == prev[i]);
        assert(input_names(cur)[i] == new[p].name);
    } else {
        input_names(old).index_of_first_ensures(new[p].name);
        let j = input_names(old).index_of_first(new[p].name)->0;
        assert(cur == prev.push(merged_input(old[j], new[p], accept, yes)));
        assert(input_names(cur)[prev.len() as int] == new[p].name);
    }
}

proof fn lemma_kept_inputs_cover(old: Seq<InputView>, new: Seq<InputView>, accept: Seq<Seq<char>>, yes: bool, n: nat, m: int)
    requires
        n <= old.len(),
        0 <= m < n,
        !input_names(new).contains(old[m].name),
        !accepts(accept, yes, input_path(old[m].name)),
    ensures
        input_names(kept_old_inputs(old, new, accept, yes, n)).contains(old[m].name),
    decreases n,
{
    let prev = kept_old_inputs(old, new, accept, yes, (n - 1) as nat);
    let cur = kept_old_inputs(old, new, accept, yes, n);
    if m < n - 1 {
        lemma_kept_inputs_cover(old, new, accept, yes, (n - 1) as nat, m);
        let i = choose|i: int| 0 <= i < input_names(prev).len() && input_names(prev)[i] == old[m].name;
        assert(cur.subrange(0, prev.len() as int) =~= prev);
        assert(cur[i] == prev[i]);
        assert(input_names(cur)[i] == old[m].name);
    } else {
        assert(cur == prev.push(old[m]));
        assert(input_names(cur)[prev.len() as int] == old[m].name);
    }
}

proof fn lemma_removed_of_merged_inputs(old: Seq<InputView>, new: Seq<InputView>, l: Seq<InputView>, accept: Seq<Seq<char>>, yes: bool, n: nat)
    requires
        n <= old.len(),
        forall|m: int| 0 <= m < old.len() ==> (input_names(l).contains(#[trigger] old[m].name) <==> (
            input_names(new).contains(old[m].name) || !accepts(accept, yes, input_path(old[m].name)))),
    ensures
        removed_inputs(old, l, n) == taken_removed_inputs(old, new, accept, yes, n),
    decreases n,
{
    if n > 0 {
        lemma_removed_of_merged_inputs(old, new, l, accept, yes, (n - 1) as nat);
        assert(input_names(l).contains(old[n - 1].name) <==> (input_names(new).contains(old[n - 1].name)
            || !accepts(accept, yes, input_path(old[n - 1].name))));
    }
}

proof fn lemma_merged_inputs_diff(old: ContractView, new: Seq<InputView>, accept: Seq<Seq<char>>, yes: bool)
    requires
        keys_distinct(old),
    ensures
        inputs_diff(old.inputs, merged_inputs(old.inputs, new, accept, yes)) == taken_inputs_diff(old.inputs, new, accept, yes),
{
    let o = old.inputs;
    let a = merged_new_inputs(o, new, accept, yes, new.len());
    let b = kept_old_inputs(o, new, accept, yes, o.len());
    let l = merged_inputs(o, new, accept, yes);
    assert(l == a + b);
    assert(item_keys_distinct(o));
    lemma_merged_new_inputs(o, new, accept, yes, new.len());
    lemma_kept_inputs(o, new, accept, yes, o.len());
    assert forall|k: int| 0 <= k < b.len() implies o.contains(#[trigger] b[k]) by {
        let m = choose|m: int| 0 <= m < o.len() && o[m] == b[k] && !accepts(accept, yes, input_path(o[m].name));
    }
    lemma_old_inputs_unchanged(o, b, b.len());
    lemma_new_inputs_split(o, a, b, b.len());
    assert forall|m: int| 0 <= m < o.len() implies (input_names(l).contains(#[trigger] o[m].name) <==> (
        input_names(new).contains(o[m].name) || !accepts(accept, yes, input_path(o[m].name)))) by {
        if input_names(new).contains(o[m].name) {
            let p = choose|p: int| 0 <= p < input_names(new).len() && input_names(new)[p] == o[m].name;
            assert(new[p].name == o[m].name);
            assert(input_names(o)[m] == o[m].name);
            lemma_merged_new_inputs_cover(o, new, accept, yes, new.len(), p);
            let i = choose|i: int| 0 <= i < input_names(a).len() && input_names(a)[i] == new[p].name;
            assert(l[i] == a[i]);
            assert(input_names(l)[i] == o[m].name);
        } else if !accepts(accept, yes, input_path(o[m].name)) {
            lemma_kept_inputs_cover(o, new, accept, yes, o.len(), m);
            let i = choose|i: int| 0 <= i < input_names(b).len() && input_names(b)[i] == o[m].name;
            assert(l[a.len() + i] == b[i]);
            assert(input_names(l)[a.len() + i] == o[m].name);
        } else {
            if input_names(l).contains(o[m].name) {
                let i = choose|i: int| 0 <= i < input_names(l).len() && input_names(l)[i] == o[m].name;
                if i < a.len() {
                    assert(l[i] == a[i]);
                    assert(input_names(new).contains(a[i].name));
                } else {
                    assert(l[i] == b[i - a.len()]);
                    let mm = choose|mm: int| 0 <= mm < o.len() && o[mm] == #[trigger] b[i - a.len()]
                        && !accepts(accept, yes, input_path(o[mm].name));
                    assert(o[mm].name == o[m].name);
                }
            }
        }
    }
    lemma_removed_of_merged_inputs(o, new, l, accept, yes, o.len());
    assert(inputs_diff(o, l) =~= taken_inputs_diff(o, new, accept, yes));
}

/// The diff from `old` to the contract that accepting changes gives is the
/// taken part of the diff from `old` to `new`.
pub(crate) proof fn lemma_merged_diff(old: ContractView, new: ContractView, accept: Seq<Seq<char>>, yes: bool)
    requires
        keys_distinct(old),
    ensures
        contract_diff(old, merged(old, new, accept, yes)) == taken_diff(old, new, accept, yes),
{
    lemma_merged_inputs_diff(old, new.inputs, accept, yes);
    assert(contract_diff(old, merged(old, new, accept, yes)) =~= taken_diff(old, new, accept, yes));
}

// ---------------------------------------------------------------------
// What a save writes
// ---------------------------------------------------------------------

/// A save of `draft` over `old` that writes `contract` and lists
/// `accepted`: the listed paths are those of the changes of `contract`
/// against `old`; each of those changes is a change of the draft whose
/// path is accepted; and each change of the draft whose path is accepted is
/// among them, unless it belongs to an input, output or action that only
/// the draft has and whose own path is not accepted.
pub open spec fn saved_as_accepted(
    old: ContractView,
    draft: ContractView,
    contract: ContractView,
    accepted: Seq<Seq<char>>,
    accept: Seq<Seq<char>>,
    yes: bool,
) -> bool {
    let d = contract_diff(old, draft);
    let w = contract_diff(old, contract);
    &&& accepted == change_paths(w)
    &&& within_accepted(w, d, accept, yes)
    &&& covers_accepted(d, w, accept, yes)
}

/// Saving a valid draft over a valid registry contract with any choice of
/// accepted paths: whatever is written has, against the registry's
/// contract, exactly the changes of the draft that the choice takes, and
/// the answer lists their paths.
pub proof fn lemma_save_takes_accepted(
    project: Seq<char>,
    draft: ContractView,
    old: ContractView,
    accept: Seq<Seq<char>>,
    yes: bool,
)
    requires
        is_valid(old),
        is_valid(draft),
    ensures
        save_answer(project, draft, Some(old), accept, yes) matches SaveView::Saved { contract, accepted }
            ==> saved_as_accepted(old, draft, contract, accepted, accept, yes),
{
    crate::diff::lemma_valid_has_distinct_keys(old);
    crate::paths::lemma_valid_keys_good(draft);
    lemma_merged_diff(old, draft, accept, yes);
    lemma_diff_taken_from(old, draft, accept, yes);
    let d = contract_diff(old, draft);
    if d.len() == 0 {
        assert(change_paths(d) =~= Seq::<Seq<char>>::empty());
    }
}

// ---------------------------------------------------------------------
// Accepting every change path by path
// ---------------------------------------------------------------------

/// Every change of `d` has an accepted path.
pub open spec fn all_accepted(d: Seq<ChangeView>, accept: Seq<Seq<char>>) -> bool {
    forall|i: int| 0 <= i < d.len() ==> accepts(accept, false, (#[trigger] d[i]).path())
}

proof fn lemma_all_accepted_part(x: Seq<ChangeView>, d: Seq<ChangeView>, accept: Seq<Seq<char>>)
    requires
        all_accepted(d, accept),
        included(x, d),
    ensures
        all_accepted(x, accept),
{
    assert forall|i: int| 0 <= i < x.len() implies accepts(accept, false, (#[trigger] x[i]).path()) by {
        assert(d.contains(x[i]));
        let j = choose|j: int| 0 <= j < d.len() && d[j] == x[i];
        assert(accepts(accept, false, d[j].path()));
    }
}

proof fn lemma_all_accepted_split(a: Seq<ChangeView>, b: Seq<ChangeView>, accept: Seq<Seq<char>>)
    requires
        all_accepted(a + b, accept),
    ensures
        all_accepted(a, accept),
        all_accepted(b, accept),
{
    lemma_included_parts(a, b);
    lemma_all_accepted_part(a, a + b, accept);
    lemma_all_accepted_part(b, a + b, accept);
}

proof fn lemma_removed_outputs_has(old: Seq<OutputView>, new: Seq<OutputView>, base: Seq<char>, n: nat, m: int)
    requires
        n <= old.len(),
        0 <= m < n,
        !output_names(new).contains(old[m].name),
    ensures
        removed_outputs(old, new, base, n).contains(
            ChangeView::Removed { path: output_path(base, old[m].name), old: crate::diff::output_summary(old[m]) },
        ),
    decreases n,
{
    let prev = removed_outputs(old, new, base, (n - 1) as nat);
    let cur = removed_outputs(old, new, base, n);
    lemma_included_parts(prev, cur.subrange(prev.len() as int, cur.len() as int));
    assert(cur =~= prev + cur.subrange(prev.len() as int, cur.len() as int));
    if m < n - 1 {
        lemma_removed_outputs_has(old, new, base, (n - 1) as nat, m);
        lemma_contains_widen(prev, cur, ChangeView::Removed { path: output_path(base, old[m].name), old: crate::diff::output_summary(old[m]) });
    } else {
        assert(cur[prev.len() as int] == ChangeView::Removed { path: output_path(base, old[m].name), old: crate::diff::output_summary(old[m]) });
    }
}

proof fn lemma_removed_actions_has(old: Seq<ActionView>, new: Seq<ActionView>, base: Seq<char>, n: nat, m: int)
    requires
        n <= old.len(),
        0 <= m < n,
        !action_types(new).contains(old[m].action_type),
    ensures
        removed_actions(old, new, base, n).contains(
            ChangeView::Removed { path: action_path(base, old[m].action_type), old: old[m].instructions },
        ),
    decreases n,
{
    let prev = removed_actions(old, new, base, (n - 1) as nat);
    let cur = removed_actions(old, new, base, n);
    lemma_included_parts(prev, cur.subrange(prev.len() as int, cur.len() as int));
    assert(cur =~= prev + cur.subrange(prev.len() as int, cur.len() as int));
    if m < n - 1 {
        lemma_removed_actions_has(old, new, base, (n - 1) as nat, m);
        lemma_contains_widen(prev, cur, ChangeView::Removed { path: action_path(base, old[m].action_type), old: old[m].instructions });
    } else {
        assert(cur[prev.len() as int] == ChangeView::Removed { path: action_path(base, old[m].action_type), old: old[m].instructions });
    }
}

pub(crate) proof fn lemma_removed_inputs_has(old: Seq<InputView>, new: Seq<InputView>, n: nat, m: int)
    requires
        n <= old.len(),
        0 <= m < n,
        !input_names(new).contains(old[m].name),
    ensures
        removed_inputs(old, new, n).contains(
            ChangeView::Removed { path: input_path(old[m].name), old: input_summary(old[m]) },
        ),
    decreases n,
{
    let prev = removed_inputs(old, new, (n - 1) as nat);
    let cur = removed_inputs(old, new, n);
    lemma_included_parts(prev, cur.subrange(prev.len() as int, cur.len() as int));
    assert(cur =~= prev + cur.subrange(prev.len() as int, cur.len() as int));
    if m < n - 1 {
        lemma_removed_inputs_has(old, new, (n - 1) as nat, m);
        lemma_contains_widen(prev, cur, ChangeView::Removed { path: input_path(old[m].name), old: input_summary(old[m]) });
    } else {
        assert(cur[prev.len() as int] == ChangeView::Removed { path: input_path(old[m].name), old: input_summary(old[m]) });
    }
}

proof fn lemma_every_output_taken(old: Seq<OutputView>, new: Seq<OutputView>, base: Seq<char>, accept: Seq<Seq<char>>)
    requires
        all_accepted(outputs_diff(old, new, base), accept),
    ensures
        merged_outputs(old, new, base, accept, false) == new,
{
    let d = outputs_diff(old, new, base);
    let nd = new_outputs_changes(old, new, base, new.len());
    let rd = removed_outputs(old, new, base, old.len());
    lemma_all_accepted_split(nd, rd, accept);
    assert forall|k: nat| k <= new.len() implies merged_new_outputs(old, new, base, accept, false, k) == new.take(k as int) by {
        lemma_every_new_output_taken(old, new, base, accept, k);
    }
    assert forall|n: nat| n <= old.len() implies kept_old_outputs(old, new, base, accept, false, n) == Seq::<OutputView>::empty() by {
        lemma_every_removed_output_taken(old, new, base, accept, n);
    }
    assert(new.take(new.len() as int) =~= new);
    assert(merged_outputs(old, new, base, accept, false) =~= new);
}

proof fn lemma_every_new_output_taken(old: Seq<OutputView>, new: Seq<OutputView>, base: Seq<char>, accept: Seq<Seq<char>>, k: nat)
    requires
        k <= new.len(),
        all_accepted(new_outputs_changes(old, new, base, new.len()), accept),
    ensures
        merged_new_outputs(old, new, base, accept, false, k) == new.take(k as int),
    decreases k,
{
    if k > 0 {
        lemma_every_new_output_taken(old, new, base, accept, (k - 1) as nat);
        let o = new[k - 1];
        crate::mirror::lemma_new_outputs_included(old, new, base, new.len(), k - 1);
        let g = new_output_changes(old, o, base);
        lemma_all_accepted_part(g, new_outputs_changes(old, new, base, new.len()), accept);
        match output_names(old).index_of_first(o.name) {
            Some(j) => {
                let x = old[j];
                let path = output_path(base, o.name);
                let d1 = if x.description != o.description { seq![ChangeView::Modified { path: path + ".description"@, old: opt_text(x.description), new: opt_text(o.description) }] } else { seq![] };
                let t1 = if x.output_type != o.output_type { seq![ChangeView::Modified { path: path + ".type"@, old: output_type_text(x.output_type), new: output_type_text(o.output_type) }] } else { seq![] };
                let l1 = if x.location != o.location { seq![ChangeView::Modified { path: path + ".location"@, old: x.location, new: o.location }] } else { seq![] };
                assert(g =~= d1 + t1 + l1);
                lemma_included_three(d1, t1, l1);
                lemma_all_accepted_part(d1, g, accept);
                lemma_all_accepted_part(t1, g, accept);
                lemma_all_accepted_part(l1, g, accept);
                if x.description != o.description { assert(accepts(accept, false, d1[0].path())); }
                if x.output_type != o.output_type { assert(accepts(accept, false, t1[0].path())); }
                if x.location != o.location { assert(accepts(accept, false, l1[0].path())); }
                assert(merged_output(x, o, base, accept, false) == o);
            },
            None => {
                assert(accepts(accept, false, g[0].path()));
            },
        }
        assert(new.take(k as int) =~= new.take(k - 1).push(o));
        assert(merged_new_outputs(old, new, base, accept, false, k) =~= new.take(k as int));
    }
}

proof fn lemma_every_removed_output_taken(old: Seq<OutputView>, new: Seq<OutputView>, base: Seq<char>, accept: Seq<Seq<char>>, n: nat)
    requires
        n <= old.len(),
        all_accepted(removed_outputs(old, new, base, old.len()), accept),
    ensures
        kept_old_outputs(old, new, base, accept, false, n) == Seq::<OutputView>::empty(),
    decreases n,
{
    if n > 0 {
        lemma_every_removed_output_taken(old, new, base, accept, (n - 1) as nat);
        if !output_names(new).contains(old[n - 1].name) {
            let r = ChangeView::Removed { path: output_path(base, old[n - 1].name), old: crate::diff::output_summary(old[n - 1]) };
            lemma_removed_outputs_has(old, new, base, old.len(), n - 1);
            let rd = removed_outputs(old, new, base, old.len());
            let i = choose|i: int| 0 <= i < rd.len() && rd[i] == r;
            assert(accepts(accept, false, rd[i].path()));
        }
        assert(kept_old_outputs(old, new, base, accept, false, n) =~= Seq::<OutputView>::empty());
    }
}

proof fn lemma_every_action_taken(old: Seq<ActionView>, new: Seq<ActionView>, base: Seq<char>, accept: Seq<Seq<char>>)
    requires
        all_accepted(actions_diff(old, new, base), accept),
    ensures
        merged_actions(old, new, base, accept, false) == new,
{
    let nd = new_actions_changes(old, new, base, new.len());
    let rd = removed_actions(old, new, base, old.len());
    lemma_all_accepted_split(nd, rd, accept);
    assert forall|k: nat| k <= new.len() implies merged_new_actions(old, new, base, accept, false, k) == new.take(k as int) by {
        lemma_every_new_action_taken(old, new, base, accept, k);
    }
    assert forall|n: nat| n <= old.len() implies kept_old_actions(old, new, base, accept, false, n) == Seq::<ActionView>::empty() by {
        lemma_every_removed_action_taken(old, new, base, accept, n);
    }
    assert(new.take(new.len() as int) =~= new);
    assert(merged_actions(old, new, base, accept, false) =~= new);
}

proof fn lemma_every_new_action_taken(old: Seq<ActionView>, new: Seq<ActionView>, base: Seq<char>, accept: Seq<Seq<char>>, k: nat)
    requires
        k <= new.len(),
        all_accepted(new_actions_changes(old, new, base, new.len()), accept),
    ensures
        merged_new_actions(old, new, base, accept, false, k) == new.take(k as int),
    decreases k,
{
    if k > 0 {
        lemma_every_new_action_taken(old, new, base, accept, (k - 1) as nat);
        let a = new[k - 1];
        crate::mirror::lemma_new_actions_included(old, new, base, new.len(), k - 1);
        let g = new_action_changes(old, a, base);
        lemma_all_accepted_part(g, new_actions_changes(old, new, base, new.len()), accept);
        match action_types(old).index_of_first(a.action_type) {
            Some(j) => {
                if old[j].instructions != a.instructions {
                    assert(accepts(accept, false, g[0].path()));
                }
                assert(merged_action(old[j], a, base, accept, false) == a);
            },
            None => {
                assert(accepts(accept, false, g[0].path()));
            },
        }
        assert(new.take(k as int) =~= new.take(k - 1).push(a));
        assert(merged_new_actions(old, new, base, accept, false, k) =~= new.take(k as int));
    }
}

proof fn lemma_every_removed_action_taken(old: Seq<ActionView>, new: Seq<ActionView>, base: Seq<char>, accept: Seq<Seq<char>>, n: nat)
    requires
        n <= old.len(),
        all_accepted(removed_actions(old, new, base, old.len()), accept),
    ensures
        kept_old_actions(old, new, base, accept, false, n) == Seq::<ActionView>::empty(),
    decreases n,
{
    if n > 0 {
        lemma_every_removed_action_taken(old, new, base, accept, (n - 1) as nat);
        if !action_types(new).contains(old[n - 1].action_type) {
            let r = ChangeView::Removed { path: action_path(base, old[n - 1].action_type), old: old[n - 1].instructions };
            lemma_removed_actions_has(old, new, base, old.len(), n - 1);
            let rd = removed_actions(old, new, base, old.len());
            let i = choose|i: int| 0 <= i < rd.len() && rd[i] == r;
            assert(accepts(accept, false, rd[i].path()));
        }
        assert(kept_old_actions(old, new, base, accept, false, n) =~= Seq::<ActionView>::empty());
    }
}

proof fn lemma_every_new_input_taken(old: Seq<InputView>, new: Seq<InputView>, accept: Seq<Seq<char>>, k: nat)
    requires
        k <= new.len(),
        all_accepted(new_inputs_changes(old, new, new.len()), accept),
    ensures
        merged_new_inputs(old, new, accept, false, k) == new.take(k as int),
    decreases k,
{
    if k > 0 {
        lemma_every_new_input_taken(old, new, accept, (k - 1) as nat);
        let x = new[k - 1];
        crate::mirror::lemma_new_inputs_included(old, new, new.len(), k - 1);
        let g = new_input_changes(old, x);
        lemma_all_accepted_part(g, new_inputs_changes(old, new, new.len()), accept);
        match input_names(old).index_of_first(x.name) {
            Some(j) => {
                let y = old[j];
                let base = input_path(x.name);
                let d1 = if y.description != x.description { seq![ChangeView::Modified { path: base + ".description"@, old: y.description, new: x.description }] } else { seq![] };
                let t1 = if y.input_type != x.input_type { seq![ChangeView::Modified { path: base + ".type"@, old: opt_input_type_text(y.input_type), new: opt_input_type_text(x.input_type) }] } else { seq![] };
                let od = outputs_diff(y.outputs, x.outputs, base);
                let ad = actions_diff(y.actions, x.actions, base);
                assert(g =~= d1 + t1 + od + ad);
                lemma_all_accepted_split(d1 + t1 + od, ad, accept);
                lemma_all_accepted_split(d1 + t1, od, accept);
                lemma_all_accepted_split(d1, t1, accept);
                if y.description != x.description { assert(accepts(accept, false, d1[0].path())); }
                if y.input_type != x.input_type { assert(accepts(accept, false, t1[0].path())); }
                lemma_every_output_taken(y.outputs, x.outputs, base, accept);
                lemma_every_action_taken(y.actions, x.actions, base, accept);
                assert(merged_input(y, x, accept, false) == x);
            },
            None => {
                assert(accepts(accept, false, g[0].path()));
            },
        }
        assert(new.take(k as int) =~= new.take(k - 1).push(x));
        assert(merged_new_inputs(old, new, accept, false, k) =~= new.take(k as int));
    }
}

proof fn lemma_every_removed_input_taken(old: Seq<InputView>, new: Seq<InputView>, accept: Seq<Seq<char>>, n: nat)
    requires
        n <= old.len(),
        all_accepted(removed_inputs(old, new, old.len()), accept),
    ensures
        kept_old_inputs(old, new, accept, false, n) == Seq::<InputView>::empty(),
    decreases n,
{
    if n > 0 {
        lemma_every_removed_input_taken(old, new, accept, (n - 1) as nat);
        if !input_names(new).contains(old[n - 1].name) {
            let r = ChangeView::Removed { path: input_path(old[n - 1].name), old: input_summary(old[n - 1]) };
            lemma_removed_inputs_has(old, new, old.len(), n - 1);
            let rd = removed_inputs(old, new, old.len());
            let i = choose|i: int| 0 <= i < rd.len() && rd[i] == r;
            assert(accepts(accept, false, rd[i].path()));
        }
        assert(kept_old_inputs(old, new, accept, false, n) =~= Seq::<InputView>::empty());
    }
}

/// Accepting, path by path, every change of the diff from `old` to `new`
/// gives `new` itself, as accepting everything does.
pub proof fn lemma_every_path_gives_new(old: ContractView, new: ContractView)
    ensures
        merged(old, new, change_paths(contract_diff(old, new)), false) == new,
{
    let d = contract_diff(old, new);
    let accept = change_paths(d);
    assert forall|i: int| 0 <= i < d.len() implies accepts(accept, false, (#[trigger] d[i]).path()) by {
        assert(accept[i] == d[i].path());
        assert(d[i].path().subrange(0, d[i].path().len() as int) =~= d[i].path());
        assert(is_prefix(accept[i], d[i].path()));
    }
    let pn = if old.project.name != new.project.name { seq![ChangeView::Modified { path: "project.name"@, old: old.project.name, new: new.project.name }] } else { seq![] };
    let pd = if old.project.description != new.project.description { seq![ChangeView::Modified { path: "project.description"@, old: old.project.description, new: new.project.description }] } else { seq![] };
    let nd = new_inputs_changes(old.inputs, new.inputs, new.inputs.len());
    let rd = removed_inputs(old.inputs, new.inputs, old.inputs.len());
    assert(d =~= pn + pd + (nd + rd));
    lemma_all_accepted_split(pn + pd, nd + rd, accept);
    lemma_all_accepted_split(pn, pd, accept);
    lemma_all_accepted_split(nd, rd, accept);
    if old.project.name != new.project.name { assert(accepts(accept, false, pn[0].path())); }
    if old.project.description != new.project.description { assert(accepts(accept, false, pd[0].path())); }
    assert forall|k: nat| k <= new.inputs.len() implies merged_new_inputs(old.inputs, new.inputs, accept, false, k) == new.inputs.take(k as int) by {
        lemma_every_new_input_taken(old.inputs, new.inputs, accept, k);
    }
    assert forall|n: nat| n <= old.inputs.len() implies kept_old_inputs(old.inputs, new.inputs, accept, false, n) == Seq::<InputView>::empty() by {
        lemma_every_removed_input_taken(old.inputs, new.inputs, accept, n);
    }
    assert(new.inputs.take(new.inputs.len() as int) =~= new.inputs);
    assert(merged_inputs(old.inputs, new.inputs, accept, false) =~= new.inputs);
    assert(merged(old, new, accept, false) =~= new);
}

/// Saving with `--accept` for every path that the diff lists answers what
/// saving with `--yes` answers.
pub proof fn lemma_accept_every_path_is_yes(
    project: Seq<char>,
    draft: ContractView,
    old: ContractView,
    other: Seq<Seq<char>>,
)
    ensures
        save_answer(project, draft, Some(old), change_paths(contract_diff(old, draft)), false)
            == save_answer(project, draft, Some(old), other, true),
{
    lemma_every_path_gives_new(old, draft);
    crate::workflow::lemma_accept_all_gives_new(old, draft, other);
}

} // verus!
