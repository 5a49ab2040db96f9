//! Every change of a diff between two valid contracts has a path of its
//! own: no two changes share a path. Names and action types are slugs, so
//! the `]` that closes `[<name>]` in a path is the first one after the
//! `[`, and a path determines the field it is about.

use vstd::prelude::*;
use crate::diff::{
    ChangeView, action_added, action_changes, action_path, action_types, actions_added,
    actions_diff, contract_diff, input_added, input_changes, input_names, input_path,
    inputs_diff, new_action_changes, new_actions_changes, new_input_changes, new_inputs_changes,
    new_output_changes, new_outputs_changes, output_added, output_changes, output_names,
    output_path, outputs_added, outputs_diff, project_changes, removed_actions, removed_inputs,
    removed_outputs,
};
use crate::model::{ActionView, ContractView, InputView, OutputView, input_ok, is_valid};

verus! {

/// `q` is a prefix of `p`.
pub open spec fn has_prefix(p: Seq<char>, q: Seq<char>) -> bool {
    q.len() <= p.len() && p.subrange(0, q.len() as int) == q
}

/// No two changes of `cs` share a path.
pub open spec fn paths_distinct(cs: Seq<ChangeView>) -> bool {
    forall|i: int, j: int| 0 <= i < j < cs.len() ==> cs[i].path() != cs[j].path()
}

/// Every change of `cs` has a path that starts with `q`.
pub open spec fn all_under(cs: Seq<ChangeView>, q: Seq<char>) -> bool {
    forall|i: int| 0 <= i < cs.len() ==> has_prefix(#[trigger] cs[i].path(), q)
}

/// A text without `]`.
pub open spec fn no_bracket(n: Seq<char>) -> bool {
    forall|i: int| 0 <= i < n.len() ==> n[i] != ']'
}

proof fn lemma_prefix_of_sum(q: Seq<char>, s: Seq<char>)
    ensures
        has_prefix(q + s, q),
{
    assert((q + s).subrange(0, q.len() as int) =~= q);
}

proof fn lemma_prefix_refl(p: Seq<char>)
    ensures
        has_prefix(p, p),
{
    assert(p.subrange(0, p.len() as int) =~= p);
}

proof fn lemma_prefix_shorter(p: Seq<char>, q: Seq<char>, r: Seq<char>)
    requires
        has_prefix(p, q + r),
    ensures
        has_prefix(p, q),
{
    assert(p.subrange(0, q.len() as int) =~= (q + r).subrange(0, q.len() as int));
    assert((q + r).subrange(0, q.len() as int) =~= q);
}

/// Two bracketed keys that both open `p` after the same `pre` are equal.
proof fn lemma_keyed(p: Seq<char>, pre: Seq<char>, n1: Seq<char>, n2: Seq<char>)
    requires
        no_bracket(n1),
        no_bracket(n2),
        has_prefix(p, pre + n1 + "]"@),
        has_prefix(p, pre + n2 + "]"@),
    ensures
        n1 == n2,
{
    reveal_strlit("]");
    let a = pre + n1 + "]"@;
    let b = pre + n2 + "]"@;
    if n1.len() < n2.len() {
        let i: int = pre.len() as int + n1.len();
        assert(a[i] == ']');
        assert(p[i] == p.subrange(0, a.len() as int)[i]);
        assert(p[i] == p.subrange(0, b.len() as int)[i]);
        assert(b[i] == n2[n1.len() as int]);
    } else if n2.len() < n1.len() {
        let i: int = pre.len() as int + n2.len();
        assert(b[i] == ']');
        assert(p[i] == p.subrange(0, a.len() as int)[i]);
        assert(p[i] == p.subrange(0, b.len() as int)[i]);
        assert(a[i] == n1[n2.len() as int]);
    } else {
        assert(a =~= b);
        assert(n1 =~= a.subrange(pre.len() as int, pre.len() as int + n1.len()));
        assert(n2 =~= b.subrange(pre.len() as int, pre.len() as int + n2.len()));
    }
}

proof fn lemma_distinct_concat(a: Seq<ChangeView>, b: Seq<ChangeView>)
    requires
        paths_distinct(a),
        paths_distinct(b),
        forall|i: int, j: int| 0 <= i < a.len() && 0 <= j < b.len() ==> a[i].path() != b[j].path(),
    ensures
        paths_distinct(a + b),
{
    let c = a + b;
    assert forall|i: int, j: int| 0 <= i < j < c.len() implies c[i].path() != c[j].path() by {
        if j < a.len() {
            assert(c[i] == a[i] && c[j] == a[j]);
        } else if i >= a.len() {
            assert(c[i] == b[i - a.len()] && c[j] == b[j - a.len()]);
        } else {
            assert(c[i] == a[i] && c[j] == b[j - a.len()]);
        }
    }
}

proof fn lemma_under_concat(a: Seq<ChangeView>, b: Seq<ChangeView>, q: Seq<char>)
    requires
        all_under(a, q),
        all_under(b, q),
    ensures
        all_under(a + b, q),
{
    let c = a + b;
    assert forall|i: int| 0 <= i < c.len() implies has_prefix(#[trigger] c[i].path(), q) by {
        if i < a.len() {
            assert(c[i] == a[i]);
        } else {
            assert(c[i] == b[i - a.len()]);
        }
    }
}

// ---------------------------------------------------------------------
// One output, one action
// ---------------------------------------------------------------------

proof fn lemma_literals()
    ensures
        ".description"@.len() == 12 && ".description"@[1] == 'd',
        ".type"@.len() == 5 && ".type"@[1] == 't',
        ".location"@.len() == 9 && ".location"@[1] == 'l',
        ".instructions"@.len() == 13 && ".instructions"@[1] == 'i',
        ".outputs["@.len() == 9 && ".outputs["@[1] == 'o',
        ".actions["@.len() == 9 && ".actions["@[1] == 'a',
        "inputs["@.len() == 7 && "inputs["@[0] == 'i',
        "project.name"@.len() == 12 && "project.name"@[0] == 'p' && "project.name"@[8] == 'n',
        "project.description"@.len() == 19 && "project.description"@[0] == 'p'
            && "project.description"@[8] == 'd',
        "]"@.len() == 1,
{
    reveal_strlit(".description");
    reveal_strlit(".type");
    reveal_strlit(".location");
    reveal_strlit(".instructions");
    reveal_strlit(".outputs[");
    reveal_strlit(".actions[");
    reveal_strlit("inputs[");
    reveal_strlit("project.name");
    reveal_strlit("project.description");
    reveal_strlit("]");
}

proof fn lemma_output_changes_paths(o: OutputView, n: OutputView, base: Seq<char>)
    ensures
        paths_distinct(output_changes(o, n, base)),
        all_under(output_changes(o, n, base), output_path(base, n.name)),
{
    lemma_literals();
    let p = output_path(base, n.name);
    let cs = output_changes(o, n, base);
    lemma_prefix_of_sum(p, ".description"@);
    lemma_prefix_of_sum(p, ".type"@);
    lemma_prefix_of_sum(p, ".location"@);
    assert forall|i: int, j: int| 0 <= i < j < cs.len() implies cs[i].path() != cs[j].path() by {
        assert(cs[i].path().len() != cs[j].path().len());
    }
    assert forall|i: int| 0 <= i < cs.len() implies has_prefix(#[trigger] cs[i].path(), p) by {}
}


pub(crate) proof fn lemma_output_added_paths(path: Seq<char>, n: OutputView)
    ensures
        paths_distinct(output_added(path, n)),
        all_under(output_added(path, n), path),
{
    lemma_literals();
    let cs = output_added(path, n);
    lemma_prefix_of_sum(path, ".description"@);
    lemma_prefix_of_sum(path, ".type"@);
    lemma_prefix_of_sum(path, ".location"@);
    assert(has_prefix(path, path)) by {
        assert(path.subrange(0, path.len() as int) =~= path);
    }
    assert forall|i: int, j: int| 0 <= i < j < cs.len() implies cs[i].path() != cs[j].path() by {
        assert(cs[i].path().len() != cs[j].path().len());
    }
    assert forall|i: int| 0 <= i < cs.len() implies has_prefix(#[trigger] cs[i].path(), path) by {}
}

proof fn lemma_action_changes_paths(o: ActionView, n: ActionView, base: Seq<char>)
    ensures
        paths_distinct(action_changes(o, n, base)),
        all_under(action_changes(o, n, base), action_path(base, n.action_type)),
{
    lemma_literals();
    let p = action_path(base, n.action_type);
    lemma_prefix_of_sum(p, ".instructions"@);
}

pub(crate) proof fn lemma_action_added_paths(path: Seq<char>, n: ActionView)
    ensures
        paths_distinct(action_added(path, n)),
        all_under(action_added(path, n), path),
{
    lemma_literals();
    let cs = action_added(path, n);
    lemma_prefix_of_sum(path, ".instructions"@);
    assert(has_prefix(path, path)) by {
        assert(path.subrange(0, path.len() as int) =~= path);
    }
    assert forall|i: int, j: int| 0 <= i < j < cs.len() implies cs[i].path() != cs[j].path() by {
        assert(cs[i].path().len() != cs[j].path().len());
    }
    assert forall|i: int| 0 <= i < cs.len() implies has_prefix(#[trigger] cs[i].path(), path) by {}
}

// ---------------------------------------------------------------------
// Lists of outputs
// ---------------------------------------------------------------------

/// Every name of `s` is a bracket-free key, and no two are equal.
pub open spec fn good_keys(keys: Seq<Seq<char>>) -> bool {
    &&& forall|k: int| 0 <= k < keys.len() ==> no_bracket(#[trigger] keys[k])
    &&& crate::diff::distinct_keys(keys)
}

proof fn lemma_new_outputs_paths(old: Seq<OutputView>, new: Seq<OutputView>, base: Seq<char>, n: nat)
    requires
        n <= new.len(),
        good_keys(output_names(new)),
    ensures
        paths_distinct(new_outputs_changes(old, new, base, n)),
        forall|i: int|
            0 <= i < new_outputs_changes(old, new, base, n).len() ==> exists|k: int|
                0 <= k < n && has_prefix(
                    #[trigger] new_outputs_changes(old, new, base, n)[i].path(),
                    output_path(base, new[k].name),
                ),
    decreases n,
{
    if n > 0 {
        lemma_new_outputs_paths(old, new, base, (n - 1) as nat);
        let prev = new_outputs_changes(old, new, base, (n - 1) as nat);
        let g = new_output_changes(old, new[n - 1], base);
        let cur = new_outputs_changes(old, new, base, n);
        let key = output_path(base, new[n - 1].name);
        match output_names(old).index_of_first(new[n - 1].name) {
            Some(j) => lemma_output_changes_paths(old[j], new[n - 1], base),
            None => lemma_output_added_paths(key, new[n - 1]),
        }
        assert(output_names(new)[n - 1] == new[n - 1].name);
        assert forall|i: int, j: int| 0 <= i < prev.len() && 0 <= j < g.len() implies prev[i].path()
            != g[j].path() by {
            let k = choose|k: int| 0 <= k < n - 1 && has_prefix(prev[i].path(), output_path(base, new[k].name));
            assert(has_prefix(g[j].path(), key));
            assert(output_names(new)[k] == new[k].name);
            if prev[i].path() == g[j].path() {
                lemma_keyed(g[j].path(), base + ".outputs["@, new[k].name, new[n - 1].name);
            }
        }
        lemma_distinct_concat(prev, g);
        assert forall|i: int| 0 <= i < cur.len() implies exists|k: int|
            0 <= k < n && has_prefix(#[trigger] cur[i].path(), output_path(base, new[k].name)) by {
            if i < prev.len() {
                assert(cur[i] == prev[i]);
                let k = choose|k: int| 0 <= k < n - 1 && has_prefix(prev[i].path(), output_path(base, new[k].name));
                assert(has_prefix(cur[i].path(), output_path(base, new[k].name)));
            } else {
                assert(cur[i] == g[i - prev.len()]);
                assert(has_prefix(cur[i].path(), key));
            }
        }
    }
}

proof fn lemma_removed_outputs_paths(old: Seq<OutputView>, new: Seq<OutputView>, base: Seq<char>, n: nat)
    requires
        n <= old.len(),
        good_keys(output_names(old)),
    ensures
        paths_distinct(removed_outputs(old, new, base, n)),
        forall|i: int|
            0 <= i < removed_outputs(old, new, base, n).len() ==> exists|m: int|
                0 <= m < n && (#[trigger] removed_outputs(old, new, base, n)[i]).path() == output_path(
                    base,
                    old[m].name,
                ) && !output_names(new).contains(old[m].name),
    decreases n,
{
    if n > 0 {
        lemma_removed_outputs_paths(old, new, base, (n - 1) as nat);
        let prev = removed_outputs(old, new, base, (n - 1) as nat);
        let cur = removed_outputs(old, new, base, n);
        if output_names(new).contains(old[n - 1].name) {
            assert(cur =~= prev);
        } else {
            let key = output_path(base, old[n - 1].name);
            let g = seq![ChangeView::Removed { path: key, old: crate::diff::output_summary(old[n - 1]) }];
            assert(cur == prev + g);
            assert(output_names(old)[n - 1] == old[n - 1].name);
            assert forall|i: int, j: int| 0 <= i < prev.len() && 0 <= j < g.len() implies prev[i].path()
                != g[j].path() by {
                let m = choose|m: int| 0 <= m < n - 1 && prev[i].path() == output_path(base, old[m].name)
                    && !output_names(new).contains(old[m].name);
                assert(output_names(old)[m] == old[m].name);
                if prev[i].path() == g[j].path() {
                    lemma_prefix_of_sum(key, Seq::empty());
                    assert(key + Seq::<char>::empty() =~= key);
                    lemma_prefix_of_sum(output_path(base, old[m].name), Seq::empty());
                    assert(output_path(base, old[m].name) + Seq::<char>::empty() =~= output_path(base, old[m].name));
                    lemma_keyed(key, base + ".outputs["@, old[m].name, old[n - 1].name);
                }
            }
            lemma_distinct_concat(prev, g);
            assert forall|i: int| 0 <= i < cur.len() implies exists|m: int|
                0 <= m < n && (#[trigger] cur[i]).path() == output_path(base, old[m].name)
                    && !output_names(new).contains(old[m].name) by {
                if i < prev.len() {
                    assert(cur[i] == prev[i]);
                } else {
                    assert(cur[i] == g[0]);
                }
            }
        }
    }
}

/// The changes between two lists of outputs with good keys have paths of
/// their own, each under `base.outputs[`.
proof fn lemma_outputs_diff_paths(old: Seq<OutputView>, new: Seq<OutputView>, base: Seq<char>)
    requires
        good_keys(output_names(old)),
        good_keys(output_names(new)),
    ensures
        paths_distinct(outputs_diff(old, new, base)),
        all_under(outputs_diff(old, new, base), base + ".outputs["@),
{
    let a = new_outputs_changes(old, new, base, new.len());
    let b = removed_outputs(old, new, base, old.len());
    lemma_new_outputs_paths(old, new, base, new.len());
    lemma_removed_outputs_paths(old, new, base, old.len());
    assert forall|i: int, j: int| 0 <= i < a.len() && 0 <= j < b.len() implies a[i].path() != b[j].path() by {
        let k = choose|k: int| 0 <= k < new.len() && has_prefix(a[i].path(), output_path(base, new[k].name));
        let m = choose|m: int| 0 <= m < old.len() && b[j].path() == output_path(base, old[m].name)
            && !output_names(new).contains(old[m].name);
        assert(output_names(new)[k] == new[k].name);
        assert(output_names(old)[m] == old[m].name);
        if a[i].path() == b[j].path() {
            let q = output_path(base, old[m].name);
            assert(q.subrange(0, q.len() as int) =~= q);
            lemma_keyed(q, base + ".outputs["@, new[k].name, old[m].name);
        }
    }
    lemma_distinct_concat(a, b);
    let c = outputs_diff(old, new, base);
    assert forall|i: int| 0 <= i < c.len() implies has_prefix(#[trigger] c[i].path(), base + ".outputs["@) by {
        if i < a.len() {
            assert(c[i] == a[i]);
            let k = choose|k: int| 0 <= k < new.len() && has_prefix(a[i].path(), output_path(base, new[k].name));
            lemma_prefix_shorter(c[i].path(), base + ".outputs["@ + new[k].name, "]"@);
            lemma_prefix_shorter(c[i].path(), base + ".outputs["@, new[k].name);
        } else {
            assert(c[i] == b[i - a.len()]);
            let m = choose|m: int| 0 <= m < old.len() && b[i - a.len()].path() == output_path(base, old[m].name)
                && !output_names(new).contains(old[m].name);
            assert(c[i].path().subrange(0, c[i].path().len() as int) =~= c[i].path());
            lemma_prefix_shorter(c[i].path(), base + ".outputs["@ + old[m].name, "]"@);
            lemma_prefix_shorter(c[i].path(), base + ".outputs["@, old[m].name);
        }
    }
}

// ---------------------------------------------------------------------
// Lists of actions
// ---------------------------------------------------------------------

proof fn lemma_new_actions_paths(old: Seq<ActionView>, new: Seq<ActionView>, base: Seq<char>, n: nat)
    requires
        n <= new.len(),
        good_keys(action_types(new)),
    ensures
        paths_distinct(new_actions_changes(old, new, base, n)),
        forall|i: int|
            0 <= i < new_actions_changes(old, new, base, n).len() ==> exists|k: int|
                0 <= k < n && has_prefix(
                    #[trigger] new_actions_changes(old, new, base, n)[i].path(),
                    action_path(base, new[k].action_type),
                ),
    decreases n,
{
    if n > 0 {
        lemma_new_actions_paths(old, new, base, (n - 1) as nat);
        let prev = new_actions_changes(old, new, base, (n - 1) as nat);
        let g = new_action_changes(old, new[n - 1], base);
        let cur = new_actions_changes(old, new, base, n);
        let key = action_path(base, new[n - 1].action_type);
        match action_types(old).index_of_first(new[n - 1].action_type) {
            Some(j) => lemma_action_changes_paths(old[j], new[n - 1], base),
            None => lemma_action_added_paths(key, new[n - 1]),
        }
        assert(action_types(new)[n - 1] == new[n - 1].action_type);
        assert forall|i: int, j: int| 0 <= i < prev.len() && 0 <= j < g.len() implies prev[i].path()
            != g[j].path() by {
            let k = choose|k: int| 0 <= k < n - 1 && has_prefix(prev[i].path(), action_path(base, new[k].action_type));
            assert(has_prefix(g[j].path(), key));
            assert(action_types(new)[k] == new[k].action_type);
            if prev[i].path() == g[j].path() {
                lemma_keyed(g[j].path(), base + ".actions["@, new[k].action_type, new[n - 1].action_type);
            }
        }
        lemma_distinct_concat(prev, g);
        assert forall|i: int| 0 <= i < cur.len() implies exists|k: int|
            0 <= k < n && has_prefix(#[trigger] cur[i].path(), action_path(base, new[k].action_type)) by {
            if i < prev.len() {
                assert(cur[i] == prev[i]);
                let k = choose|k: int| 0 <= k < n - 1 && has_prefix(prev[i].path(), action_path(base, new[k].action_type));
                assert(has_prefix(cur[i].path(), action_path(base, new[k].action_type)));
            } else {
                assert(cur[i] == g[i - prev.len()]);
                assert(has_prefix(cur[i].path(), key));
            }
        }
    }
}

proof fn lemma_removed_actions_paths(old: Seq<ActionView>, new: Seq<ActionView>, base: Seq<char>, n: nat)
    requires
        n <= old.len(),
        good_keys(action_types(old)),
    ensures
        paths_distinct(removed_actions(old, new, base, n)),
        forall|i: int|
            0 <= i < removed_actions(old, new, base, n).len() ==> exists|m: int|
                0 <= m < n && (#[trigger] removed_actions(old, new, base, n)[i]).path() == action_path(
                    base,
                    old[m].action_type,
                ) && !action_types(new).contains(old[m].action_type),
    decreases n,
{
    if n > 0 {
        lemma_removed_actions_paths(old, new, base, (n - 1) as nat);
        let prev = removed_actions(old, new, base, (n - 1) as nat);
        let cur = removed_actions(old, new, base, n);
        if action_types(new).contains(old[n - 1].action_type) {
            assert(cur =~= prev);
        } else {
            let key = action_path(base, old[n - 1].action_type);
            let g = seq![ChangeView::Removed { path: key, old: old[n - 1].instructions }];
            assert(cur == prev + g);
            assert(action_types(old)[n - 1] == old[n - 1].action_type);
            assert forall|i: int, j: int| 0 <= i < prev.len() && 0 <= j < g.len() implies prev[i].path()
                != g[j].path() by {
                let m = choose|m: int| 0 <= m < n - 1 && prev[i].path() == action_path(base, old[m].action_type)
                    && !action_types(new).contains(old[m].action_type);
                assert(action_types(old)[m] == old[m].action_type);
                if prev[i].path() == g[j].path() {
                    lemma_prefix_of_sum(key, Seq::empty());
                    assert(key + Seq::<char>::empty() =~= key);
                    lemma_prefix_of_sum(action_path(base, old[m].action_type), Seq::empty());
                    assert(action_path(base, old[m].action_type) + Seq::<char>::empty() =~= action_path(base, old[m].action_type));
                    lemma_keyed(key, base + ".actions["@, old[m].action_type, old[n - 1].action_type);
                }
            }
            lemma_distinct_concat(prev, g);
            assert forall|i: int| 0 <= i < cur.len() implies exists|m: int|
                0 <= m < n && (#[trigger] cur[i]).path() == action_path(base, old[m].action_type)
                    && !action_types(new).contains(old[m].action_type) by {
                if i < prev.len() {
                    assert(cur[i] == prev[i]);
                } else {
                    assert(cur[i] == g[0]);
                }
            }
        }
    }
}

/// The changes between two lists of actions with good keys have paths of
/// their own, each under `base.actions[`.
proof fn lemma_actions_diff_paths(old: Seq<ActionView>, new: Seq<ActionView>, base: Seq<char>)
    requires
        good_keys(action_types(old)),
        good_keys(action_types(new)),
    ensures
        paths_distinct(actions_diff(old, new, base)),
        all_under(actions_diff(old, new, base), base + ".actions["@),
{
    let a = new_actions_changes(old, new, base, new.len());
    let b = removed_actions(old, new, base, old.len());
    lemma_new_actions_paths(old, new, base, new.len());
    lemma_removed_actions_paths(old, new, base, old.len());
    assert forall|i: int, j: int| 0 <= i < a.len() && 0 <= j < b.len() implies a[i].path() != b[j].path() by {
        let k = choose|k: int| 0 <= k < new.len() && has_prefix(a[i].path(), action_path(base, new[k].action_type));
        let m = choose|m: int| 0 <= m < old.len() && b[j].path() == action_path(base, old[m].action_type)
            && !action_types(new).contains(old[m].action_type);
        assert(action_types(new)[k] == new[k].action_type);
        assert(action_types(old)[m] == old[m].action_type);
        if a[i].path() == b[j].path() {
            let q = action_path(base, old[m].action_type);
            assert(q.subrange(0, q.len() as int) =~= q);
            lemma_keyed(q, base + ".actions["@, new[k].action_type, old[m].action_type);
        }
    }
    lemma_distinct_concat(a, b);
    let c = actions_diff(old, new, base);
    assert forall|i: int| 0 <= i < c.len() implies has_prefix(#[trigger] c[i].path(), base + ".actions["@) by {
        if i < a.len() {
            assert(c[i] == a[i]);
            let k = choose|k: int| 0 <= k < new.len() && has_prefix(a[i].path(), action_path(base, new[k].action_type));
            lemma_prefix_shorter(c[i].path(), base + ".actions["@ + new[k].action_type, "]"@);
            lemma_prefix_shorter(c[i].path(), base + ".actions["@, new[k].action_type);
        } else {
            assert(c[i] == b[i - a.len()]);
            let m = choose|m: int| 0 <= m < old.len() && b[i - a.len()].path() == action_path(base, old[m].action_type)
                && !action_types(new).contains(old[m].action_type);
            assert(c[i].path().subrange(0, c[i].path().len() as int) =~= c[i].path());
            lemma_prefix_shorter(c[i].path(), base + ".actions["@ + old[m].action_type, "]"@);
            lemma_prefix_shorter(c[i].path(), base + ".actions["@, old[m].action_type);
        }
    }
}

// ---------------------------------------------------------------------
// Outputs and actions of an added input
// ---------------------------------------------------------------------

proof fn lemma_outputs_added_paths(base: Seq<char>, outs: Seq<OutputView>, n: nat)
    requires
        n <= outs.len(),
        good_keys(output_names(outs)),
    ensures
        paths_distinct(outputs_added(base, outs, n)),
        forall|i: int|
            0 <= i < outputs_added(base, outs, n).len() ==> exists|k: int|
                0 <= k < n && has_prefix(
                    #[trigger] outputs_added(base, outs, n)[i].path(),
                    output_path(base, outs[k].name),
                ),
    decreases n,
{
    if n > 0 {
        lemma_outputs_added_paths(base, outs, (n - 1) as nat);
        let prev = outputs_added(base, outs, (n - 1) as nat);
        let key = output_path(base, outs[n - 1].name);
        let g = output_added(key, outs[n - 1]);
        let cur = outputs_added(base, outs, n);
        lemma_output_added_paths(key, outs[n - 1]);
        assert(output_names(outs)[n - 1] == outs[n - 1].name);
        assert forall|i: int, j: int| 0 <= i < prev.len() && 0 <= j < g.len() implies prev[i].path()
            != g[j].path() by {
            let k = choose|k: int| 0 <= k < n - 1 && has_prefix(prev[i].path(), output_path(base, outs[k].name));
            assert(output_names(outs)[k] == outs[k].name);
            if prev[i].path() == g[j].path() {
                lemma_keyed(g[j].path(), base + ".outputs["@, outs[k].name, outs[n - 1].name);
            }
        }
        lemma_distinct_concat(prev, g);
        assert forall|i: int| 0 <= i < cur.len() implies exists|k: int|
            0 <= k < n && has_prefix(#[trigger] cur[i].path(), output_path(base, outs[k].name)) by {
            if i < prev.len() {
                assert(cur[i] == prev[i]);
                let k = choose|k: int| 0 <= k < n - 1 && has_prefix(prev[i].path(), output_path(base, outs[k].name));
                assert(has_prefix(cur[i].path(), output_path(base, outs[k].name)));
            } else {
                assert(cur[i] == g[i - prev.len()]);
                assert(has_prefix(cur[i].path(), key));
            }
        }
    }
}

proof fn lemma_actions_added_paths(base: Seq<char>, acts: Seq<ActionView>, n: nat)
    requires
        n <= acts.len(),
        good_keys(action_types(acts)),
    ensures
        paths_distinct(actions_added(base, acts, n)),
        forall|i: int|
            0 <= i < actions_added(base, acts, n).len() ==> exists|k: int|
                0 <= k < n && has_prefix(
                    #[trigger] actions_added(base, acts, n)[i].path(),
                    action_path(base, acts[k].action_type),
                ),
    decreases n,
{
    if n > 0 {
        lemma_actions_added_paths(base, acts, (n - 1) as nat);
        let prev = actions_added(base, acts, (n - 1) as nat);
        let key = action_path(base, acts[n - 1].action_type);
        let g = action_added(key, acts[n - 1]);
        let cur = actions_added(base, acts, n);
        lemma_action_added_paths(key, acts[n - 1]);
        assert(action_types(acts)[n - 1] == acts[n - 1].action_type);
        assert forall|i: int, j: int| 0 <= i < prev.len() && 0 <= j < g.len() implies prev[i].path()
            != g[j].path() by {
            let k = choose|k: int| 0 <= k < n - 1 && has_prefix(prev[i].path(), action_path(base, acts[k].action_type));
            assert(action_types(acts)[k] == acts[k].action_type);
            if prev[i].path() == g[j].path() {
                lemma_keyed(g[j].path(), base + ".actions["@, acts[k].action_type, acts[n - 1].action_type);
            }
        }
        lemma_distinct_concat(prev, g);
        assert forall|i: int| 0 <= i < cur.len() implies exists|k: int|
            0 <= k < n && has_prefix(#[trigger] cur[i].path(), action_path(base, acts[k].action_type)) by {
            if i < prev.len() {
                assert(cur[i] == prev[i]);
                let k = choose|k: int| 0 <= k < n - 1 && has_prefix(prev[i].path(), action_path(base, acts[k].action_type));
                assert(has_prefix(cur[i].path(), action_path(base, acts[k].action_type)));
            } else {
                assert(cur[i] == g[i - prev.len()]);
                assert(has_prefix(cur[i].path(), key));
            }
        }
    }
}

proof fn lemma_outputs_added_under(base: Seq<char>, outs: Seq<OutputView>)
    requires
        good_keys(output_names(outs)),
    ensures
        paths_distinct(outputs_added(base, outs, outs.len())),
        all_under(outputs_added(base, outs, outs.len()), base + ".outputs["@),
{
    lemma_outputs_added_paths(base, outs, outs.len());
    let c = outputs_added(base, outs, outs.len());
    assert forall|i: int| 0 <= i < c.len() implies has_prefix(#[trigger] c[i].path(), base + ".outputs["@) by {
        let k = choose|k: int| 0 <= k < outs.len() && has_prefix(c[i].path(), output_path(base, outs[k].name));
        lemma_prefix_shorter(c[i].path(), base + ".outputs["@ + outs[k].name, "]"@);
        lemma_prefix_shorter(c[i].path(), base + ".outputs["@, outs[k].name);
    }
}

proof fn lemma_actions_added_under(base: Seq<char>, acts: Seq<ActionView>)
    requires
        good_keys(action_types(acts)),
    ensures
        paths_distinct(actions_added(base, acts, acts.len())),
        all_under(actions_added(base, acts, acts.len()), base + ".actions["@),
{
    lemma_actions_added_paths(base, acts, acts.len());
    let c = actions_added(base, acts, acts.len());
    assert forall|i: int| 0 <= i < c.len() implies has_prefix(#[trigger] c[i].path(), base + ".actions["@) by {
        let k = choose|k: int| 0 <= k < acts.len() && has_prefix(c[i].path(), action_path(base, acts[k].action_type));
        lemma_prefix_shorter(c[i].path(), base + ".actions["@ + acts[k].action_type, "]"@);
        lemma_prefix_shorter(c[i].path(), base + ".actions["@, acts[k].action_type);
    }
}

// ---------------------------------------------------------------------
// One input
// ---------------------------------------------------------------------

/// Every path of `cs` goes on past position `idx` and has `ch` there.
pub open spec fn char_at_is(cs: Seq<ChangeView>, idx: int, ch: char) -> bool {
    forall|i: int| 0 <= i < cs.len() ==> (#[trigger] cs[i].path()).len() > idx && cs[i].path()[idx] == ch
}

/// Every path of `cs` goes on past position `idx` and has no `ch` there.
pub open spec fn char_at_not(cs: Seq<ChangeView>, idx: int, ch: char) -> bool {
    forall|i: int| 0 <= i < cs.len() ==> (#[trigger] cs[i].path()).len() > idx && cs[i].path()[idx] != ch
}

proof fn lemma_char_at(cs: Seq<ChangeView>, base: Seq<char>, t: Seq<char>)
    requires
        all_under(cs, base + t),
        t.len() >= 2,
    ensures
        char_at_is(cs, base.len() as int + 1, t[1]),
{
    assert forall|i: int| 0 <= i < cs.len() implies (#[trigger] cs[i].path()).len() > base.len() as int + 1
        && cs[i].path()[base.len() as int + 1] == t[1] by {
        let p = cs[i].path();
        assert(has_prefix(p, base + t));
        assert(p[base.len() as int + 1] == p.subrange(0, (base + t).len() as int)[base.len() as int + 1]);
        assert((base + t)[base.len() as int + 1] == t[1]);
    }
}

proof fn lemma_cross(x: Seq<ChangeView>, y: Seq<ChangeView>, idx: int, ch: char)
    requires
        char_at_not(x, idx, ch),
        char_at_is(y, idx, ch),
    ensures
        forall|i: int, j: int| 0 <= i < x.len() && 0 <= j < y.len() ==> x[i].path() != y[j].path(),
{
    assert forall|i: int, j: int| 0 <= i < x.len() && 0 <= j < y.len() implies x[i].path() != y[j].path() by {
        assert(x[i].path()[idx] != ch);
        assert(y[j].path()[idx] == ch);
    }
}

proof fn lemma_not_concat(a: Seq<ChangeView>, b: Seq<ChangeView>, idx: int, ch: char)
    requires
        char_at_not(a, idx, ch),
        char_at_not(b, idx, ch),
    ensures
        char_at_not(a + b, idx, ch),
{
    let c = a + b;
    assert forall|i: int| 0 <= i < c.len() implies (#[trigger] c[i].path()).len() > idx && c[i].path()[idx] != ch by {
        if i < a.len() {
            assert(c[i] == a[i]);
        } else {
            assert(c[i] == b[i - a.len()]);
        }
    }
}

proof fn lemma_is_not(cs: Seq<ChangeView>, idx: int, ch: char, other: char)
    requires
        char_at_is(cs, idx, ch),
        ch != other,
    ensures
        char_at_not(cs, idx, other),
{
}

/// The input's keys are good: its outputs' names and its actions' types.
pub open spec fn input_keys_good(i: InputView) -> bool {
    good_keys(output_names(i.outputs)) && good_keys(action_types(i.actions))
}

proof fn lemma_input_changes_paths(o: InputView, n: InputView)
    requires
        input_keys_good(o),
        input_keys_good(n),
    ensures
        paths_distinct(input_changes(o, n)),
        all_under(input_changes(o, n), input_path(n.name)),
{
    lemma_literals();
    let base = input_path(n.name);
    let idx = base.len() as int + 1;
    let d = if o.description != n.description {
        seq![ChangeView::Modified { path: base + ".description"@, old: o.description, new: n.description }]
    } else {
        Seq::<ChangeView>::empty()
    };
    let t = if o.input_type != n.input_type {
        seq![
            ChangeView::Modified {
                path: base + ".type"@,
                old: crate::diff::opt_input_type_text(o.input_type),
                new: crate::diff::opt_input_type_text(n.input_type),
            },
        ]
    } else {
        Seq::<ChangeView>::empty()
    };
    let od = outputs_diff(o.outputs, n.outputs, base);
    let ad = actions_diff(o.actions, n.actions, base);
    assert(input_changes(o, n) == d + t + od + ad);
    lemma_prefix_of_sum(base, ".description"@);
    lemma_prefix_of_sum(base, ".type"@);
    lemma_prefix_refl(base + ".description"@);
    lemma_prefix_refl(base + ".type"@);
    assert(all_under(d, base + ".description"@));
    assert(all_under(t, base + ".type"@));
    lemma_char_at(d, base, ".description"@);
    lemma_char_at(t, base, ".type"@);
    lemma_outputs_diff_paths(o.outputs, n.outputs, base);
    lemma_actions_diff_paths(o.actions, n.actions, base);
    lemma_char_at(od, base, ".outputs["@);
    lemma_char_at(ad, base, ".actions["@);
    lemma_is_not(d, idx, 'd', 't');
    lemma_cross(d, t, idx, 't');
    lemma_distinct_concat(d, t);
    lemma_is_not(d, idx, 'd', 'o');
    lemma_is_not(t, idx, 't', 'o');
    lemma_not_concat(d, t, idx, 'o');
    lemma_cross(d + t, od, idx, 'o');
    lemma_distinct_concat(d + t, od);
    lemma_is_not(d, idx, 'd', 'a');
    lemma_is_not(t, idx, 't', 'a');
    lemma_is_not(od, idx, 'o', 'a');
    lemma_not_concat(d, t, idx, 'a');
    lemma_not_concat(d + t, od, idx, 'a');
    lemma_cross(d + t + od, ad, idx, 'a');
    lemma_distinct_concat(d + t + od, ad);
    assert forall|i: int| 0 <= i < d.len() implies has_prefix(#[trigger] d[i].path(), base) by {
        lemma_prefix_shorter(d[i].path(), base, ".description"@);
    }
    assert forall|i: int| 0 <= i < t.len() implies has_prefix(#[trigger] t[i].path(), base) by {
        lemma_prefix_shorter(t[i].path(), base, ".type"@);
    }
    assert forall|i: int| 0 <= i < od.len() implies has_prefix(#[trigger] od[i].path(), base) by {
        lemma_prefix_shorter(od[i].path(), base, ".outputs["@);
    }
    assert forall|i: int| 0 <= i < ad.len() implies has_prefix(#[trigger] ad[i].path(), base) by {
        lemma_prefix_shorter(ad[i].path(), base, ".actions["@);
    }
    lemma_under_concat(d, t, base);
    lemma_under_concat(d + t, od, base);
    lemma_under_concat(d + t + od, ad, base);
}

pub(crate) proof fn lemma_input_added_paths(n: InputView)
    requires
        input_keys_good(n),
    ensures
        paths_distinct(
            seq![ChangeView::Added { path: input_path(n.name), value: crate::diff::input_summary(n) }]
                + input_added(input_path(n.name), n),
        ),
        all_under(
            seq![ChangeView::Added { path: input_path(n.name), value: crate::diff::input_summary(n) }]
                + input_added(input_path(n.name), n),
            input_path(n.name),
        ),
{
    lemma_literals();
    let base = input_path(n.name);
    let idx = base.len() as int + 1;
    let w = seq![ChangeView::Added { path: base, value: crate::diff::input_summary(n) }];
    let d = if n.description.len() != 0 {
        seq![ChangeView::Added { path: base + ".description"@, value: n.description }]
    } else {
        Seq::<ChangeView>::empty()
    };
    let t = match n.input_type {
        Some(x) => seq![ChangeView::Added { path: base + ".type"@, value: crate::diff::input_type_text(x) }],
        None => Seq::<ChangeView>::empty(),
    };
    let oa = outputs_added(base, n.outputs, n.outputs.len());
    let aa = actions_added(base, n.actions, n.actions.len());
    assert(input_added(base, n) == d + t + oa + aa);
    lemma_prefix_of_sum(base, ".description"@);
    lemma_prefix_of_sum(base, ".type"@);
    lemma_prefix_refl(base + ".description"@);
    lemma_prefix_refl(base + ".type"@);
    assert(all_under(d, base + ".description"@));
    assert(all_under(t, base + ".type"@));
    lemma_char_at(d, base, ".description"@);
    lemma_char_at(t, base, ".type"@);
    lemma_outputs_added_under(base, n.outputs);
    lemma_actions_added_under(base, n.actions);
    lemma_char_at(oa, base, ".outputs["@);
    lemma_char_at(aa, base, ".actions["@);
    lemma_is_not(d, idx, 'd', 't');
    lemma_cross(d, t, idx, 't');
    lemma_distinct_concat(d, t);
    lemma_is_not(d, idx, 'd', 'o');
    lemma_is_not(t, idx, 't', 'o');
    lemma_not_concat(d, t, idx, 'o');
    lemma_cross(d + t, oa, idx, 'o');
    lemma_distinct_concat(d + t, oa);
    lemma_is_not(d, idx, 'd', 'a');
    lemma_is_not(t, idx, 't', 'a');
    lemma_is_not(oa, idx, 'o', 'a');
    lemma_not_concat(d, t, idx, 'a');
    lemma_not_concat(d + t, oa, idx, 'a');
    lemma_cross(d + t + oa, aa, idx, 'a');
    lemma_distinct_concat(d + t + oa, aa);
    let rest = d + t + oa + aa;
    assert(char_at_not(d, idx, 'x'));
    assert(char_at_not(t, idx, 'x'));
    assert(char_at_not(oa, idx, 'x'));
    assert(char_at_not(aa, idx, 'x'));
    lemma_not_concat(d, t, idx, 'x');
    lemma_not_concat(d + t, oa, idx, 'x');
    lemma_not_concat(d + t + oa, aa, idx, 'x');
    assert forall|i: int, j: int| 0 <= i < w.len() && 0 <= j < rest.len() implies w[i].path() != rest[j].path() by {
        assert(rest[j].path().len() > idx);
    }
    lemma_distinct_concat(w, rest);
    assert forall|i: int| 0 <= i < d.len() implies has_prefix(#[trigger] d[i].path(), base) by {
        lemma_prefix_shorter(d[i].path(), base, ".description"@);
    }
    assert forall|i: int| 0 <= i < t.len() implies has_prefix(#[trigger] t[i].path(), base) by {
        lemma_prefix_shorter(t[i].path(), base, ".type"@);
    }
    assert forall|i: int| 0 <= i < oa.len() implies has_prefix(#[trigger] oa[i].path(), base) by {
        lemma_prefix_shorter(oa[i].path(), base, ".outputs["@);
    }
    assert forall|i: int| 0 <= i < aa.len() implies has_prefix(#[trigger] aa[i].path(), base) by {
        lemma_prefix_shorter(aa[i].path(), base, ".actions["@);
    }
    assert(has_prefix(base, base)) by {
        assert(base.subrange(0, base.len() as int) =~= base);
    }
    lemma_under_concat(d, t, base);
    lemma_under_concat(d + t, oa, base);
    lemma_under_concat(d + t + oa, aa, base);
    lemma_under_concat(w, rest, base);
}

// ---------------------------------------------------------------------
// Lists of inputs, and the whole contract
// ---------------------------------------------------------------------

/// Every input's keys are good.
pub open spec fn inputs_keys_good(s: Seq<InputView>) -> bool {
    forall|k: int| 0 <= k < s.len() ==> input_keys_good(#[trigger] s[k])
}

proof fn lemma_new_inputs_paths(old: Seq<InputView>, new: Seq<InputView>, n: nat)
    requires
        n <= new.len(),
        good_keys(input_names(new)),
        inputs_keys_good(old),
        inputs_keys_good(new),
    ensures
        paths_distinct(new_inputs_changes(old, new, n)),
        forall|i: int|
            0 <= i < new_inputs_changes(old, new, n).len() ==> exists|k: int|
                0 <= k < n && has_prefix(
                    #[trigger] new_inputs_changes(old, new, n)[i].path(),
                    input_path(new[k].name),
                ),
    decreases n,
{
    if n > 0 {
        lemma_new_inputs_paths(old, new, (n - 1) as nat);
        let prev = new_inputs_changes(old, new, (n - 1) as nat);
        let g = new_input_changes(old, new[n - 1]);
        let cur = new_inputs_changes(old, new, n);
        let key = input_path(new[n - 1].name);
        assert(input_keys_good(new[n - 1]));
        input_names(old).index_of_first_ensures(new[n - 1].name);
        match input_names(old).index_of_first(new[n - 1].name) {
            Some(j) => {
                assert(input_keys_good(old[j]));
                lemma_input_changes_paths(old[j], new[n - 1]);
            },
            None => lemma_input_added_paths(new[n - 1]),
        }
        assert(input_names(new)[n - 1] == new[n - 1].name);
        assert forall|i: int, j: int| 0 <= i < prev.len() && 0 <= j < g.len() implies prev[i].path()
            != g[j].path() by {
            let k = choose|k: int| 0 <= k < n - 1 && has_prefix(prev[i].path(), input_path(new[k].name));
            assert(has_prefix(g[j].path(), key));
            assert(input_names(new)[k] == new[k].name);
            if prev[i].path() == g[j].path() {
                lemma_keyed(g[j].path(), "inputs["@, new[k].name, new[n - 1].name);
            }
        }
        lemma_distinct_concat(prev, g);
        assert forall|i: int| 0 <= i < cur.len() implies exists|k: int|
            0 <= k < n && has_prefix(#[trigger] cur[i].path(), input_path(new[k].name)) by {
            if i < prev.len() {
                assert(cur[i] == prev[i]);
                let k = choose|k: int| 0 <= k < n - 1 && has_prefix(prev[i].path(), input_path(new[k].name));
                assert(has_prefix(cur[i].path(), input_path(new[k].name)));
            } else {
                assert(cur[i] == g[i - prev.len()]);
                assert(has_prefix(cur[i].path(), key));
            }
        }
    }
}

proof fn lemma_removed_inputs_paths(old: Seq<InputView>, new: Seq<InputView>, n: nat)
    requires
        n <= old.len(),
        good_keys(input_names(old)),
    ensures
        paths_distinct(removed_inputs(old, new, n)),
        forall|i: int|
            0 <= i < removed_inputs(old, new, n).len() ==> exists|m: int|
                0 <= m < n && (#[trigger] removed_inputs(old, new, n)[i]).path() == input_path(
                    old[m].name,
                ) && !input_names(new).contains(old[m].name),
    decreases n,
{
    if n > 0 {
        lemma_removed_inputs_paths(old, new, (n - 1) as nat);
        let prev = removed_inputs(old, new, (n - 1) as nat);
        let cur = removed_inputs(old, new, n);
        if input_names(new).contains(old[n - 1].name) {
            assert(cur =~= prev);
        } else {
            let key = input_path(old[n - 1].name);
            let g = seq![ChangeView::Removed { path: key, old: crate::diff::input_summary(old[n - 1]) }];
            assert(cur == prev + g);
            assert(input_names(old)[n - 1] == old[n - 1].name);
            assert forall|i: int, j: int| 0 <= i < prev.len() && 0 <= j < g.len() implies prev[i].path()
                != g[j].path() by {
                let m = choose|m: int| 0 <= m < n - 1 && prev[i].path() == input_path(old[m].name)
                    && !input_names(new).contains(old[m].name);
                assert(input_names(old)[m] == old[m].name);
                if prev[i].path() == g[j].path() {
                    lemma_prefix_refl(key);
                    lemma_keyed(key, "inputs["@, old[m].name, old[n - 1].name);
                }
            }
            lemma_distinct_concat(prev, g);
            assert forall|i: int| 0 <= i < cur.len() implies exists|m: int|
                0 <= m < n && (#[trigger] cur[i]).path() == input_path(old[m].name)
                    && !input_names(new).contains(old[m].name) by {
                if i < prev.len() {
                    assert(cur[i] == prev[i]);
                } else {
                    assert(cur[i] == g[0]);
                }
            }
        }
    }
}

proof fn lemma_inputs_diff_paths(old: Seq<InputView>, new: Seq<InputView>)
    requires
        good_keys(input_names(old)),
        good_keys(input_names(new)),
        inputs_keys_good(old),
        inputs_keys_good(new),
    ensures
        paths_distinct(inputs_diff(old, new)),
        all_under(inputs_diff(old, new), "inputs["@),
{
    let a = new_inputs_changes(old, new, new.len());
    let b = removed_inputs(old, new, old.len());
    lemma_new_inputs_paths(old, new, new.len());
    lemma_removed_inputs_paths(old, new, old.len());
    assert forall|i: int, j: int| 0 <= i < a.len() && 0 <= j < b.len() implies a[i].path() != b[j].path() by {
        let k = choose|k: int| 0 <= k < new.len() && has_prefix(a[i].path(), input_path(new[k].name));
        let m = choose|m: int| 0 <= m < old.len() && b[j].path() == input_path(old[m].name)
            && !input_names(new).contains(old[m].name);
        assert(input_names(new)[k] == new[k].name);
        assert(input_names(old)[m] == old[m].name);
        if a[i].path() == b[j].path() {
            let q = input_path(old[m].name);
            lemma_prefix_refl(q);
            lemma_keyed(q, "inputs["@, new[k].name, old[m].name);
        }
    }
    lemma_distinct_concat(a, b);
    let c = inputs_diff(old, new);
    assert forall|i: int| 0 <= i < c.len() implies has_prefix(#[trigger] c[i].path(), "inputs["@) by {
        if i < a.len() {
            assert(c[i] == a[i]);
            let k = choose|k: int| 0 <= k < new.len() && has_prefix(a[i].path(), input_path(new[k].name));
            lemma_prefix_shorter(c[i].path(), "inputs["@ + new[k].name, "]"@);
            lemma_prefix_shorter(c[i].path(), "inputs["@, new[k].name);
        } else {
            assert(c[i] == b[i - a.len()]);
            let m = choose|m: int| 0 <= m < old.len() && b[i - a.len()].path() == input_path(old[m].name)
                && !input_names(new).contains(old[m].name);
            lemma_prefix_refl(c[i].path());
            lemma_prefix_shorter(c[i].path(), "inputs["@ + old[m].name, "]"@);
            lemma_prefix_shorter(c[i].path(), "inputs["@, old[m].name);
        }
    }
}

proof fn lemma_slug_no_bracket(n: Seq<char>)
    requires
        crate::model::is_slug(n),
    ensures
        no_bracket(n),
{
    assert forall|i: int| 0 <= i < n.len() implies n[i] != ']' by {
        assert(crate::model::slug_char_ok(n[i], i));
    }
}

pub(crate) proof fn lemma_valid_keys_good(c: ContractView)
    requires
        is_valid(c),
    ensures
        good_keys(input_names(c.inputs)),
        inputs_keys_good(c.inputs),
{
    assert forall|k: int| 0 <= k < input_names(c.inputs).len() implies no_bracket(
        #[trigger] input_names(c.inputs)[k],
    ) by {
        assert(input_ok(c.inputs[k]));
        lemma_slug_no_bracket(c.inputs[k].name);
    }
    assert forall|j: int, k: int| 0 <= j < k < input_names(c.inputs).len() implies input_names(
        c.inputs,
    )[j] != input_names(c.inputs)[k] by {
        assert(c.inputs[j].name != c.inputs[k].name);
    }
    assert forall|k: int| 0 <= k < c.inputs.len() implies input_keys_good(#[trigger] c.inputs[k]) by {
        let i = c.inputs[k];
        assert(input_ok(i));
        assert forall|a: int| 0 <= a < output_names(i.outputs).len() implies no_bracket(
            #[trigger] output_names(i.outputs)[a],
        ) by {
            assert(crate::model::output_ok(i.outputs[a]));
            lemma_slug_no_bracket(i.outputs[a].name);
        }
        assert forall|a: int, b: int| 0 <= a < b < output_names(i.outputs).len() implies output_names(
            i.outputs,
        )[a] != output_names(i.outputs)[b] by {
            assert(i.outputs[a].name != i.outputs[b].name);
        }
        assert forall|a: int| 0 <= a < action_types(i.actions).len() implies no_bracket(
            #[trigger] action_types(i.actions)[a],
        ) by {
            assert(crate::model::action_ok(i.actions[a]));
            lemma_slug_no_bracket(i.actions[a].action_type);
        }
        assert forall|a: int, b: int| 0 <= a < b < action_types(i.actions).len() implies action_types(
            i.actions,
        )[a] != action_types(i.actions)[b] by {
            assert(i.actions[a].action_type != i.actions[b].action_type);
        }
    }
}

/// Between two valid contracts, no two changes share a path: a path names
/// one field of the contract, so accepting a path accepts one change.
pub proof fn lemma_diff_paths_distinct(old: ContractView, new: ContractView)
    requires
        is_valid(old),
        is_valid(new),
    ensures
        paths_distinct(contract_diff(old, new)),
{
    lemma_literals();
    lemma_valid_keys_good(old);
    lemma_valid_keys_good(new);
    lemma_inputs_diff_paths(old.inputs, new.inputs);
    let pc = project_changes(old.project, new.project);
    let ic = inputs_diff(old.inputs, new.inputs);
    assert(paths_distinct(pc)) by {
        assert forall|i: int, j: int| 0 <= i < j < pc.len() implies pc[i].path() != pc[j].path() by {
            assert(pc[i].path().len() != pc[j].path().len());
        }
    }
    assert forall|i: int, j: int| 0 <= i < pc.len() && 0 <= j < ic.len() implies pc[i].path() != ic[j].path() by {
        let p = ic[j].path();
        assert(has_prefix(p, "inputs["@));
        assert(p[0] == p.subrange(0, 7)[0]);
        assert(pc[i].path()[0] == 'p');
    }
    lemma_distinct_concat(pc, ic);
}

// ---------------------------------------------------------------------
// Added and removed inputs
// ---------------------------------------------------------------------

proof fn lemma_new_input_group_present(old: Seq<InputView>, new: Seq<InputView>, n: nat, k: int)
    requires
        n <= new.len(),
        0 <= k < n,
        !input_names(old).contains(new[k].name),
    ensures
        exists|i: int|
            0 <= i < new_inputs_changes(old, new, n).len() && #[trigger] new_inputs_changes(old, new, n)[i]
                == (ChangeView::Added { path: input_path(new[k].name), value: crate::diff::input_summary(new[k]) }),
    decreases n,
{
    let prev = new_inputs_changes(old, new, (n - 1) as nat);
    let cur = new_inputs_changes(old, new, n);
    let g = new_input_changes(old, new[n - 1]);
    assert(cur == prev + g);
    if k < n - 1 {
        lemma_new_input_group_present(old, new, (n - 1) as nat, k);
        let i = choose|i: int| 0 <= i < prev.len() && #[trigger] prev[i]
            == (ChangeView::Added { path: input_path(new[k].name), value: crate::diff::input_summary(new[k]) });
        assert(cur[i] == prev[i]);
    } else {
        input_names(old).index_of_first_ensures(new[k].name);
        assert(cur[prev.len() as int] == g[0]);
    }
}

proof fn lemma_removed_input_present(old: Seq<InputView>, new: Seq<InputView>, n: nat, m: int)
    requires
        n <= old.len(),
        0 <= m < n,
        !input_names(new).contains(old[m].name),
    ensures
        exists|i: int|
            0 <= i < removed_inputs(old, new, n).len() && #[trigger] removed_inputs(old, new, n)[i]
                == (ChangeView::Removed { path: input_path(old[m].name), old: crate::diff::input_summary(old[m]) }),
    decreases n,
{
    let prev = removed_inputs(old, new, (n - 1) as nat);
    let cur = removed_inputs(old, new, n);
    if m < n - 1 {
        lemma_removed_input_present(old, new, (n - 1) as nat, m);
        let i = choose|i: int| 0 <= i < prev.len() && #[trigger] prev[i]
            == (ChangeView::Removed { path: input_path(old[m].name), old: crate::diff::input_summary(old[m]) });
        if input_names(new).contains(old[n - 1].name) {
            assert(cur =~= prev);
        } else {
            assert(cur[i] == prev[i]);
        }
    } else {
        assert(cur[prev.len() as int] == (ChangeView::Removed {
            path: input_path(old[m].name),
            old: crate::diff::input_summary(old[m]),
        }));
    }
}

/// Between valid contracts, an input that only the new one has is reported
/// by exactly one change at its own path `inputs[<name>]`, an addition.
pub proof fn lemma_added_input_reported_once(old: ContractView, new: ContractView, k: int)
    requires
        is_valid(old),
        is_valid(new),
        0 <= k < new.inputs.len(),
        !input_names(old.inputs).contains(new.inputs[k].name),
    ensures
        exists|i: int|
            0 <= i < contract_diff(old, new).len() && (#[trigger] contract_diff(old, new)[i]) is Added
                && contract_diff(old, new)[i].path() == input_path(new.inputs[k].name) && forall|j: int|
                0 <= j < contract_diff(old, new).len() && contract_diff(old, new)[j].path()
                    == input_path(new.inputs[k].name) ==> j == i,
{
    let pc = project_changes(old.project, new.project);
    let ic = inputs_diff(old.inputs, new.inputs);
    let a = new_inputs_changes(old.inputs, new.inputs, new.inputs.len());
    let cs = contract_diff(old, new);
    lemma_new_input_group_present(old.inputs, new.inputs, new.inputs.len(), k);
    let i0 = choose|i: int| 0 <= i < a.len() && #[trigger] a[i]
        == (ChangeView::Added { path: input_path(new.inputs[k].name), value: crate::diff::input_summary(new.inputs[k]) });
    let i = pc.len() + i0;
    assert(cs == pc + (a + removed_inputs(old.inputs, new.inputs, old.inputs.len())));
    assert(cs[i] == a[i0]);
    lemma_diff_paths_distinct(old, new);
    assert forall|j: int| 0 <= j < cs.len() && cs[j].path() == input_path(new.inputs[k].name) implies j == i by {
        if j < i {
            assert(cs[j].path() != cs[i].path());
        } else if j > i {
            assert(cs[i].path() != cs[j].path());
        }
    }
}

/// Between valid contracts, an input that only the old one has is reported
/// as removed at `inputs[<name>]`, and nothing is reported below that path.
pub proof fn lemma_removed_input_reported(old: ContractView, new: ContractView, m: int)
    requires
        is_valid(old),
        is_valid(new),
        0 <= m < old.inputs.len(),
        !input_names(new.inputs).contains(old.inputs[m].name),
    ensures
        exists|i: int|
            0 <= i < contract_diff(old, new).len() && #[trigger] contract_diff(old, new)[i]
                == (ChangeView::Removed {
                path: input_path(old.inputs[m].name),
                old: crate::diff::input_summary(old.inputs[m]),
            }),
        forall|i: int|
            0 <= i < contract_diff(old, new).len() ==> !has_prefix(
                #[trigger] contract_diff(old, new)[i].path(),
                input_path(old.inputs[m].name) + "."@,
            ),
{
    lemma_literals();
    lemma_valid_keys_good(old);
    lemma_valid_keys_good(new);
    let nm = old.inputs[m].name;
    let pc = project_changes(old.project, new.project);
    let a = new_inputs_changes(old.inputs, new.inputs, new.inputs.len());
    let b = removed_inputs(old.inputs, new.inputs, old.inputs.len());
    let cs = contract_diff(old, new);
    assert(cs == pc + (a + b));
    lemma_removed_input_present(old.inputs, new.inputs, old.inputs.len(), m);
    let i0 = choose|i: int| 0 <= i < b.len() && #[trigger] b[i]
        == (ChangeView::Removed { path: input_path(nm), old: crate::diff::input_summary(old.inputs[m]) });
    assert(cs[pc.len() + a.len() + i0] == b[i0]);
    lemma_new_inputs_paths(old.inputs, new.inputs, new.inputs.len());
    lemma_removed_inputs_paths(old.inputs, new.inputs, old.inputs.len());
    assert(input_names(old.inputs)[m] == nm);
    assert(no_bracket(nm));
    assert forall|i: int| 0 <= i < cs.len() implies !has_prefix(#[trigger] cs[i].path(), input_path(nm) + "."@) by {
        let p = cs[i].path();
        if has_prefix(p, input_path(nm) + "."@) {
            lemma_prefix_shorter(p, input_path(nm), "."@);
            lemma_prefix_shorter(p, "inputs["@ + nm, "]"@);
            lemma_prefix_shorter(p, "inputs["@, nm);
            assert(p[0] == p.subrange(0, 7)[0]);
            if i < pc.len() {
                assert(cs[i] == pc[i]);
                assert(p[0] == 'p');
            } else if i < pc.len() + a.len() {
                assert(cs[i] == a[i - pc.len()]);
                let k = choose|k: int| 0 <= k < new.inputs.len() && has_prefix(
                    a[i - pc.len()].path(),
                    input_path(new.inputs[k].name),
                );
                assert(input_names(new.inputs)[k] == new.inputs[k].name);
                lemma_keyed(p, "inputs["@, nm, new.inputs[k].name);
            } else {
                assert(cs[i] == b[i - pc.len() - a.len()]);
                let q = choose|q: int| 0 <= q < old.inputs.len() && b[i - pc.len() - a.len()].path()
                    == input_path(old.inputs[q].name) && !input_names(new.inputs).contains(old.inputs[q].name);
                assert(input_names(old.inputs)[q] == old.inputs[q].name);
                lemma_prefix_refl(p);
                lemma_keyed(p, "inputs["@, nm, old.inputs[q].name);
                reveal_strlit(".");
                assert(p.len() == input_path(nm).len());
            }
        }
    }
}

} // verus!
