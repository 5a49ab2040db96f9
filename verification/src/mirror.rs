//! The two directions of a diff mirror each other: every modification
//! reported from `a` to `b` is reported from `b` to `a` at the same path
//! with its two values swapped, and the modifications of the two
//! directions are, values swapped, the same multiset.

use vstd::prelude::*;
use crate::diff::{
    ChangeView, action_added, action_changes, action_path, action_types, actions_added,
    actions_diff, contract_diff, distinct_keys, input_added, input_changes, input_names,
    input_path, inputs_diff, keys_distinct, lemma_first_of_distinct, lemma_valid_has_distinct_keys,
    new_action_changes, new_actions_changes, new_input_changes, new_inputs_changes,
    new_output_changes, new_outputs_changes, opt_input_type_text, opt_text, output_added,
    output_changes, output_names, output_path, output_type_text, outputs_added, outputs_diff,
    project_changes, removed_actions, removed_inputs, removed_outputs,
};
use crate::model::{ActionView, ContractView, InputView, OutputView, is_valid};

verus! {

/// The same change with its two values swapped (only a modification has
/// two values; any other change is left as it is).
spec fn flipped(c: ChangeView) -> ChangeView {
    match c {
        ChangeView::Modified { path, old, new } => ChangeView::Modified { path, old: new, new: old },
        _ => c,
    }
}

/// Every modification of `x` occurs in `y` with its values swapped.
spec fn mods_mirrored(x: Seq<ChangeView>, y: Seq<ChangeView>) -> bool {
    forall|i: int| 0 <= i < x.len() && (#[trigger] x[i]) is Modified ==> y.contains(flipped(x[i]))
}

/// `x` holds no modification.
spec fn no_mods(x: Seq<ChangeView>) -> bool {
    forall|i: int| 0 <= i < x.len() ==> !((#[trigger] x[i]) is Modified)
}

/// Every change of `x` occurs in `y`.
pub open spec fn included(x: Seq<ChangeView>, y: Seq<ChangeView>) -> bool {
    forall|i: int| 0 <= i < x.len() ==> y.contains(#[trigger] x[i])
}

pub(crate) proof fn lemma_included_parts(a: Seq<ChangeView>, b: Seq<ChangeView>)
    ensures
        included(a, a + b),
        included(b, a + b),
{
    let c = a + b;
    assert forall|i: int| 0 <= i < a.len() implies c.contains(#[trigger] a[i]) by {
        assert(c[i] == a[i]);
    }
    assert forall|i: int| 0 <= i < b.len() implies c.contains(#[trigger] b[i]) by {
        assert(c[i + a.len()] == b[i]);
    }
}

pub(crate) proof fn lemma_included_trans(x: Seq<ChangeView>, y: Seq<ChangeView>, z: Seq<ChangeView>)
    requires
        included(x, y),
        included(y, z),
    ensures
        included(x, z),
{
    assert forall|i: int| 0 <= i < x.len() implies z.contains(#[trigger] x[i]) by {
        assert(y.contains(x[i]));
        let j = choose|j: int| 0 <= j < y.len() && y[j] == x[i];
        assert(z.contains(y[j]));
    }
}

pub(crate) proof fn lemma_included_three(a: Seq<ChangeView>, b: Seq<ChangeView>, c: Seq<ChangeView>)
    ensures
        included(a, a + b + c),
        included(b, a + b + c),
        included(c, a + b + c),
{
    lemma_included_parts(a, b);
    lemma_included_parts(a + b, c);
    lemma_included_trans(a, a + b, a + b + c);
    lemma_included_trans(b, a + b, a + b + c);
}

proof fn lemma_mirror_widen(x: Seq<ChangeView>, y: Seq<ChangeView>, z: Seq<ChangeView>)
    requires
        mods_mirrored(x, y),
        included(y, z),
    ensures
        mods_mirrored(x, z),
{
    assert forall|i: int| 0 <= i < x.len() && (#[trigger] x[i]) is Modified implies z.contains(
        flipped(x[i]),
    ) by {
        let j = choose|j: int| 0 <= j < y.len() && y[j] == flipped(x[i]);
        assert(z.contains(y[j]));
    }
}

proof fn lemma_mirror_concat(a: Seq<ChangeView>, b: Seq<ChangeView>, y: Seq<ChangeView>)
    requires
        mods_mirrored(a, y),
        mods_mirrored(b, y),
    ensures
        mods_mirrored(a + b, y),
{
    let c = a + b;
    assert forall|i: int| 0 <= i < c.len() && (#[trigger] c[i]) is Modified implies y.contains(
        flipped(c[i]),
    ) by {
        if i < a.len() {
            assert(c[i] == a[i]);
        } else {
            assert(c[i] == b[i - a.len()]);
        }
    }
}

proof fn lemma_no_mods_concat(a: Seq<ChangeView>, b: Seq<ChangeView>)
    requires
        no_mods(a),
        no_mods(b),
    ensures
        no_mods(a + b),
{
    let c = a + b;
    assert forall|i: int| 0 <= i < c.len() implies !((#[trigger] c[i]) is Modified) by {
        if i < a.len() {
            assert(c[i] == a[i]);
        } else {
            assert(c[i] == b[i - a.len()]);
        }
    }
}

/// A single modification is mirrored by the single swapped one.
proof fn lemma_single_mirror(p: Seq<char>, u: Seq<char>, v: Seq<char>, differ: bool)
    ensures
        mods_mirrored(
            if differ { seq![ChangeView::Modified { path: p, old: u, new: v }] } else { seq![] },
            if differ { seq![ChangeView::Modified { path: p, old: v, new: u }] } else { seq![] },
        ),
{
    if differ {
        let y = seq![ChangeView::Modified { path: p, old: v, new: u }];
        assert(y[0] == ChangeView::Modified { path: p, old: v, new: u });
        assert(y.contains(y[0]));
    }
}

// ---------------------------------------------------------------------
// Outputs
// ---------------------------------------------------------------------

proof fn lemma_output_changes_mirror(x: OutputView, y: OutputView, base: Seq<char>)
    requires
        x.name == y.name,
    ensures
        mods_mirrored(output_changes(x, y, base), output_changes(y, x, base)),
{
    let p = output_path(base, y.name);
    let dd = x.description != y.description;
    let td = x.output_type != y.output_type;
    let ld = x.location != y.location;
    let pd = p + ".description"@;
    let pt = p + ".type"@;
    let pl = p + ".location"@;
    let (ud, vd) = (opt_text(x.description), opt_text(y.description));
    let (ut, vt) = (output_type_text(x.output_type), output_type_text(y.output_type));
    let d1 = if dd { seq![ChangeView::Modified { path: pd, old: ud, new: vd }] } else { seq![] };
    let t1 = if td { seq![ChangeView::Modified { path: pt, old: ut, new: vt }] } else { seq![] };
    let l1 = if ld { seq![ChangeView::Modified { path: pl, old: x.location, new: y.location }] } else { seq![] };
    let d2 = if dd { seq![ChangeView::Modified { path: pd, old: vd, new: ud }] } else { seq![] };
    let t2 = if td { seq![ChangeView::Modified { path: pt, old: vt, new: ut }] } else { seq![] };
    let l2 = if ld { seq![ChangeView::Modified { path: pl, old: y.location, new: x.location }] } else { seq![] };
    assert(output_changes(x, y, base) == d1 + t1 + l1);
    assert(output_changes(y, x, base) == d2 + t2 + l2);
    lemma_single_mirror(pd, ud, vd, dd);
    lemma_single_mirror(pt, ut, vt, td);
    lemma_single_mirror(pl, x.location, y.location, ld);
    lemma_included_three(d2, t2, l2);
    lemma_mirror_widen(d1, d2, d2 + t2 + l2);
    lemma_mirror_widen(t1, t2, d2 + t2 + l2);
    lemma_mirror_widen(l1, l2, d2 + t2 + l2);
    lemma_mirror_concat(d1, t1, d2 + t2 + l2);
    lemma_mirror_concat(d1 + t1, l1, d2 + t2 + l2);
}

proof fn lemma_output_added_no_mods(p: Seq<char>, o: OutputView)
    ensures
        no_mods(output_added(p, o)),
{
    let s = output_added(p, o);
    assert forall|i: int| 0 <= i < s.len() implies !((#[trigger] s[i]) is Modified) by {
        match o.description {
            Some(_) => {},
            None => {},
        }
    }
}

pub(crate) proof fn lemma_new_outputs_included(old: Seq<OutputView>, new: Seq<OutputView>, base: Seq<char>, n: nat, k: int)
    requires
        0 <= k < n <= new.len(),
    ensures
        included(new_output_changes(old, new[k], base), new_outputs_changes(old, new, base, n)),
    decreases n,
{
    let prev = new_outputs_changes(old, new, base, (n - 1) as nat);
    let g = new_output_changes(old, new[n - 1], base);
    lemma_included_parts(prev, g);
    if k < n - 1 {
        lemma_new_outputs_included(old, new, base, (n - 1) as nat, k);
        lemma_included_trans(new_output_changes(old, new[k], base), prev, prev + g);
    }
}

proof fn lemma_new_outputs_mirror(o: Seq<OutputView>, n: Seq<OutputView>, base: Seq<char>, k: nat)
    requires
        k <= n.len(),
        distinct_keys(output_names(n)),
    ensures
        mods_mirrored(new_outputs_changes(o, n, base, k), new_outputs_changes(n, o, base, o.len())),
    decreases k,
{
    if k > 0 {
        lemma_new_outputs_mirror(o, n, base, (k - 1) as nat);
        let r = new_outputs_changes(n, o, base, o.len());
        let x = n[k - 1];
        let g = new_output_changes(o, x, base);
        output_names(o).index_of_first_ensures(x.name);
        match output_names(o).index_of_first(x.name) {
            Some(j) => {
                assert(output_names(o)[j] == o[j].name);
                assert(output_names(n)[k - 1] == x.name);
                lemma_first_of_distinct(output_names(n), k - 1);
                assert(new_output_changes(n, o[j], base) == output_changes(x, o[j], base));
                lemma_output_changes_mirror(o[j], x, base);
                lemma_new_outputs_included(n, o, base, o.len(), j);
                lemma_mirror_widen(g, new_output_changes(n, o[j], base), r);
            },
            None => {
                lemma_output_added_no_mods(output_path(base, x.name), x);
            },
        }
        lemma_mirror_concat(new_outputs_changes(o, n, base, (k - 1) as nat), g, r);
    }
}

proof fn lemma_removed_outputs_no_mods(o: Seq<OutputView>, n: Seq<OutputView>, base: Seq<char>, m: nat)
    requires
        m <= o.len(),
    ensures
        no_mods(removed_outputs(o, n, base, m)),
    decreases m,
{
    if m > 0 {
        lemma_removed_outputs_no_mods(o, n, base, (m - 1) as nat);
        let prev = removed_outputs(o, n, base, (m - 1) as nat);
        let cur = removed_outputs(o, n, base, m);
        assert forall|i: int| 0 <= i < cur.len() implies !((#[trigger] cur[i]) is Modified) by {
            if i < prev.len() {
                assert(cur[i] == prev[i]);
            }
        }
    }
}

proof fn lemma_outputs_diff_mirror(o: Seq<OutputView>, n: Seq<OutputView>, base: Seq<char>)
    requires
        distinct_keys(output_names(n)),
    ensures
        mods_mirrored(outputs_diff(o, n, base), outputs_diff(n, o, base)),
{
    let r = new_outputs_changes(n, o, base, o.len());
    let rr = removed_outputs(n, o, base, n.len());
    lemma_new_outputs_mirror(o, n, base, n.len());
    lemma_included_parts(r, rr);
    lemma_mirror_widen(new_outputs_changes(o, n, base, n.len()), r, r + rr);
    lemma_removed_outputs_no_mods(o, n, base, o.len());
    lemma_mirror_concat(new_outputs_changes(o, n, base, n.len()), removed_outputs(o, n, base, o.len()), r + rr);
}

// ---------------------------------------------------------------------
// Actions
// ---------------------------------------------------------------------

proof fn lemma_action_changes_mirror(x: ActionView, y: ActionView, base: Seq<char>)
    requires
        x.action_type == y.action_type,
    ensures
        mods_mirrored(action_changes(x, y, base), action_changes(y, x, base)),
{
    let p = action_path(base, y.action_type) + ".instructions"@;
    lemma_single_mirror(p, x.instructions, y.instructions, x.instructions != y.instructions);
}

pub(crate) proof fn lemma_new_actions_included(old: Seq<ActionView>, new: Seq<ActionView>, base: Seq<char>, n: nat, k: int)
    requires
        0 <= k < n <= new.len(),
    ensures
        included(new_action_changes(old, new[k], base), new_actions_changes(old, new, base, n)),
    decreases n,
{
    let prev = new_actions_changes(old, new, base, (n - 1) as nat);
    let g = new_action_changes(old, new[n - 1], base);
    lemma_included_parts(prev, g);
    if k < n - 1 {
        lemma_new_actions_included(old, new, base, (n - 1) as nat, k);
        lemma_included_trans(new_action_changes(old, new[k], base), prev, prev + g);
    }
}

proof fn lemma_new_actions_mirror(o: Seq<ActionView>, n: Seq<ActionView>, base: Seq<char>, k: nat)
    requires
        k <= n.len(),
        distinct_keys(action_types(n)),
    ensures
        mods_mirrored(new_actions_changes(o, n, base, k), new_actions_changes(n, o, base, o.len())),
    decreases k,
{
    if k > 0 {
        lemma_new_actions_mirror(o, n, base, (k - 1) as nat);
        let r = new_actions_changes(n, o, base, o.len());
        let x = n[k - 1];
        let g = new_action_changes(o, x, base);
        action_types(o).index_of_first_ensures(x.action_type);
        match action_types(o).index_of_first(x.action_type) {
            Some(j) => {
                assert(action_types(o)[j] == o[j].action_type);
                assert(action_types(n)[k - 1] == x.action_type);
                lemma_first_of_distinct(action_types(n), k - 1);
                assert(new_action_changes(n, o[j], base) == action_changes(x, o[j], base));
                lemma_action_changes_mirror(o[j], x, base);
                lemma_new_actions_included(n, o, base, o.len(), j);
                lemma_mirror_widen(g, new_action_changes(n, o[j], base), r);
            },
            None => {
                let s = action_added(action_path(base, x.action_type), x);
                assert forall|i: int| 0 <= i < s.len() implies !((#[trigger] s[i]) is Modified) by {}
            },
        }
        lemma_mirror_concat(new_actions_changes(o, n, base, (k - 1) as nat), g, r);
    }
}

proof fn lemma_removed_actions_no_mods(o: Seq<ActionView>, n: Seq<ActionView>, base: Seq<char>, m: nat)
    requires
        m <= o.len(),
    ensures
        no_mods(removed_actions(o, n, base, m)),
    decreases m,
{
    if m > 0 {
        lemma_removed_actions_no_mods(o, n, base, (m - 1) as nat);
        let prev = removed_actions(o, n, base, (m - 1) as nat);
        let cur = removed_actions(o, n, base, m);
        assert forall|i: int| 0 <= i < cur.len() implies !((#[trigger] cur[i]) is Modified) by {
            if i < prev.len() {
                assert(cur[i] == prev[i]);
            }
        }
    }
}

proof fn lemma_actions_diff_mirror(o: Seq<ActionView>, n: Seq<ActionView>, base: Seq<char>)
    requires
        distinct_keys(action_types(n)),
    ensures
        mods_mirrored(actions_diff(o, n, base), actions_diff(n, o, base)),
{
    let r = new_actions_changes(n, o, base, o.len());
    let rr = removed_actions(n, o, base, n.len());
    lemma_new_actions_mirror(o, n, base, n.len());
    lemma_included_parts(r, rr);
    lemma_mirror_widen(new_actions_changes(o, n, base, n.len()), r, r + rr);
    lemma_removed_actions_no_mods(o, n, base, o.len());
    lemma_mirror_concat(new_actions_changes(o, n, base, n.len()), removed_actions(o, n, base, o.len()), r + rr);
}

// ---------------------------------------------------------------------
// Inputs and the whole contract
// ---------------------------------------------------------------------

proof fn lemma_input_changes_mirror(x: InputView, y: InputView)
    requires
        x.name == y.name,
        distinct_keys(output_names(x.outputs)),
        distinct_keys(output_names(y.outputs)),
        distinct_keys(action_types(x.actions)),
        distinct_keys(action_types(y.actions)),
    ensures
        mods_mirrored(input_changes(x, y), input_changes(y, x)),
{
    let base = input_path(y.name);
    let dd = x.description != y.description;
    let td = x.input_type != y.input_type;
    let pd = base + ".description"@;
    let pt = base + ".type"@;
    let (ut, vt) = (opt_input_type_text(x.input_type), opt_input_type_text(y.input_type));
    let d1 = if dd { seq![ChangeView::Modified { path: pd, old: x.description, new: y.description }] } else { seq![] };
    let t1 = if td { seq![ChangeView::Modified { path: pt, old: ut, new: vt }] } else { seq![] };
    let d2 = if dd { seq![ChangeView::Modified { path: pd, old: y.description, new: x.description }] } else { seq![] };
    let t2 = if td { seq![ChangeView::Modified { path: pt, old: vt, new: ut }] } else { seq![] };
    let od1 = outputs_diff(x.outputs, y.outputs, base);
    let ad1 = actions_diff(x.actions, y.actions, base);
    let od2 = outputs_diff(y.outputs, x.outputs, base);
    let ad2 = actions_diff(y.actions, x.actions, base);
    assert(input_changes(x, y) == d1 + t1 + od1 + ad1);
    assert(input_changes(y, x) == d2 + t2 + od2 + ad2);
    let w = d2 + t2 + od2 + ad2;
    lemma_single_mirror(pd, x.description, y.description, dd);
    lemma_single_mirror(pt, ut, vt, td);
    lemma_outputs_diff_mirror(x.outputs, y.outputs, base);
    lemma_actions_diff_mirror(x.actions, y.actions, base);
    lemma_included_parts(d2, t2);
    lemma_included_three(d2 + t2, od2, ad2);
    lemma_included_trans(d2, d2 + t2, w);
    lemma_included_trans(t2, d2 + t2, w);
    lemma_mirror_widen(d1, d2, w);
    lemma_mirror_widen(t1, t2, w);
    lemma_mirror_widen(od1, od2, w);
    lemma_mirror_widen(ad1, ad2, w);
    lemma_mirror_concat(d1, t1, w);
    lemma_mirror_concat(d1 + t1, od1, w);
    lemma_mirror_concat(d1 + t1 + od1, ad1, w);
}

proof fn lemma_outputs_added_no_mods(base: Seq<char>, outs: Seq<OutputView>, n: nat)
    requires
        n <= outs.len(),
    ensures
        no_mods(outputs_added(base, outs, n)),
    decreases n,
{
    if n > 0 {
        lemma_outputs_added_no_mods(base, outs, (n - 1) as nat);
        lemma_output_added_no_mods(output_path(base, outs[n - 1].name), outs[n - 1]);
        lemma_no_mods_concat(
            outputs_added(base, outs, (n - 1) as nat),
            output_added(output_path(base, outs[n - 1].name), outs[n - 1]),
        );
    }
}

proof fn lemma_actions_added_no_mods(base: Seq<char>, acts: Seq<ActionView>, n: nat)
    requires
        n <= acts.len(),
    ensures
        no_mods(actions_added(base, acts, n)),
    decreases n,
{
    if n > 0 {
        lemma_actions_added_no_mods(base, acts, (n - 1) as nat);
        let s = action_added(action_path(base, acts[n - 1].action_type), acts[n - 1]);
        assert forall|i: int| 0 <= i < s.len() implies !((#[trigger] s[i]) is Modified) by {}
        lemma_no_mods_concat(actions_added(base, acts, (n - 1) as nat), s);
    }
}

proof fn lemma_new_input_added_no_mods(old: Seq<InputView>, x: InputView)
    requires
        input_names(old).index_of_first(x.name) is None,
    ensures
        no_mods(new_input_changes(old, x)),
{
    let base = input_path(x.name);
    let w = seq![ChangeView::Added { path: base, value: crate::diff::input_summary(x) }];
    let d = if x.description.len() != 0 {
        seq![ChangeView::Added { path: base + ".description"@, value: x.description }]
    } else {
        Seq::<ChangeView>::empty()
    };
    let t = match x.input_type {
        Some(y) => seq![ChangeView::Added { path: base + ".type"@, value: crate::diff::input_type_text(y) }],
        None => Seq::<ChangeView>::empty(),
    };
    let oa = outputs_added(base, x.outputs, x.outputs.len());
    let aa = actions_added(base, x.actions, x.actions.len());
    assert(input_added(base, x) == d + t + oa + aa);
    assert(no_mods(w));
    assert(no_mods(d));
    assert(no_mods(t));
    lemma_outputs_added_no_mods(base, x.outputs, x.outputs.len());
    lemma_actions_added_no_mods(base, x.actions, x.actions.len());
    lemma_no_mods_concat(d, t);
    lemma_no_mods_concat(d + t, oa);
    lemma_no_mods_concat(d + t + oa, aa);
    lemma_no_mods_concat(w, d + t + oa + aa);
}

pub(crate) proof fn lemma_new_inputs_included(old: Seq<InputView>, new: Seq<InputView>, n: nat, k: int)
    requires
        0 <= k < n <= new.len(),
    ensures
        included(new_input_changes(old, new[k]), new_inputs_changes(old, new, n)),
    decreases n,
{
    let prev = new_inputs_changes(old, new, (n - 1) as nat);
    let g = new_input_changes(old, new[n - 1]);
    lemma_included_parts(prev, g);
    if k < n - 1 {
        lemma_new_inputs_included(old, new, (n - 1) as nat, k);
        lemma_included_trans(new_input_changes(old, new[k]), prev, prev + g);
    }
}

proof fn lemma_new_inputs_mirror(a: ContractView, b: ContractView, k: nat)
    requires
        k <= b.inputs.len(),
        keys_distinct(a),
        keys_distinct(b),
    ensures
        mods_mirrored(
            new_inputs_changes(a.inputs, b.inputs, k),
            new_inputs_changes(b.inputs, a.inputs, a.inputs.len()),
        ),
    decreases k,
{
    if k > 0 {
        lemma_new_inputs_mirror(a, b, (k - 1) as nat);
        let o = a.inputs;
        let n = b.inputs;
        let r = new_inputs_changes(n, o, o.len());
        let y = n[k - 1];
        let g = new_input_changes(o, y);
        input_names(o).index_of_first_ensures(y.name);
        match input_names(o).index_of_first(y.name) {
            Some(j) => {
                let x = o[j];
                assert(input_names(o)[j] == x.name);
                assert(input_names(n)[k - 1] == y.name);
                lemma_first_of_distinct(input_names(n), k - 1);
                assert(new_input_changes(n, x) == input_changes(y, x));
                assert(distinct_keys(output_names(a.inputs[j].outputs)));
                assert(distinct_keys(output_names(b.inputs[k - 1].outputs)));
                lemma_input_changes_mirror(x, y);
                lemma_new_inputs_included(n, o, o.len(), j);
                lemma_mirror_widen(g, new_input_changes(n, x), r);
            },
            None => {
                lemma_new_input_added_no_mods(o, y);
            },
        }
        lemma_mirror_concat(new_inputs_changes(o, n, (k - 1) as nat), g, r);
    }
}

proof fn lemma_removed_inputs_no_mods(o: Seq<InputView>, n: Seq<InputView>, m: nat)
    requires
        m <= o.len(),
    ensures
        no_mods(removed_inputs(o, n, m)),
    decreases m,
{
    if m > 0 {
        lemma_removed_inputs_no_mods(o, n, (m - 1) as nat);
        let prev = removed_inputs(o, n, (m - 1) as nat);
        let cur = removed_inputs(o, n, m);
        assert forall|i: int| 0 <= i < cur.len() implies !((#[trigger] cur[i]) is Modified) by {
            if i < prev.len() {
                assert(cur[i] == prev[i]);
            }
        }
    }
}

proof fn lemma_contract_diff_mirror(a: ContractView, b: ContractView)
    requires
        keys_distinct(a),
        keys_distinct(b),
    ensures
        mods_mirrored(contract_diff(a, b), contract_diff(b, a)),
{
    let o = a.inputs;
    let n = b.inputs;
    let pn = "project.name"@;
    let pd = "project.description"@;
    let nd = a.project.name != b.project.name;
    let dd = a.project.description != b.project.description;
    let n1 = if nd { seq![ChangeView::Modified { path: pn, old: a.project.name, new: b.project.name }] } else { seq![] };
    let d1 = if dd { seq![ChangeView::Modified { path: pd, old: a.project.description, new: b.project.description }] } else { seq![] };
    let n2 = if nd { seq![ChangeView::Modified { path: pn, old: b.project.name, new: a.project.name }] } else { seq![] };
    let d2 = if dd { seq![ChangeView::Modified { path: pd, old: b.project.description, new: a.project.description }] } else { seq![] };
    let r = new_inputs_changes(n, o, o.len());
    let rr = removed_inputs(n, o, n.len());
    assert(project_changes(a.project, b.project) == n1 + d1);
    assert(project_changes(b.project, a.project) == n2 + d2);
    assert(inputs_diff(n, o) == r + rr);
    let w = n2 + d2 + (r + rr);
    assert(contract_diff(b, a) == w);
    lemma_single_mirror(pn, a.project.name, b.project.name, nd);
    lemma_single_mirror(pd, a.project.description, b.project.description, dd);
    lemma_new_inputs_mirror(a, b, n.len());
    lemma_removed_inputs_no_mods(o, n, o.len());
    lemma_included_three(n2, d2, r + rr);
    lemma_included_parts(r, rr);
    lemma_included_trans(r, r + rr, w);
    lemma_mirror_widen(n1, n2, w);
    lemma_mirror_widen(d1, d2, w);
    lemma_mirror_widen(new_inputs_changes(o, n, n.len()), r, w);
    lemma_mirror_concat(n1, d1, w);
    lemma_mirror_concat(new_inputs_changes(o, n, n.len()), removed_inputs(o, n, o.len()), w);
    lemma_mirror_concat(n1 + d1, inputs_diff(o, n), w);
}

/// Between valid contracts `a` and `b`, the diff from `a` to `b` reports a
/// modification at a path from value `u` to value `v` exactly when the diff
/// from `b` to `a` reports one at the same path from `v` to `u`.
pub proof fn lemma_diff_mirrors(a: ContractView, b: ContractView)
    requires
        is_valid(a),
        is_valid(b),
    ensures
        forall|p: Seq<char>, u: Seq<char>, v: Seq<char>|
            #![trigger contract_diff(a, b).contains(ChangeView::Modified { path: p, old: u, new: v })]
            #![trigger contract_diff(b, a).contains(ChangeView::Modified { path: p, old: v, new: u })]
            contract_diff(a, b).contains(ChangeView::Modified { path: p, old: u, new: v })
                <==> contract_diff(b, a).contains(ChangeView::Modified { path: p, old: v, new: u }),
{
    lemma_valid_has_distinct_keys(a);
    lemma_valid_has_distinct_keys(b);
    lemma_contract_diff_mirror(a, b);
    lemma_contract_diff_mirror(b, a);
    let x = contract_diff(a, b);
    let y = contract_diff(b, a);
    assert forall|p: Seq<char>, u: Seq<char>, v: Seq<char>|
        #![trigger x.contains(ChangeView::Modified { path: p, old: u, new: v })]
        #![trigger y.contains(ChangeView::Modified { path: p, old: v, new: u })]
        x.contains(ChangeView::Modified { path: p, old: u, new: v })
            <==> y.contains(ChangeView::Modified { path: p, old: v, new: u }) by {
        let m = ChangeView::Modified { path: p, old: u, new: v };
        let f = ChangeView::Modified { path: p, old: v, new: u };
        if x.contains(m) {
            let i = choose|i: int| 0 <= i < x.len() && x[i] == m;
            assert(x[i] is Modified);
        }
        if y.contains(f) {
            let i = choose|i: int| 0 <= i < y.len() && y[i] == f;
            assert(y[i] is Modified);
            assert(flipped(y[i]) == m);
        }
    }
}

// ---------------------------------------------------------------------
// The modifications as a multiset
// ---------------------------------------------------------------------

/// The modifications of `cs`, in order, each as its path, old text and
/// new text.
pub open spec fn modifications(cs: Seq<ChangeView>) -> Seq<(Seq<char>, Seq<char>, Seq<char>)>
    decreases cs.len(),
{
    if cs.len() == 0 {
        seq![]
    } else {
        let rest = modifications(cs.drop_last());
        match cs.last() {
            ChangeView::Modified { path, old, new } => rest.push((path, old, new)),
            _ => rest,
        }
    }
}

/// The modifications of `cs`, in order, each as its path, new text and
/// old text.
pub open spec fn swapped_modifications(cs: Seq<ChangeView>) -> Seq<(Seq<char>, Seq<char>, Seq<char>)>
    decreases cs.len(),
{
    if cs.len() == 0 {
        seq![]
    } else {
        let rest = swapped_modifications(cs.drop_last());
        match cs.last() {
            ChangeView::Modified { path, old, new } => rest.push((path, new, old)),
            _ => rest,
        }
    }
}

proof fn lemma_push_contains<A>(s: Seq<A>, t: A, x: A)
    ensures
        s.push(t).contains(x) <==> (s.contains(x) || x == t),
{
    let r = s.push(t);
    if r.contains(x) {
        let i = choose|i: int| 0 <= i < r.len() && r[i] == x;
        if i < s.len() {
            assert(s[i] == x);
        }
    }
    if s.contains(x) {
        let i = choose|i: int| 0 <= i < s.len() && s[i] == x;
        assert(r[i] == x);
    }
    if x == t {
        assert(r[s.len() as int] == x);
    }
}

proof fn lemma_push_no_dup<A>(s: Seq<A>, t: A)
    requires
        s.no_duplicates(),
        !s.contains(t),
    ensures
        s.push(t).no_duplicates(),
{
    let r = s.push(t);
    assert forall|i: int, j: int| 0 <= i < r.len() && 0 <= j < r.len() && i != j implies r[i] != r[j] by {
        if i == s.len() {
            assert(r[j] == s[j]);
        } else if j == s.len() {
            assert(r[i] == s[i]);
        } else {
            assert(r[i] == s[i] && r[j] == s[j]);
        }
    }
}

proof fn lemma_last_contains(cs: Seq<ChangeView>, c: ChangeView)
    requires
        cs.len() > 0,
    ensures
        cs.contains(c) <==> (cs.drop_last().contains(c) || cs.last() == c),
{
    let init = cs.drop_last();
    assert(cs =~= init.push(cs.last()));
    lemma_push_contains(init, cs.last(), c);
}

proof fn lemma_modifications_members(cs: Seq<ChangeView>, p: Seq<char>, u: Seq<char>, v: Seq<char>)
    ensures
        modifications(cs).contains((p, u, v)) <==> cs.contains(ChangeView::Modified { path: p, old: u, new: v }),
        swapped_modifications(cs).contains((p, v, u)) <==> cs.contains(
            ChangeView::Modified { path: p, old: u, new: v },
        ),
    decreases cs.len(),
{
    let m = ChangeView::Modified { path: p, old: u, new: v };
    if cs.len() == 0 {
        assert(!cs.contains(m));
    } else {
        let init = cs.drop_last();
        lemma_modifications_members(init, p, u, v);
        lemma_last_contains(cs, m);
        match cs.last() {
            ChangeView::Modified { path, old, new } => {
                lemma_push_contains(modifications(init), (path, old, new), (p, u, v));
                lemma_push_contains(swapped_modifications(init), (path, new, old), (p, v, u));
            },
            _ => {},
        }
    }
}

proof fn lemma_modifications_no_dup(cs: Seq<ChangeView>)
    requires
        crate::paths::paths_distinct(cs),
    ensures
        modifications(cs).no_duplicates(),
        swapped_modifications(cs).no_duplicates(),
    decreases cs.len(),
{
    if cs.len() > 0 {
        let init = cs.drop_last();
        assert forall|i: int, j: int| 0 <= i < j < init.len() implies init[i].path() != init[j].path() by {
            assert(init[i] == cs[i] && init[j] == cs[j]);
        }
        lemma_modifications_no_dup(init);
        match cs.last() {
            ChangeView::Modified { path, old, new } => {
                let m = ChangeView::Modified { path, old, new };
                lemma_modifications_members(init, path, old, new);
                if init.contains(m) {
                    let i = choose|i: int| 0 <= i < init.len() && init[i] == m;
                    assert(cs[i] == init[i]);
                    assert(cs[i].path() != cs[cs.len() - 1].path());
                }
                lemma_push_no_dup(modifications(init), (path, old, new));
                lemma_push_no_dup(swapped_modifications(init), (path, new, old));
            },
            _ => {},
        }
    }
}

proof fn lemma_same_members_same_multiset<A>(s: Seq<A>, t: Seq<A>)
    requires
        s.no_duplicates(),
        t.no_duplicates(),
        forall|x: A| s.contains(x) <==> t.contains(x),
    ensures
        s.to_multiset() =~= t.to_multiset(),
{
    s.lemma_multiset_has_no_duplicates();
    t.lemma_multiset_has_no_duplicates();
    s.to_multiset_ensures();
    t.to_multiset_ensures();
    assert forall|x: A| s.to_multiset().count(x) == t.to_multiset().count(x) by {
        if s.contains(x) {
            assert(s.to_multiset().contains(x));
            assert(t.to_multiset().contains(x));
        }
    }
}

/// Between valid contracts `a` and `b`, the modifications of the diff from
/// `a` to `b`, each as (path, old, new), are as a multiset those of the
/// diff from `b` to `a`, each as (path, new, old).
pub proof fn lemma_modifications_mirror(a: ContractView, b: ContractView)
    requires
        is_valid(a),
        is_valid(b),
    ensures
        modifications(contract_diff(a, b)).to_multiset() == swapped_modifications(
            contract_diff(b, a),
        ).to_multiset(),
{
    let x = contract_diff(a, b);
    let y = contract_diff(b, a);
    lemma_diff_mirrors(a, b);
    crate::paths::lemma_diff_paths_distinct(a, b);
    crate::paths::lemma_diff_paths_distinct(b, a);
    lemma_modifications_no_dup(x);
    lemma_modifications_no_dup(y);
    let s = modifications(x);
    let t = swapped_modifications(y);
    assert forall|e: (Seq<char>, Seq<char>, Seq<char>)| s.contains(e) <==> t.contains(e) by {
        let (p, u, v) = e;
        lemma_modifications_members(x, p, u, v);
        lemma_modifications_members(y, p, v, u);
        assert(x.contains(ChangeView::Modified { path: p, old: u, new: v }) <==> y.contains(
            ChangeView::Modified { path: p, old: v, new: u },
        ));
    }
    lemma_same_members_same_multiset(s, t);
}

} // verus!
