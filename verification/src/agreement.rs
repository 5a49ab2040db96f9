//! When the diff between two valid contracts is empty: exactly when they
//! agree up to the order of their inputs, outputs and actions.

use vstd::prelude::*;
use crate::diff::{
    ChangeView, action_added, action_changes, action_path, action_types, actions_diff,
    contract_diff, distinct_keys, input_changes, input_names, input_path,
    lemma_first_of_distinct, lemma_valid_has_distinct_keys, new_action_changes,
    new_actions_changes, new_input_changes, new_inputs_changes, new_output_changes,
    new_outputs_changes, opt_input_type_text, output_added, output_changes, output_names,
    output_path, outputs_diff, project_changes, removed_actions, removed_inputs, removed_outputs,
};
use crate::model::{ActionView, ContractView, InputView, OutputView, is_valid};

verus! {

/// Two inputs agree up to order: the same description and type, and the
/// same outputs and the same actions, in whatever order.
pub open spec fn inputs_agree(x: InputView, y: InputView) -> bool {
    &&& x.description == y.description
    &&& x.input_type == y.input_type
    &&& x.outputs.to_set() == y.outputs.to_set()
    &&& x.actions.to_set() == y.actions.to_set()
}

/// Two contracts agree up to order: the same project, the same input
/// names, and each input agrees with the input of the other contract that
/// bears its name.
pub open spec fn same_up_to_order(a: ContractView, b: ContractView) -> bool {
    &&& a.project == b.project
    &&& input_names(a.inputs).to_set() == input_names(b.inputs).to_set()
    &&& forall|j: int, k: int|
        0 <= j < a.inputs.len() && 0 <= k < b.inputs.len() && a.inputs[j].name == b.inputs[k].name
            ==> inputs_agree(#[trigger] a.inputs[j], #[trigger] b.inputs[k])
}

// ---------------------------------------------------------------------
// Outputs
// ---------------------------------------------------------------------

proof fn lemma_new_outputs_len(o: Seq<OutputView>, n: Seq<OutputView>, base: Seq<char>, m: nat)
    requires
        m <= n.len(),
    ensures
        new_outputs_changes(o, n, base, m).len() == 0 <==> forall|k: int|
            0 <= k < m ==> (#[trigger] new_output_changes(o, n[k], base)).len() == 0,
    decreases m,
{
    if m > 0 {
        lemma_new_outputs_len(o, n, base, (m - 1) as nat);
    }
}

proof fn lemma_removed_outputs_len(o: Seq<OutputView>, n: Seq<OutputView>, base: Seq<char>, m: nat)
    requires
        m <= o.len(),
    ensures
        removed_outputs(o, n, base, m).len() == 0 <==> forall|j: int|
            0 <= j < m ==> output_names(n).contains(#[trigger] o[j].name),
    decreases m,
{
    if m > 0 {
        lemma_removed_outputs_len(o, n, base, (m - 1) as nat);
    }
}

proof fn lemma_output_changes_len(x: OutputView, y: OutputView, base: Seq<char>)
    ensures
        output_changes(x, y, base).len() == 0 <==> (x.description == y.description
            && x.output_type == y.output_type && x.location == y.location),
{
}

/// The one output of `o` that bears the name of `y` (names being distinct)
/// is the one that `y` is compared with.
proof fn lemma_output_match(o: Seq<OutputView>, y: OutputView, base: Seq<char>, j: int)
    requires
        distinct_keys(output_names(o)),
        0 <= j < o.len(),
        o[j].name == y.name,
    ensures
        new_output_changes(o, y, base) == output_changes(o[j], y, base),
{
    assert(output_names(o)[j] == o[j].name);
    lemma_first_of_distinct(output_names(o), j);
}

proof fn lemma_outputs_diff_empty(o: Seq<OutputView>, n: Seq<OutputView>, base: Seq<char>)
    requires
        distinct_keys(output_names(o)),
        distinct_keys(output_names(n)),
    ensures
        outputs_diff(o, n, base).len() == 0 <==> o.to_set() == n.to_set(),
{
    lemma_new_outputs_len(o, n, base, n.len());
    lemma_removed_outputs_len(o, n, base, o.len());
    if outputs_diff(o, n, base).len() == 0 {
        assert forall|v: OutputView| n.contains(v) implies o.contains(v) by {
            let k = choose|k: int| 0 <= k < n.len() && n[k] == v;
            assert(new_output_changes(o, n[k], base).len() == 0);
            output_names(o).index_of_first_ensures(n[k].name);
            match output_names(o).index_of_first(n[k].name) {
                Some(j) => {
                    assert(output_names(o)[j] == o[j].name);
                    lemma_output_changes_len(o[j], n[k], base);
                    assert(o[j] == n[k]);
                },
                None => {
                    assert(output_added(output_path(base, n[k].name), n[k]).len() > 0);
                },
            }
        }
        assert forall|v: OutputView| o.contains(v) implies n.contains(v) by {
            let j = choose|j: int| 0 <= j < o.len() && o[j] == v;
            assert(output_names(n).contains(o[j].name));
            let k = choose|k: int| 0 <= k < output_names(n).len() && output_names(n)[k] == o[j].name;
            assert(n[k].name == o[j].name);
            assert(new_output_changes(o, n[k], base).len() == 0);
            lemma_output_match(o, n[k], base, j);
            lemma_output_changes_len(o[j], n[k], base);
            assert(o[j] == n[k]);
        }
        assert(o.to_set() =~= n.to_set());
    }
    if o.to_set() == n.to_set() {
        assert forall|k: int| 0 <= k < n.len() implies (#[trigger] new_output_changes(o, n[k], base)).len()
            == 0 by {
            assert(n.to_set().contains(n[k]));
            assert(o.contains(n[k]));
            let j = choose|j: int| 0 <= j < o.len() && o[j] == n[k];
            lemma_output_match(o, n[k], base, j);
        }
        assert forall|j: int| 0 <= j < o.len() implies output_names(n).contains(#[trigger] o[j].name) by {
            assert(o.to_set().contains(o[j]));
            assert(n.contains(o[j]));
            let k = choose|k: int| 0 <= k < n.len() && n[k] == o[j];
            assert(output_names(n)[k] == o[j].name);
        }
    }
}

// ---------------------------------------------------------------------
// Actions
// ---------------------------------------------------------------------

proof fn lemma_new_actions_len(o: Seq<ActionView>, n: Seq<ActionView>, base: Seq<char>, m: nat)
    requires
        m <= n.len(),
    ensures
        new_actions_changes(o, n, base, m).len() == 0 <==> forall|k: int|
            0 <= k < m ==> (#[trigger] new_action_changes(o, n[k], base)).len() == 0,
    decreases m,
{
    if m > 0 {
        lemma_new_actions_len(o, n, base, (m - 1) as nat);
    }
}

proof fn lemma_removed_actions_len(o: Seq<ActionView>, n: Seq<ActionView>, base: Seq<char>, m: nat)
    requires
        m <= o.len(),
    ensures
        removed_actions(o, n, base, m).len() == 0 <==> forall|j: int|
            0 <= j < m ==> action_types(n).contains(#[trigger] o[j].action_type),
    decreases m,
{
    if m > 0 {
        lemma_removed_actions_len(o, n, base, (m - 1) as nat);
    }
}

proof fn lemma_action_match(o: Seq<ActionView>, y: ActionView, base: Seq<char>, j: int)
    requires
        distinct_keys(action_types(o)),
        0 <= j < o.len(),
        o[j].action_type == y.action_type,
    ensures
        new_action_changes(o, y, base) == action_changes(o[j], y, base),
{
    assert(action_types(o)[j] == o[j].action_type);
    lemma_first_of_distinct(action_types(o), j);
}

proof fn lemma_actions_diff_empty(o: Seq<ActionView>, n: Seq<ActionView>, base: Seq<char>)
    requires
        distinct_keys(action_types(o)),
        distinct_keys(action_types(n)),
    ensures
        actions_diff(o, n, base).len() == 0 <==> o.to_set() == n.to_set(),
{
    lemma_new_actions_len(o, n, base, n.len());
    lemma_removed_actions_len(o, n, base, o.len());
    if actions_diff(o, n, base).len() == 0 {
        assert forall|v: ActionView| n.contains(v) implies o.contains(v) by {
            let k = choose|k: int| 0 <= k < n.len() && n[k] == v;
            assert(new_action_changes(o, n[k], base).len() == 0);
            action_types(o).index_of_first_ensures(n[k].action_type);
            match action_types(o).index_of_first(n[k].action_type) {
                Some(j) => {
                    assert(action_types(o)[j] == o[j].action_type);
                    assert(o[j] == n[k]);
                },
                None => {
                    assert(action_added(action_path(base, n[k].action_type), n[k]).len() > 0);
                },
            }
        }
        assert forall|v: ActionView| o.contains(v) implies n.contains(v) by {
            let j = choose|j: int| 0 <= j < o.len() && o[j] == v;
            assert(action_types(n).contains(o[j].action_type));
            let k = choose|k: int| 0 <= k < action_types(n).len() && action_types(n)[k] == o[j].action_type;
            assert(n[k].action_type == o[j].action_type);
            assert(new_action_changes(o, n[k], base).len() == 0);
            lemma_action_match(o, n[k], base, j);
            assert(o[j] == n[k]);
        }
        assert(o.to_set() =~= n.to_set());
    }
    if o.to_set() == n.to_set() {
        assert forall|k: int| 0 <= k < n.len() implies (#[trigger] new_action_changes(o, n[k], base)).len()
            == 0 by {
            assert(n.to_set().contains(n[k]));
            assert(o.contains(n[k]));
            let j = choose|j: int| 0 <= j < o.len() && o[j] == n[k];
            lemma_action_match(o, n[k], base, j);
        }
        assert forall|j: int| 0 <= j < o.len() implies action_types(n).contains(#[trigger] o[j].action_type) by {
            assert(o.to_set().contains(o[j]));
            assert(n.contains(o[j]));
            let k = choose|k: int| 0 <= k < n.len() && n[k] == o[j];
            assert(action_types(n)[k] == o[j].action_type);
        }
    }
}

// ---------------------------------------------------------------------
// Inputs and the whole contract
// ---------------------------------------------------------------------

proof fn lemma_new_inputs_len(o: Seq<InputView>, n: Seq<InputView>, m: nat)
    requires
        m <= n.len(),
    ensures
        new_inputs_changes(o, n, m).len() == 0 <==> forall|k: int|
            0 <= k < m ==> (#[trigger] new_input_changes(o, n[k])).len() == 0,
    decreases m,
{
    if m > 0 {
        lemma_new_inputs_len(o, n, (m - 1) as nat);
    }
}

proof fn lemma_removed_inputs_len(o: Seq<InputView>, n: Seq<InputView>, m: nat)
    requires
        m <= o.len(),
    ensures
        removed_inputs(o, n, m).len() == 0 <==> forall|j: int|
            0 <= j < m ==> input_names(n).contains(#[trigger] o[j].name),
    decreases m,
{
    if m > 0 {
        lemma_removed_inputs_len(o, n, (m - 1) as nat);
    }
}

proof fn lemma_input_changes_empty(x: InputView, y: InputView)
    requires
        distinct_keys(output_names(x.outputs)),
        distinct_keys(output_names(y.outputs)),
        distinct_keys(action_types(x.actions)),
        distinct_keys(action_types(y.actions)),
    ensures
        input_changes(x, y).len() == 0 <==> inputs_agree(x, y),
{
    let base = input_path(y.name);
    lemma_outputs_diff_empty(x.outputs, y.outputs, base);
    lemma_actions_diff_empty(x.actions, y.actions, base);
    let d = if x.description != y.description {
        seq![ChangeView::Modified { path: base + ".description"@, old: x.description, new: y.description }]
    } else {
        Seq::<ChangeView>::empty()
    };
    let t = if x.input_type != y.input_type {
        seq![
            ChangeView::Modified {
                path: base + ".type"@,
                old: opt_input_type_text(x.input_type),
                new: opt_input_type_text(y.input_type),
            },
        ]
    } else {
        Seq::<ChangeView>::empty()
    };
    let od = outputs_diff(x.outputs, y.outputs, base);
    let ad = actions_diff(x.actions, y.actions, base);
    assert(input_changes(x, y) == d + t + od + ad);
}

proof fn lemma_input_match(o: Seq<InputView>, y: InputView, j: int)
    requires
        distinct_keys(input_names(o)),
        0 <= j < o.len(),
        o[j].name == y.name,
    ensures
        new_input_changes(o, y) == input_changes(o[j], y),
{
    assert(input_names(o)[j] == o[j].name);
    lemma_first_of_distinct(input_names(o), j);
}

/// The diff between two valid contracts is empty exactly when they agree
/// up to order: the same project, the same input names, and inputs of one
/// name with the same description and type and the same outputs and the
/// same actions, in whatever order.
pub proof fn lemma_empty_diff_iff_same_up_to_order(a: ContractView, b: ContractView)
    requires
        is_valid(a),
        is_valid(b),
    ensures
        contract_diff(a, b) == Seq::<ChangeView>::empty() <==> same_up_to_order(a, b),
{
    lemma_valid_has_distinct_keys(a);
    lemma_valid_has_distinct_keys(b);
    let o = a.inputs;
    let n = b.inputs;
    lemma_new_inputs_len(o, n, n.len());
    lemma_removed_inputs_len(o, n, o.len());
    let pc = project_changes(a.project, b.project);
    assert(pc.len() == 0 <==> a.project == b.project);
    let d = contract_diff(a, b);
    assert(d.len() == pc.len() + new_inputs_changes(o, n, n.len()).len() + removed_inputs(o, n, o.len()).len());
    if d.len() == 0 {
        assert forall|v: Seq<char>| input_names(n).contains(v) implies input_names(o).contains(v) by {
            let k = choose|k: int| 0 <= k < input_names(n).len() && input_names(n)[k] == v;
            assert(n[k].name == v);
            assert(new_input_changes(o, n[k]).len() == 0);
            input_names(o).index_of_first_ensures(v);
        }
        assert forall|v: Seq<char>| input_names(o).contains(v) implies input_names(n).contains(v) by {
            let j = choose|j: int| 0 <= j < input_names(o).len() && input_names(o)[j] == v;
            assert(o[j].name == v);
        }
        assert(input_names(o).to_set() =~= input_names(n).to_set());
        assert forall|j: int, k: int|
            0 <= j < o.len() && 0 <= k < n.len() && o[j].name == n[k].name implies inputs_agree(
            #[trigger] o[j],
            #[trigger] n[k],
        ) by {
            assert(new_input_changes(o, n[k]).len() == 0);
            lemma_input_match(o, n[k], j);
            assert(distinct_keys(output_names(a.inputs[j].outputs)));
            assert(distinct_keys(output_names(b.inputs[k].outputs)));
            lemma_input_changes_empty(o[j], n[k]);
        }
        assert(d =~= Seq::<ChangeView>::empty());
    }
    if same_up_to_order(a, b) {
        assert forall|k: int| 0 <= k < n.len() implies (#[trigger] new_input_changes(o, n[k])).len() == 0 by {
            assert(input_names(n)[k] == n[k].name);
            assert(input_names(n).to_set().contains(n[k].name));
            assert(input_names(o).contains(n[k].name));
            let j = choose|j: int| 0 <= j < input_names(o).len() && input_names(o)[j] == n[k].name;
            assert(o[j].name == n[k].name);
            lemma_input_match(o, n[k], j);
            assert(inputs_agree(o[j], n[k]));
            assert(distinct_keys(output_names(a.inputs[j].outputs)));
            assert(distinct_keys(output_names(b.inputs[k].outputs)));
            lemma_input_changes_empty(o[j], n[k]);
        }
        assert forall|j: int| 0 <= j < o.len() implies input_names(n).contains(#[trigger] o[j].name) by {
            assert(input_names(o)[j] == o[j].name);
            assert(input_names(o).to_set().contains(o[j].name));
            assert(input_names(n).to_set().contains(o[j].name));
        }
        assert(d =~= Seq::<ChangeView>::empty());
    }
}

} // verus!
