//! Field-level changes between two contracts. Each change carries a stable
//! path: `project.description`, `inputs[<name>].outputs[<name>].location`,
//! `inputs[<name>].actions[<type>].instructions`, and so on. Inputs and
//! outputs are matched by name and actions by type, never by position.

use vstd::prelude::*;
use vstd::utf8::encode_utf8;
use crate::model::{
    Action, ActionView, Input, InputType, InputView, Output, OutputType, OutputView, Project,
    ProjectContract, ProjectView, ContractView, input_ok, is_valid, opt_view, view_actions, view_inputs, view_outputs,
};
use crate::text::{decimal, decimal_string, join2, join3, owned, utf8_len};

verus! {

/// One change between an old and a new contract.
#[derive(Debug, Clone, PartialEq, Eq)]
pub enum FieldChange {
    /// A field that the old version did not have.
    Added { path: String, value: String },
    /// A field whose value differs between the versions.
    Modified { path: String, old: String, new: String },
    /// A field of the old version that the new one no longer has.
    Removed { path: String, old: String },
}

pub enum ChangeView {
    Added { path: Seq<char>, value: Seq<char> },
    Modified { path: Seq<char>, old: Seq<char>, new: Seq<char> },
    Removed { path: Seq<char>, old: Seq<char> },
}

impl ChangeView {
    pub open spec fn path(self) -> Seq<char> {
        match self {
            ChangeView::Added { path, .. } => path,
            ChangeView::Modified { path, .. } => path,
            ChangeView::Removed { path, .. } => path,
        }
    }
}

impl View for FieldChange {
    type V = ChangeView;

    open spec fn view(&self) -> ChangeView {
        match self {
            FieldChange::Added { path, value } => ChangeView::Added { path: path@, value: value@ },
            FieldChange::Modified { path, old, new } => ChangeView::Modified {
                path: path@,
                old: old@,
                new: new@,
            },
            FieldChange::Removed { path, old } => ChangeView::Removed { path: path@, old: old@ },
        }
    }
}

pub open spec fn view_changes(s: Seq<FieldChange>) -> Seq<ChangeView> {
    s.map_values(|c: FieldChange| c@)
}

impl FieldChange {
    /// The path of the field that this change is about.
    pub fn path(&self) -> (r: &String)
        ensures
            r@ == self@.path(),
    {
        match self {
            FieldChange::Added { path, .. } => path,
            FieldChange::Modified { path, .. } => path,
            FieldChange::Removed { path, .. } => path,
        }
    }
}

// ---------------------------------------------------------------------
// How values are written in changes
// ---------------------------------------------------------------------

/// An input type as its variant name (`File`, `Directory`, ...).
pub open spec fn input_type_name(t: InputType) -> Seq<char> {
    match t {
        InputType::File => "File"@,
        InputType::Directory => "Directory"@,
        InputType::Text => "Text"@,
        InputType::Url => "Url"@,
        InputType::Other => "Other"@,
    }
}

/// An input type in lower case (`file`, `directory`, ...).
pub open spec fn input_type_text(t: InputType) -> Seq<char> {
    match t {
        InputType::File => "file"@,
        InputType::Directory => "directory"@,
        InputType::Text => "text"@,
        InputType::Url => "url"@,
        InputType::Other => "other"@,
    }
}

/// An optional input type as a modification reports it: `Some(File)`,
/// `None`, ...
pub open spec fn opt_input_type_text(t: Option<InputType>) -> Seq<char> {
    match t {
        Some(t) => "Some("@ + input_type_name(t) + ")"@,
        None => "None"@,
    }
}

/// An output type in lower case.
pub open spec fn output_type_text(t: OutputType) -> Seq<char> {
    match t {
        OutputType::File => "file"@,
        OutputType::Directory => "directory"@,
    }
}

/// One line describing an output: `<type> output at <location>`.
pub open spec fn output_summary(o: OutputView) -> Seq<char> {
    output_type_text(o.output_type) + " output at "@ + o.location
}

/// One line describing an input: how many outputs and actions it has.
pub open spec fn input_summary(i: InputView) -> Seq<char> {
    "input with "@ + decimal(i.outputs.len()) + " outputs and "@ + decimal(i.actions.len())
        + " actions"@
}

/// The number of bytes of a text in UTF-8.
pub open spec fn byte_len(s: Seq<char>) -> nat {
    encode_utf8(s).len()
}

/// One line describing an action: how long its instructions are.
pub open spec fn action_summary(a: ActionView) -> Seq<char> {
    "action with "@ + decimal((byte_len(a.instructions) as usize) as nat)
        + " chars of instructions"@
}

pub open spec fn opt_text(o: Option<Seq<char>>) -> Seq<char> {
    match o {
        Some(s) => s,
        None => Seq::empty(),
    }
}

// ---------------------------------------------------------------------
// Paths
// ---------------------------------------------------------------------

/// `inputs[<name>]`
pub open spec fn input_path(name: Seq<char>) -> Seq<char> {
    "inputs["@ + name + "]"@
}

/// `<base>.outputs[<name>]`
pub open spec fn output_path(base: Seq<char>, name: Seq<char>) -> Seq<char> {
    base + ".outputs["@ + name + "]"@
}

/// `<base>.actions[<type>]`
pub open spec fn action_path(base: Seq<char>, action_type: Seq<char>) -> Seq<char> {
    base + ".actions["@ + action_type + "]"@
}

pub open spec fn input_names(s: Seq<InputView>) -> Seq<Seq<char>> {
    s.map_values(|i: InputView| i.name)
}

pub open spec fn output_names(s: Seq<OutputView>) -> Seq<Seq<char>> {
    s.map_values(|o: OutputView| o.name)
}

pub open spec fn action_types(s: Seq<ActionView>) -> Seq<Seq<char>> {
    s.map_values(|a: ActionView| a.action_type)
}

// ---------------------------------------------------------------------
// The diff
// ---------------------------------------------------------------------

/// Changes to the project's name and description.
pub open spec fn project_changes(old: ProjectView, new: ProjectView) -> Seq<ChangeView> {
    (if old.name != new.name {
        seq![ChangeView::Modified { path: "project.name"@, old: old.name, new: new.name }]
    } else {
        seq![]
    }) + (if old.description != new.description {
        seq![
            ChangeView::Modified {
                path: "project.description"@,
                old: old.description,
                new: new.description,
            },
        ]
    } else {
        seq![]
    })
}

/// Changes to an action that both versions have.
pub open spec fn action_changes(old: ActionView, new: ActionView, base: Seq<char>) -> Seq<ChangeView> {
    let path = action_path(base, new.action_type);
    if old.instructions != new.instructions {
        seq![
            ChangeView::Modified {
                path: path + ".instructions"@,
                old: old.instructions,
                new: new.instructions,
            },
        ]
    } else {
        seq![]
    }
}

/// The changes that a new action brings.
pub open spec fn action_added(path: Seq<char>, new: ActionView) -> Seq<ChangeView> {
    seq![
        ChangeView::Added { path, value: action_summary(new) },
        ChangeView::Added { path: path + ".instructions"@, value: new.instructions },
    ]
}

/// The changes of one action of the new version.
pub open spec fn new_action_changes(old: Seq<ActionView>, new: ActionView, base: Seq<char>) -> Seq<
    ChangeView,
> {
    match action_types(old).index_of_first(new.action_type) {
        Some(j) => action_changes(old[j], new, base),
        None => action_added(action_path(base, new.action_type), new),
    }
}

/// The changes of the first `n` actions of the new version.
pub open spec fn new_actions_changes(
    old: Seq<ActionView>,
    new: Seq<ActionView>,
    base: Seq<char>,
    n: nat,
) -> Seq<ChangeView>
    decreases n,
{
    if n == 0 {
        seq![]
    } else {
        new_actions_changes(old, new, base, (n - 1) as nat) + new_action_changes(
            old,
            new[n - 1],
            base,
        )
    }
}

/// The removals among the first `n` actions of the old version.
pub open spec fn removed_actions(
    old: Seq<ActionView>,
    new: Seq<ActionView>,
    base: Seq<char>,
    n: nat,
) -> Seq<ChangeView>
    decreases n,
{
    if n == 0 {
        seq![]
    } else {
        removed_actions(old, new, base, (n - 1) as nat) + (if action_types(new).contains(
            old[n - 1].action_type,
        ) {
            seq![]
        } else {
            seq![
                ChangeView::Removed {
                    path: action_path(base, old[n - 1].action_type),
                    old: old[n - 1].instructions,
                },
            ]
        })
    }
}

/// All changes between two lists of actions under `base`.
pub open spec fn actions_diff(old: Seq<ActionView>, new: Seq<ActionView>, base: Seq<char>) -> Seq<
    ChangeView,
> {
    new_actions_changes(old, new, base, new.len()) + removed_actions(old, new, base, old.len())
}

/// Changes to an output that both versions have.
pub open spec fn output_changes(old: OutputView, new: OutputView, base: Seq<char>) -> Seq<ChangeView> {
    let path = output_path(base, new.name);
    (if old.description != new.description {
        seq![
            ChangeView::Modified {
                path: path + ".description"@,
                old: opt_text(old.description),
                new: opt_text(new.description),
            },
        ]
    } else {
        seq![]
    }) + (if old.output_type != new.output_type {
        seq![
            ChangeView::Modified {
                path: path + ".type"@,
                old: output_type_text(old.output_type),
                new: output_type_text(new.output_type),
            },
        ]
    } else {
        seq![]
    }) + (if old.location != new.location {
        seq![
            ChangeView::Modified {
                path: path + ".location"@,
                old: old.location,
                new: new.location,
            },
        ]
    } else {
        seq![]
    })
}

/// The changes that a new output brings.
pub open spec fn output_added(path: Seq<char>, new: OutputView) -> Seq<ChangeView> {
    seq![ChangeView::Added { path, value: output_summary(new) }] + (match new.description {
        Some(d) => seq![ChangeView::Added { path: path + ".description"@, value: d }],
        None => seq![],
    }) + seq![
        ChangeView::Added { path: path + ".type"@, value: output_type_text(new.output_type) },
        ChangeView::Added { path: path + ".location"@, value: new.location },
    ]
}

/// The changes of one output of the new version.
pub open spec fn new_output_changes(old: Seq<OutputView>, new: OutputView, base: Seq<char>) -> Seq<
    ChangeView,
> {
    match output_names(old).index_of_first(new.name) {
        Some(j) => output_changes(old[j], new, base),
        None => output_added(output_path(base, new.name), new),
    }
}

/// The changes of the first `n` outputs of the new version.
pub open spec fn new_outputs_changes(
    old: Seq<OutputView>,
    new: Seq<OutputView>,
    base: Seq<char>,
    n: nat,
) -> Seq<ChangeView>
    decreases n,
{
    if n == 0 {
        seq![]
    } else {
        new_outputs_changes(old, new, base, (n - 1) as nat) + new_output_changes(
            old,
            new[n - 1],
            base,
        )
    }
}

/// The removals among the first `n` outputs of the old version.
pub open spec fn removed_outputs(
    old: Seq<OutputView>,
    new: Seq<OutputView>,
    base: Seq<char>,
    n: nat,
) -> Seq<ChangeView>
    decreases n,
{
    if n == 0 {
        seq![]
    } else {
        removed_outputs(old, new, base, (n - 1) as nat) + (if output_names(new).contains(
            old[n - 1].name,
        ) {
            seq![]
        } else {
            seq![
                ChangeView::Removed {
                    path: output_path(base, old[n - 1].name),
                    old: output_summary(old[n - 1]),
                },
            ]
        })
    }
}

/// All changes between two lists of outputs under `base`.
pub open spec fn outputs_diff(old: Seq<OutputView>, new: Seq<OutputView>, base: Seq<char>) -> Seq<
    ChangeView,
> {
    new_outputs_changes(old, new, base, new.len()) + removed_outputs(old, new, base, old.len())
}

/// Changes to an input that both versions have.
pub open spec fn input_changes(old: InputView, new: InputView) -> Seq<ChangeView> {
    let base = input_path(new.name);
    (if old.description != new.description {
        seq![
            ChangeView::Modified {
                path: base + ".description"@,
                old: old.description,
                new: new.description,
            },
        ]
    } else {
        seq![]
    }) + (if old.input_type != new.input_type {
        seq![
            ChangeView::Modified {
                path: base + ".type"@,
                old: opt_input_type_text(old.input_type),
                new: opt_input_type_text(new.input_type),
            },
        ]
    } else {
        seq![]
    }) + outputs_diff(old.outputs, new.outputs, base) + actions_diff(
        old.actions,
        new.actions,
        base,
    )
}

/// The additions for the first `n` outputs of a new input.
pub open spec fn outputs_added(base: Seq<char>, outputs: Seq<OutputView>, n: nat) -> Seq<
    ChangeView,
>
    decreases n,
{
    if n == 0 {
        seq![]
    } else {
        outputs_added(base, outputs, (n - 1) as nat) + output_added(
            output_path(base, outputs[n - 1].name),
            outputs[n - 1],
        )
    }
}

/// The additions for the first `n` actions of a new input.
pub open spec fn actions_added(base: Seq<char>, actions: Seq<ActionView>, n: nat) -> Seq<
    ChangeView,
>
    decreases n,
{
    if n == 0 {
        seq![]
    } else {
        actions_added(base, actions, (n - 1) as nat) + action_added(
            action_path(base, actions[n - 1].action_type),
            actions[n - 1],
        )
    }
}

/// The changes that the fields of a new input bring (the input itself is
/// reported by its caller).
pub open spec fn input_added(base: Seq<char>, new: InputView) -> Seq<ChangeView> {
    (if new.description.len() != 0 {
        seq![ChangeView::Added { path: base + ".description"@, value: new.description }]
    } else {
        seq![]
    }) + (match new.input_type {
        Some(t) => seq![ChangeView::Added { path: base + ".type"@, value: input_type_text(t) }],
        None => seq![],
    }) + outputs_added(base, new.outputs, new.outputs.len()) + actions_added(
        base,
        new.actions,
        new.actions.len(),
    )
}

/// The changes of one input of the new version.
pub open spec fn new_input_changes(old: Seq<InputView>, new: InputView) -> Seq<ChangeView> {
    match input_names(old).index_of_first(new.name) {
        Some(j) => input_changes(old[j], new),
        None => seq![
            ChangeView::Added { path: input_path(new.name), value: input_summary(new) },
        ] + input_added(input_path(new.name), new),
    }
}

/// The changes of the first `n` inputs of the new version.
pub open spec fn new_inputs_changes(old: Seq<InputView>, new: Seq<InputView>, n: nat) -> Seq<
    ChangeView,
>
    decreases n,
{
    if n == 0 {
        seq![]
    } else {
        new_inputs_changes(old, new, (n - 1) as nat) + new_input_changes(old, new[n - 1])
    }
}

/// The removals among the first `n` inputs of the old version.
pub open spec fn removed_inputs(old: Seq<InputView>, new: Seq<InputView>, n: nat) -> Seq<
    ChangeView,
>
    decreases n,
{
    if n == 0 {
        seq![]
    } else {
        removed_inputs(old, new, (n - 1) as nat) + (if input_names(new).contains(old[n - 1].name) {
            seq![]
        } else {
            seq![
                ChangeView::Removed {
                    path: input_path(old[n - 1].name),
                    old: input_summary(old[n - 1]),
                },
            ]
        })
    }
}

/// All changes between two lists of inputs.
pub open spec fn inputs_diff(old: Seq<InputView>, new: Seq<InputView>) -> Seq<ChangeView> {
    new_inputs_changes(old, new, new.len()) + removed_inputs(old, new, old.len())
}

/// All changes from `old` to `new`: first the project's fields, then, for
/// each input of `new` in order, its changes (or its addition), then the
/// inputs of `old` that `new` no longer has. Within an input the same
/// order holds for its outputs and then its actions.
pub open spec fn contract_diff(old: ContractView, new: ContractView) -> Seq<ChangeView> {
    project_changes(old.project, new.project) + inputs_diff(old.inputs, new.inputs)
}


// ---------------------------------------------------------------------
// Laws of the diff
// ---------------------------------------------------------------------

/// No two items of `s` share a key.
pub open spec fn distinct_keys(keys: Seq<Seq<char>>) -> bool {
    forall|j: int, k: int| 0 <= j < k < keys.len() ==> keys[j] != keys[k]
}

/// Every input, output and action of `c` is the only one with its key at
/// its level (a valid contract has this).
pub open spec fn keys_distinct(c: ContractView) -> bool {
    &&& distinct_keys(input_names(c.inputs))
    &&& forall|k: int|
        0 <= k < c.inputs.len() ==> distinct_keys(output_names(#[trigger] c.inputs[k].outputs))
            && distinct_keys(action_types(c.inputs[k].actions))
}

pub(crate) proof fn lemma_first_of_distinct(keys: Seq<Seq<char>>, k: int)
    requires
        distinct_keys(keys),
        0 <= k < keys.len(),
    ensures
        keys.index_of_first(keys[k]) == Some(k),
{
    keys.index_of_first_ensures(keys[k]);
    assert(keys.contains(keys[k]));
    let j = keys.index_of_first(keys[k]).unwrap();
    if j < k {
        assert(keys[j] != keys[k]);
    }
}

proof fn lemma_actions_diff_same(a: Seq<ActionView>, base: Seq<char>)
    requires
        distinct_keys(action_types(a)),
    ensures
        actions_diff(a, a, base) == Seq::<ChangeView>::empty(),
{
    assert forall|n: nat| n <= a.len() implies new_actions_changes(a, a, base, n)
        == Seq::<ChangeView>::empty() by {
        lemma_new_actions_same(a, base, n);
    }
    assert forall|n: nat| n <= a.len() implies removed_actions(a, a, base, n)
        == Seq::<ChangeView>::empty() by {
        lemma_removed_actions_same(a, base, n);
    }
    assert(actions_diff(a, a, base) =~= Seq::<ChangeView>::empty());
}

proof fn lemma_new_actions_same(a: Seq<ActionView>, base: Seq<char>, n: nat)
    requires
        distinct_keys(action_types(a)),
        n <= a.len(),
    ensures
        new_actions_changes(a, a, base, n) == Seq::<ChangeView>::empty(),
    decreases n,
{
    if n > 0 {
        lemma_new_actions_same(a, base, (n - 1) as nat);
        lemma_first_of_distinct(action_types(a), n - 1);
        assert(new_actions_changes(a, a, base, n) =~= Seq::<ChangeView>::empty());
    }
}

proof fn lemma_removed_actions_same(a: Seq<ActionView>, base: Seq<char>, n: nat)
    requires
        n <= a.len(),
    ensures
        removed_actions(a, a, base, n) == Seq::<ChangeView>::empty(),
    decreases n,
{
    if n > 0 {
        lemma_removed_actions_same(a, base, (n - 1) as nat);
        assert(action_types(a)[n - 1] == a[n - 1].action_type);
        assert(action_types(a).contains(a[n - 1].action_type));
        assert(removed_actions(a, a, base, n) =~= Seq::<ChangeView>::empty());
    }
}

proof fn lemma_new_outputs_same(o: Seq<OutputView>, base: Seq<char>, n: nat)
    requires
        distinct_keys(output_names(o)),
        n <= o.len(),
    ensures
        new_outputs_changes(o, o, base, n) == Seq::<ChangeView>::empty(),
    decreases n,
{
    if n > 0 {
        lemma_new_outputs_same(o, base, (n - 1) as nat);
        lemma_first_of_distinct(output_names(o), n - 1);
        assert(new_outputs_changes(o, o, base, n) =~= Seq::<ChangeView>::empty());
    }
}

proof fn lemma_removed_outputs_same(o: Seq<OutputView>, base: Seq<char>, n: nat)
    requires
        n <= o.len(),
    ensures
        removed_outputs(o, o, base, n) == Seq::<ChangeView>::empty(),
    decreases n,
{
    if n > 0 {
        lemma_removed_outputs_same(o, base, (n - 1) as nat);
        assert(output_names(o)[n - 1] == o[n - 1].name);
        assert(output_names(o).contains(o[n - 1].name));
        assert(removed_outputs(o, o, base, n) =~= Seq::<ChangeView>::empty());
    }
}

pub(crate) proof fn lemma_input_changes_same(i: InputView)
    requires
        distinct_keys(output_names(i.outputs)),
        distinct_keys(action_types(i.actions)),
    ensures
        input_changes(i, i) == Seq::<ChangeView>::empty(),
{
    let base = input_path(i.name);
    lemma_new_outputs_same(i.outputs, base, i.outputs.len());
    lemma_removed_outputs_same(i.outputs, base, i.outputs.len());
    lemma_actions_diff_same(i.actions, base);
    assert(outputs_diff(i.outputs, i.outputs, base) =~= Seq::<ChangeView>::empty());
    assert(input_changes(i, i) =~= Seq::<ChangeView>::empty());
}

proof fn lemma_new_inputs_same(c: ContractView, n: nat)
    requires
        keys_distinct(c),
        n <= c.inputs.len(),
    ensures
        new_inputs_changes(c.inputs, c.inputs, n) == Seq::<ChangeView>::empty(),
    decreases n,
{
    if n > 0 {
        lemma_new_inputs_same(c, (n - 1) as nat);
        lemma_first_of_distinct(input_names(c.inputs), n - 1);
        lemma_input_changes_same(c.inputs[n - 1]);
        assert(new_inputs_changes(c.inputs, c.inputs, n) =~= Seq::<ChangeView>::empty());
    }
}

proof fn lemma_removed_inputs_same(s: Seq<InputView>, n: nat)
    requires
        n <= s.len(),
    ensures
        removed_inputs(s, s, n) == Seq::<ChangeView>::empty(),
    decreases n,
{
    if n > 0 {
        lemma_removed_inputs_same(s, (n - 1) as nat);
        assert(input_names(s)[n - 1] == s[n - 1].name);
        assert(input_names(s).contains(s[n - 1].name));
        assert(removed_inputs(s, s, n) =~= Seq::<ChangeView>::empty());
    }
}

/// A contract whose keys are distinct (every valid contract) has no
/// change against itself.
pub proof fn lemma_diff_of_same_is_empty(c: ContractView)
    requires
        keys_distinct(c),
    ensures
        contract_diff(c, c) == Seq::<ChangeView>::empty(),
{
    lemma_new_inputs_same(c, c.inputs.len());
    lemma_removed_inputs_same(c.inputs, c.inputs.len());
    assert(contract_diff(c, c) =~= Seq::<ChangeView>::empty());
}

/// Every valid contract has distinct keys at every level.
pub proof fn lemma_valid_has_distinct_keys(c: ContractView)
    requires
        is_valid(c),
    ensures
        keys_distinct(c),
{
    assert forall|j: int, k: int| 0 <= j < k < input_names(c.inputs).len() implies input_names(
        c.inputs,
    )[j] != input_names(c.inputs)[k] by {
        assert(c.inputs[j].name != c.inputs[k].name);
    }
    assert forall|k: int| 0 <= k < c.inputs.len() implies distinct_keys(
        output_names(#[trigger] c.inputs[k].outputs),
    ) && distinct_keys(action_types(c.inputs[k].actions)) by {
        let i = c.inputs[k];
        assert(input_ok(i));
        assert forall|a: int, b: int| 0 <= a < b < output_names(i.outputs).len() implies output_names(
            i.outputs,
        )[a] != output_names(i.outputs)[b] by {
            assert(i.outputs[a].name != i.outputs[b].name);
        }
        assert forall|a: int, b: int| 0 <= a < b < action_types(i.actions).len() implies action_types(
            i.actions,
        )[a] != action_types(i.actions)[b] by {
            assert(i.actions[a].action_type != i.actions[b].action_type);
        }
    }
}

// ---------------------------------------------------------------------
// Computing the diff
// ---------------------------------------------------------------------

fn push_change(changes: &mut Vec<FieldChange>, c: FieldChange)
    ensures
        view_changes(final(changes)@) == view_changes(old(changes)@).push(c@),
{
    let ghost before = changes@;
    changes.push(c);
    assert(view_changes(changes@) =~= view_changes(before).push(c@));
}

fn input_type_name_string(t: InputType) -> (r: String)
    ensures
        r@ == input_type_name(t),
{
    match t {
        InputType::File => owned("File"),
        InputType::Directory => owned("Directory"),
        InputType::Text => owned("Text"),
        InputType::Url => owned("Url"),
        InputType::Other => owned("Other"),
    }
}

fn input_type_string(t: InputType) -> (r: String)
    ensures
        r@ == input_type_text(t),
{
    match t {
        InputType::File => owned("file"),
        InputType::Directory => owned("directory"),
        InputType::Text => owned("text"),
        InputType::Url => owned("url"),
        InputType::Other => owned("other"),
    }
}

fn opt_input_type_string(t: Option<InputType>) -> (r: String)
    ensures
        r@ == opt_input_type_text(t),
{
    match t {
        Some(t) => {
            let name = input_type_name_string(t);
            join3("Some(", name.as_str(), ")")
        },
        None => owned("None"),
    }
}

fn output_type_string(t: OutputType) -> (r: String)
    ensures
        r@ == output_type_text(t),
{
    match t {
        OutputType::File => owned("file"),
        OutputType::Directory => owned("directory"),
    }
}

/// One line describing an output: `<type> output at <location>`.
pub fn format_output(o: &Output) -> (r: String)
    ensures
        r@ == output_summary(o@),
{
    let t = output_type_string(o.output_type);
    join3(t.as_str(), " output at ", o.location.as_str())
}

fn format_input(i: &Input) -> (r: String)
    ensures
        r@ == input_summary(i@),
{
    let n_outputs = decimal_string(i.outputs.len() as u64);
    let n_actions = decimal_string(i.actions.len() as u64);
    let head = join3("input with ", n_outputs.as_str(), " outputs and ");
    join3(head.as_str(), n_actions.as_str(), " actions")
}

fn format_action(a: &Action) -> (r: String)
    ensures
        r@ == action_summary(a@),
{
    let n = utf8_len(a.instructions.as_str());
    let count = decimal_string(n as u64);
    join3("action with ", count.as_str(), " chars of instructions")
}

fn opt_text_string(o: &Option<String>) -> (r: String)
    ensures
        r@ == opt_text(opt_view(*o)),
{
    match o {
        Some(s) => s.clone(),
        None => String::new(),
    }
}

fn same_opt_text(a: &Option<String>, b: &Option<String>) -> (r: bool)
    ensures
        r == (opt_view(*a) == opt_view(*b)),
{
    match (a, b) {
        (Some(x), Some(y)) => *x == *y,
        (None, None) => true,
        _ => false,
    }
}

fn same_opt_input_type(a: Option<InputType>, b: Option<InputType>) -> (r: bool)
    ensures
        r == (a == b),
{
    match (a, b) {
        (Some(x), Some(y)) => x == y,
        (None, None) => true,
        _ => false,
    }
}

proof fn lemma_first_index(keys: Seq<Seq<char>>, key: Seq<char>, j: int)
    requires
        0 <= j < keys.len(),
        keys[j] == key,
        forall|m: int| 0 <= m < j ==> keys[m] != key,
    ensures
        keys.index_of_first(key) == Some(j),
{
    keys.index_of_first_ensures(key);
    assert(keys.contains(key));
}

proof fn lemma_no_index(keys: Seq<Seq<char>>, key: Seq<char>)
    requires
        forall|m: int| 0 <= m < keys.len() ==> keys[m] != key,
    ensures
        keys.index_of_first(key) is None,
        !keys.contains(key),
{
    keys.index_of_first_ensures(key);
}

pub(crate) fn find_input(inputs: &[Input], name: &String) -> (r: Option<usize>)
    ensures
        match r {
            Some(j) => input_names(view_inputs(inputs@)).index_of_first(name@) == Some(j as int),
            None => input_names(view_inputs(inputs@)).index_of_first(name@) is None,
        },
        r is None <==> !input_names(view_inputs(inputs@)).contains(name@),
        r matches Some(j) ==> j < inputs.len() && inputs[j as int].name@ == name@,
{
    let ghost keys = input_names(view_inputs(inputs@));
    let mut j: usize = 0;
    while j < inputs.len()
        invariant
            j <= inputs.len(),
            keys == input_names(view_inputs(inputs@)),
            keys.len() == inputs.len(),
            forall|m: int| 0 <= m < j ==> keys[m] != name@,
        decreases inputs.len() - j,
    {
        assert(keys[j as int] == inputs[j as int].name@);
        if inputs[j].name == *name {
            proof {
                lemma_first_index(keys, name@, j as int);
            }
            return Some(j);
        }
        j = j + 1;
    }
    proof {
        lemma_no_index(keys, name@);
    }
    None
}

pub(crate) fn find_output(outputs: &[Output], name: &String) -> (r: Option<usize>)
    ensures
        match r {
            Some(j) => output_names(view_outputs(outputs@)).index_of_first(name@) == Some(j as int),
            None => output_names(view_outputs(outputs@)).index_of_first(name@) is None,
        },
        r is None <==> !output_names(view_outputs(outputs@)).contains(name@),
        r matches Some(j) ==> j < outputs.len() && outputs[j as int].name@ == name@,
{
    let ghost keys = output_names(view_outputs(outputs@));
    let mut j: usize = 0;
    while j < outputs.len()
        invariant
            j <= outputs.len(),
            keys == output_names(view_outputs(outputs@)),
            keys.len() == outputs.len(),
            forall|m: int| 0 <= m < j ==> keys[m] != name@,
        decreases outputs.len() - j,
    {
        assert(keys[j as int] == outputs[j as int].name@);
        if outputs[j].name == *name {
            proof {
                lemma_first_index(keys, name@, j as int);
            }
            return Some(j);
        }
        j = j + 1;
    }
    proof {
        lemma_no_index(keys, name@);
    }
    None
}

pub(crate) fn find_action(actions: &[Action], action_type: &String) -> (r: Option<usize>)
    ensures
        match r {
            Some(j) => action_types(view_actions(actions@)).index_of_first(action_type@) == Some(
                j as int,
            ),
            None => action_types(view_actions(actions@)).index_of_first(action_type@) is None,
        },
        r is None <==> !action_types(view_actions(actions@)).contains(action_type@),
        r matches Some(j) ==> j < actions.len() && actions[j as int].action_type@ == action_type@,
{
    let ghost keys = action_types(view_actions(actions@));
    let mut j: usize = 0;
    while j < actions.len()
        invariant
            j <= actions.len(),
            keys == action_types(view_actions(actions@)),
            keys.len() == actions.len(),
            forall|m: int| 0 <= m < j ==> keys[m] != action_type@,
        decreases actions.len() - j,
    {
        assert(keys[j as int] == actions[j as int].action_type@);
        if actions[j].action_type == *action_type {
            proof {
                lemma_first_index(keys, action_type@, j as int);
            }
            return Some(j);
        }
        j = j + 1;
    }
    proof {
        lemma_no_index(keys, action_type@);
    }
    None
}

pub fn diff_project(prior: &Project, next: &Project, changes: &mut Vec<FieldChange>)
    ensures
        view_changes(final(changes)@) == view_changes(old(changes)@) + project_changes(prior@, next@),
{
    let ghost start = view_changes(changes@);
    if prior.name != next.name {
        push_change(changes, FieldChange::Modified {
            path: owned("project.name"),
            old: prior.name.clone(),
            new: next.name.clone(),
        });
    }
    if prior.description != next.description {
        push_change(changes, FieldChange::Modified {
            path: owned("project.description"),
            old: prior.description.clone(),
            new: next.description.clone(),
        });
    }
    assert(view_changes(changes@) =~= start + project_changes(prior@, next@));
}

pub fn diff_action(prior: &Action, next: &Action, base: &str, changes: &mut Vec<FieldChange>)
    ensures
        view_changes(final(changes)@) == view_changes(old(changes)@) + action_changes(
            prior@,
            next@,
            base@,
        ),
{
    let ghost start = view_changes(changes@);
    let path = join3(base, ".actions[", next.action_type.as_str());
    let path = join2(path.as_str(), "]");
    if prior.instructions != next.instructions {
        push_change(changes, FieldChange::Modified {
            path: join2(path.as_str(), ".instructions"),
            old: prior.instructions.clone(),
            new: next.instructions.clone(),
        });
    }
    assert(view_changes(changes@) =~= start + action_changes(prior@, next@, base@));
}

pub fn diff_action_added(path: &str, new: &Action, changes: &mut Vec<FieldChange>)
    ensures
        view_changes(final(changes)@) == view_changes(old(changes)@) + action_added(path@, new@),
{
    let ghost start = view_changes(changes@);
    push_change(changes, FieldChange::Added { path: owned(path), value: format_action(new) });
    push_change(changes, FieldChange::Added {
        path: join2(path, ".instructions"),
        value: new.instructions.clone(),
    });
    assert(view_changes(changes@) =~= start + action_added(path@, new@));
}

pub(crate) fn action_path_string(base: &str, action_type: &str) -> (r: String)
    ensures
        r@ == action_path(base@, action_type@),
{
    let p = join3(base, ".actions[", action_type);
    join2(p.as_str(), "]")
}

pub(crate) fn output_path_string(base: &str, name: &str) -> (r: String)
    ensures
        r@ == output_path(base@, name@),
{
    let p = join3(base, ".outputs[", name);
    join2(p.as_str(), "]")
}

pub(crate) fn input_path_string(name: &str) -> (r: String)
    ensures
        r@ == input_path(name@),
{
    join3("inputs[", name, "]")
}

#[verifier::loop_isolation(false)]
pub fn diff_actions(prior: &[Action], next: &[Action], base: &str, changes: &mut Vec<FieldChange>)
    ensures
        view_changes(final(changes)@) == view_changes(old(changes)@) + actions_diff(
            view_actions(prior@),
            view_actions(next@),
            base@,
        ),
{
    let ghost start = view_changes(changes@);
    let ghost ov = view_actions(prior@);
    let ghost nv = view_actions(next@);
    let mut i: usize = 0;
    while i < next.len()
        invariant
            i <= next.len(),
            view_changes(changes@) == start + new_actions_changes(ov, nv, base@, i as nat),
        decreases next.len() - i,
    {
        let n = &next[i];
        assert(nv[i as int] == n@);
        match find_action(prior, &n.action_type) {
            Some(j) => {
                assert(ov[j as int] == prior[j as int]@);
                diff_action(&prior[j], n, base, changes);
            },
            None => {
                let path = action_path_string(base, n.action_type.as_str());
                diff_action_added(path.as_str(), n, changes);
            },
        }
        assert(view_changes(changes@) =~= start + new_actions_changes(ov, nv, base@, (i + 1) as nat));
        i = i + 1;
    }
    let ghost mid = view_changes(changes@);
    let mut k: usize = 0;
    while k < prior.len()
        invariant
            k <= prior.len(),
            view_changes(changes@) == mid + removed_actions(ov, nv, base@, k as nat),
        decreases prior.len() - k,
    {
        let o = &prior[k];
        assert(ov[k as int] == o@);
        if find_action(next, &o.action_type).is_none() {
            push_change(changes, FieldChange::Removed {
                path: action_path_string(base, o.action_type.as_str()),
                old: o.instructions.clone(),
            });
        }
        assert(view_changes(changes@) =~= mid + removed_actions(ov, nv, base@, (k + 1) as nat));
        k = k + 1;
    }
    assert(view_changes(changes@) =~= start + actions_diff(ov, nv, base@));
}


pub fn diff_output(prior: &Output, next: &Output, base: &str, changes: &mut Vec<FieldChange>)
    ensures
        view_changes(final(changes)@) == view_changes(old(changes)@) + output_changes(
            prior@,
            next@,
            base@,
        ),
{
    let ghost start = view_changes(changes@);
    let path = output_path_string(base, next.name.as_str());
    if !same_opt_text(&prior.description, &next.description) {
        push_change(changes, FieldChange::Modified {
            path: join2(path.as_str(), ".description"),
            old: opt_text_string(&prior.description),
            new: opt_text_string(&next.description),
        });
    }
    if prior.output_type != next.output_type {
        push_change(changes, FieldChange::Modified {
            path: join2(path.as_str(), ".type"),
            old: output_type_string(prior.output_type),
            new: output_type_string(next.output_type),
        });
    }
    if prior.location != next.location {
        push_change(changes, FieldChange::Modified {
            path: join2(path.as_str(), ".location"),
            old: prior.location.clone(),
            new: next.location.clone(),
        });
    }
    assert(view_changes(changes@) =~= start + output_changes(prior@, next@, base@));
}

pub fn diff_output_added(path: &str, next: &Output, changes: &mut Vec<FieldChange>)
    ensures
        view_changes(final(changes)@) == view_changes(old(changes)@) + output_added(path@, next@),
{
    let ghost start = view_changes(changes@);
    push_change(changes, FieldChange::Added { path: owned(path), value: format_output(next) });
    match &next.description {
        Some(d) => {
            push_change(changes, FieldChange::Added {
                path: join2(path, ".description"),
                value: d.clone(),
            });
        },
        None => {},
    }
    push_change(changes, FieldChange::Added {
        path: join2(path, ".type"),
        value: output_type_string(next.output_type),
    });
    push_change(changes, FieldChange::Added {
        path: join2(path, ".location"),
        value: next.location.clone(),
    });
    assert(view_changes(changes@) =~= start + output_added(path@, next@));
}

#[verifier::loop_isolation(false)]
pub fn diff_outputs(prior: &[Output], next: &[Output], base: &str, changes: &mut Vec<FieldChange>)
    ensures
        view_changes(final(changes)@) == view_changes(old(changes)@) + outputs_diff(
            view_outputs(prior@),
            view_outputs(next@),
            base@,
        ),
{
    let ghost start = view_changes(changes@);
    let ghost ov = view_outputs(prior@);
    let ghost nv = view_outputs(next@);
    let mut i: usize = 0;
    while i < next.len()
        invariant
            i <= next.len(),
            view_changes(changes@) == start + new_outputs_changes(ov, nv, base@, i as nat),
        decreases next.len() - i,
    {
        let n = &next[i];
        assert(nv[i as int] == n@);
        match find_output(prior, &n.name) {
            Some(j) => {
                assert(ov[j as int] == prior[j as int]@);
                diff_output(&prior[j], n, base, changes);
            },
            None => {
                let path = output_path_string(base, n.name.as_str());
                diff_output_added(path.as_str(), n, changes);
            },
        }
        assert(view_changes(changes@) =~= start + new_outputs_changes(ov, nv, base@, (i + 1) as nat));
        i = i + 1;
    }
    let ghost mid = view_changes(changes@);
    let mut k: usize = 0;
    while k < prior.len()
        invariant
            k <= prior.len(),
            view_changes(changes@) == mid + removed_outputs(ov, nv, base@, k as nat),
        decreases prior.len() - k,
    {
        let o = &prior[k];
        assert(ov[k as int] == o@);
        if find_output(next, &o.name).is_none() {
            push_change(changes, FieldChange::Removed {
                path: output_path_string(base, o.name.as_str()),
                old: format_output(o),
            });
        }
        assert(view_changes(changes@) =~= mid + removed_outputs(ov, nv, base@, (k + 1) as nat));
        k = k + 1;
    }
    assert(view_changes(changes@) =~= start + outputs_diff(ov, nv, base@));
}

pub fn diff_input(prior: &Input, next: &Input, changes: &mut Vec<FieldChange>)
    ensures
        view_changes(final(changes)@) == view_changes(old(changes)@) + input_changes(prior@, next@),
{
    let ghost start = view_changes(changes@);
    let base = input_path_string(next.name.as_str());
    if prior.description != next.description {
        push_change(changes, FieldChange::Modified {
            path: join2(base.as_str(), ".description"),
            old: prior.description.clone(),
            new: next.description.clone(),
        });
    }
    if !same_opt_input_type(prior.input_type, next.input_type) {
        push_change(changes, FieldChange::Modified {
            path: join2(base.as_str(), ".type"),
            old: opt_input_type_string(prior.input_type),
            new: opt_input_type_string(next.input_type),
        });
    }
    diff_outputs(prior.outputs.as_slice(), next.outputs.as_slice(), base.as_str(), changes);
    diff_actions(prior.actions.as_slice(), next.actions.as_slice(), base.as_str(), changes);
    assert(view_changes(changes@) =~= start + input_changes(prior@, next@));
}

#[verifier::loop_isolation(false)]
pub fn diff_input_added(base: &str, next: &Input, changes: &mut Vec<FieldChange>)
    ensures
        view_changes(final(changes)@) == view_changes(old(changes)@) + input_added(base@, next@),
{
    let ghost start = view_changes(changes@);
    if !next.description.as_str().is_empty() {
        push_change(changes, FieldChange::Added {
            path: join2(base, ".description"),
            value: next.description.clone(),
        });
    }
    match next.input_type {
        Some(t) => {
            push_change(changes, FieldChange::Added {
                path: join2(base, ".type"),
                value: input_type_string(t),
            });
        },
        None => {},
    }
    let ghost a = view_changes(changes@);
    let ghost iv = next@;
    let mut i: usize = 0;
    while i < next.outputs.len()
        invariant
            i <= next.outputs.len(),
            view_changes(changes@) == a + outputs_added(base@, iv.outputs, i as nat),
        decreases next.outputs.len() - i,
    {
        let o = &next.outputs[i];
        assert(iv.outputs[i as int] == o@);
        let path = output_path_string(base, o.name.as_str());
        diff_output_added(path.as_str(), o, changes);
        assert(view_changes(changes@) =~= a + outputs_added(base@, iv.outputs, (i + 1) as nat));
        i = i + 1;
    }
    let ghost b = view_changes(changes@);
    let mut k: usize = 0;
    while k < next.actions.len()
        invariant
            k <= next.actions.len(),
            view_changes(changes@) == b + actions_added(base@, iv.actions, k as nat),
        decreases next.actions.len() - k,
    {
        let x = &next.actions[k];
        assert(iv.actions[k as int] == x@);
        let path = action_path_string(base, x.action_type.as_str());
        diff_action_added(path.as_str(), x, changes);
        assert(view_changes(changes@) =~= b + actions_added(base@, iv.actions, (k + 1) as nat));
        k = k + 1;
    }
    assert(view_changes(changes@) =~= start + input_added(base@, next@));
}

#[verifier::loop_isolation(false)]
pub fn diff_inputs(prior: &[Input], next: &[Input], changes: &mut Vec<FieldChange>)
    ensures
        view_changes(final(changes)@) == view_changes(old(changes)@) + inputs_diff(
            view_inputs(prior@),
            view_inputs(next@),
        ),
{
    let ghost start = view_changes(changes@);
    let ghost ov = view_inputs(prior@);
    let ghost nv = view_inputs(next@);
    let mut i: usize = 0;
    while i < next.len()
        invariant
            i <= next.len(),
            view_changes(changes@) == start + new_inputs_changes(ov, nv, i as nat),
        decreases next.len() - i,
    {
        let n = &next[i];
        assert(nv[i as int] == n@);
        match find_input(prior, &n.name) {
            Some(j) => {
                assert(ov[j as int] == prior[j as int]@);
                diff_input(&prior[j], n, changes);
            },
            None => {
                let base = input_path_string(n.name.as_str());
                push_change(changes, FieldChange::Added { path: base.clone(), value: format_input(n) });
                diff_input_added(base.as_str(), n, changes);
            },
        }
        assert(view_changes(changes@) =~= start + new_inputs_changes(ov, nv, (i + 1) as nat));
        i = i + 1;
    }
    let ghost mid = view_changes(changes@);
    let mut k: usize = 0;
    while k < prior.len()
        invariant
            k <= prior.len(),
            view_changes(changes@) == mid + removed_inputs(ov, nv, k as nat),
        decreases prior.len() - k,
    {
        let o = &prior[k];
        assert(ov[k as int] == o@);
        if find_input(next, &o.name).is_none() {
            push_change(changes, FieldChange::Removed {
                path: input_path_string(o.name.as_str()),
                old: format_input(o),
            });
        }
        assert(view_changes(changes@) =~= mid + removed_inputs(ov, nv, (k + 1) as nat));
        k = k + 1;
    }
    assert(view_changes(changes@) =~= start + inputs_diff(ov, nv));
}

/// The field-level changes that turn `old` into `new`, in the order that
/// `contract_diff` gives.
pub fn diff_contracts(old: &ProjectContract, new: &ProjectContract) -> (r: Vec<FieldChange>)
    ensures
        view_changes(r@) == contract_diff(old@, new@),
{
    let mut changes: Vec<FieldChange> = Vec::new();
    assert(view_changes(changes@) =~= Seq::empty());
    diff_project(&old.project, &new.project, &mut changes);
    diff_inputs(old.inputs.as_slice(), new.inputs.as_slice(), &mut changes);
    assert(view_changes(changes@) =~= contract_diff(old@, new@));
    changes
}

} // verus!
