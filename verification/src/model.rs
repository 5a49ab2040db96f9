//! The project contract: its types, their mathematical views, and the
//! validation rules that every contract in the registry obeys.

use vstd::prelude::*;
use crate::text::{blank, chars_of, decimal, decimal_string, is_blank, join2, join3, owned};

verus! {

/// The kind of thing an input is.
#[derive(Debug, Clone, Copy, PartialEq, Eq, Structural)]
pub enum InputType {
    File,
    Directory,
    Text,
    Url,
    Other,
}

/// The kind of thing an output is.
#[derive(Debug, Clone, Copy, PartialEq, Eq, Structural)]
pub enum OutputType {
    File,
    Directory,
}

/// The name and one-sentence description of a project.
#[derive(Debug, Clone, PartialEq, Eq)]
pub struct Project {
    pub name: String,
    pub description: String,
}

/// A file or directory that an input is expected to produce.
#[derive(Debug, Clone, PartialEq, Eq)]
pub struct Output {
    pub name: String,
    pub description: Option<String>,
    pub output_type: OutputType,
    pub location: String,
}

/// A typed outcome with the instructions that go with it.
#[derive(Debug, Clone, PartialEq, Eq)]
pub struct Action {
    pub action_type: String,
    pub instructions: String,
}

/// One starting state of a project, with its outputs and outcome actions.
#[derive(Debug, Clone, PartialEq, Eq)]
pub struct Input {
    pub name: String,
    pub description: String,
    pub input_type: Option<InputType>,
    pub outputs: Vec<Output>,
    pub actions: Vec<Action>,
}

/// A whole project contract.
#[derive(Debug, Clone, PartialEq, Eq)]
pub struct ProjectContract {
    pub schema_version: u32,
    pub project: Project,
    pub inputs: Vec<Input>,
}

/// The schema version that a contract takes when its file names none.
pub fn default_schema_version() -> (v: u32)
    ensures
        v == 1,
{
    1
}

// ---------------------------------------------------------------------
// Views
// ---------------------------------------------------------------------

pub struct ProjectView {
    pub name: Seq<char>,
    pub description: Seq<char>,
}

pub struct OutputView {
    pub name: Seq<char>,
    pub description: Option<Seq<char>>,
    pub output_type: OutputType,
    pub location: Seq<char>,
}

pub struct ActionView {
    pub action_type: Seq<char>,
    pub instructions: Seq<char>,
}

pub struct InputView {
    pub name: Seq<char>,
    pub description: Seq<char>,
    pub input_type: Option<InputType>,
    pub outputs: Seq<OutputView>,
    pub actions: Seq<ActionView>,
}

pub struct ContractView {
    pub schema_version: u32,
    pub project: ProjectView,
    pub inputs: Seq<InputView>,
}

pub open spec fn view_outputs(s: Seq<Output>) -> Seq<OutputView> {
    s.map_values(|o: Output| o@)
}

pub open spec fn view_actions(s: Seq<Action>) -> Seq<ActionView> {
    s.map_values(|a: Action| a@)
}

pub open spec fn view_inputs(s: Seq<Input>) -> Seq<InputView> {
    s.map_values(|i: Input| i@)
}

pub open spec fn opt_view(o: Option<String>) -> Option<Seq<char>> {
    match o {
        Some(s) => Some(s@),
        None => None,
    }
}

impl View for Project {
    type V = ProjectView;

    open spec fn view(&self) -> ProjectView {
        ProjectView { name: self.name@, description: self.description@ }
    }
}

impl View for Output {
    type V = OutputView;

    open spec fn view(&self) -> OutputView {
        OutputView {
            name: self.name@,
            description: opt_view(self.description),
            output_type: self.output_type,
            location: self.location@,
        }
    }
}

impl View for Action {
    type V = ActionView;

    open spec fn view(&self) -> ActionView {
        ActionView { action_type: self.action_type@, instructions: self.instructions@ }
    }
}

impl View for Input {
    type V = InputView;

    open spec fn view(&self) -> InputView {
        InputView {
            name: self.name@,
            description: self.description@,
            input_type: self.input_type,
            outputs: view_outputs(self.outputs@),
            actions: view_actions(self.actions@),
        }
    }
}

impl View for ProjectContract {
    type V = ContractView;

    open spec fn view(&self) -> ContractView {
        ContractView {
            schema_version: self.schema_version,
            project: self.project@,
            inputs: view_inputs(self.inputs@),
        }
    }
}

// ---------------------------------------------------------------------
// Validation rules
// ---------------------------------------------------------------------

/// The field that a validation error is about.
#[derive(Debug, Clone, Copy, PartialEq, Eq, Structural)]
pub enum FieldLabel {
    ProjectName,
    ProjectDescription,
    InputName,
    InputDescription,
    OutputName,
    OutputDescription,
    OutputLocation,
    ActionType,
    ActionInstructions,
}

/// Why a contract was refused.
#[derive(Debug, Clone, PartialEq, Eq)]
pub enum ContractError {
    UnsupportedSchemaVersion { version: u32 },
    Empty { label: FieldLabel },
    BadSlug { label: FieldLabel, value: String },
    DuplicateInput { name: String },
    DuplicateOutput { output: String, input: String },
    DuplicateAction { action: String, input: String },
}

pub enum ErrorView {
    UnsupportedSchemaVersion { version: u32 },
    Empty { label: FieldLabel },
    BadSlug { label: FieldLabel, value: Seq<char> },
    DuplicateInput { name: Seq<char> },
    DuplicateOutput { output: Seq<char>, input: Seq<char> },
    DuplicateAction { action: Seq<char>, input: Seq<char> },
}

impl View for ContractError {
    type V = ErrorView;

    open spec fn view(&self) -> ErrorView {
        match self {
            ContractError::UnsupportedSchemaVersion { version } => ErrorView::UnsupportedSchemaVersion {
                version: *version,
            },
            ContractError::Empty { label } => ErrorView::Empty { label: *label },
            ContractError::BadSlug { label, value } => ErrorView::BadSlug {
                label: *label,
                value: value@,
            },
            ContractError::DuplicateInput { name } => ErrorView::DuplicateInput { name: name@ },
            ContractError::DuplicateOutput { output, input } => ErrorView::DuplicateOutput {
                output: output@,
                input: input@,
            },
            ContractError::DuplicateAction { action, input } => ErrorView::DuplicateAction {
                action: action@,
                input: input@,
            },
        }
    }
}

/// A character allowed at position `i` of a slug.
pub open spec fn slug_char_ok(c: char, i: int) -> bool {
    ('a' <= c && c <= 'z') || ('0' <= c && c <= '9') || (c == '-' && i > 0)
}

/// `[a-z0-9][a-z0-9-]*` with no trailing hyphen.
pub open spec fn is_slug(s: Seq<char>) -> bool {
    &&& forall|i: int| 0 <= i < s.len() ==> slug_char_ok(#[trigger] s[i], i)
    &&& !(s.len() > 0 && s.last() == '-')
}

/// Lower-case kebab-case: not empty, only `a`-`z`, `0`-`9` and `-`, and
/// neither starting nor ending with `-`.
pub open spec fn kebab_name(s: Seq<char>) -> bool {
    &&& s.len() > 0
    &&& forall|i: int|
        0 <= i < s.len() ==> ('a' <= #[trigger] s[i] && s[i] <= 'z') || ('0' <= s[i] && s[i] <= '9')
            || s[i] == '-'
    &&& s[0] != '-'
    &&& s[s.len() - 1] != '-'
}

/// A name field passes its rules (not blank, a slug) exactly when it is
/// lower-case kebab-case: no upper-case letter, space or other character
/// anywhere in it.
pub proof fn lemma_slug_is_kebab(label: FieldLabel, v: Seq<char>)
    ensures
        slug_error(label, v) is None <==> kebab_name(v),
        (!is_blank(v) && is_slug(v)) <==> kebab_name(v),
{
    if kebab_name(v) {
        assert(!crate::text::is_white_space(v[0]));
        assert forall|i: int| 0 <= i < v.len() implies slug_char_ok(#[trigger] v[i], i) by {
            if i == 0 {
                assert(v[0] != '-');
            }
        }
    }
    if !is_blank(v) && is_slug(v) {
        assert(v.len() > 0);
        assert(slug_char_ok(v[0], 0));
        assert(v.last() == v[v.len() - 1]);
        assert forall|i: int| 0 <= i < v.len() implies ('a' <= #[trigger] v[i] && v[i] <= 'z') || ('0' <= v[i]
            && v[i] <= '9') || v[i] == '-' by {
            assert(slug_char_ok(v[i], i));
        }
    }
}

/// Every name of a contract is lower-case kebab-case: the project's name,
/// and the name of every input and output and the type of every action.
pub open spec fn names_kebab(c: ContractView) -> bool {
    &&& kebab_name(c.project.name)
    &&& forall|k: int| 0 <= k < c.inputs.len() ==> kebab_name(#[trigger] c.inputs[k].name)
    &&& forall|k: int, j: int|
        0 <= k < c.inputs.len() && 0 <= j < c.inputs[k].outputs.len() ==> kebab_name(
            #[trigger] c.inputs[k].outputs[j].name,
        )
    &&& forall|k: int, j: int|
        0 <= k < c.inputs.len() && 0 <= j < c.inputs[k].actions.len() ==> kebab_name(
            #[trigger] c.inputs[k].actions[j].action_type,
        )
}

/// Every name of a valid contract is lower-case kebab-case.
pub proof fn lemma_valid_names_are_kebab(c: ContractView)
    requires
        is_valid(c),
    ensures
        names_kebab(c),
{
    lemma_slug_is_kebab(FieldLabel::ProjectName, c.project.name);
    assert forall|k: int| 0 <= k < c.inputs.len() implies kebab_name(#[trigger] c.inputs[k].name) by {
        assert(input_ok(c.inputs[k]));
        lemma_slug_is_kebab(FieldLabel::InputName, c.inputs[k].name);
    }
    assert forall|k: int, j: int|
        0 <= k < c.inputs.len() && 0 <= j < c.inputs[k].outputs.len() implies kebab_name(
        #[trigger] c.inputs[k].outputs[j].name,
    ) by {
        assert(input_ok(c.inputs[k]));
        assert(output_ok(c.inputs[k].outputs[j]));
        lemma_slug_is_kebab(FieldLabel::OutputName, c.inputs[k].outputs[j].name);
    }
    assert forall|k: int, j: int|
        0 <= k < c.inputs.len() && 0 <= j < c.inputs[k].actions.len() implies kebab_name(
        #[trigger] c.inputs[k].actions[j].action_type,
    ) by {
        assert(input_ok(c.inputs[k]));
        assert(action_ok(c.inputs[k].actions[j]));
        lemma_slug_is_kebab(FieldLabel::ActionType, c.inputs[k].actions[j].action_type);
    }
}

/// The first of two possible errors.
pub open spec fn or_else(a: Option<ErrorView>, b: Option<ErrorView>) -> Option<ErrorView> {
    if a is Some { a } else { b }
}

/// The error for a field that must not be blank.
pub open spec fn nonempty_error(label: FieldLabel, v: Seq<char>) -> Option<ErrorView> {
    if is_blank(v) { Some(ErrorView::Empty { label }) } else { None }
}

/// The error for a field that must be a slug.
pub open spec fn slug_error(label: FieldLabel, v: Seq<char>) -> Option<ErrorView> {
    if is_blank(v) {
        Some(ErrorView::Empty { label })
    } else if !is_slug(v) {
        Some(ErrorView::BadSlug { label, value: v })
    } else {
        None
    }
}

/// The error for an optional field that, when present, must not be blank.
pub open spec fn opt_nonempty_error(label: FieldLabel, v: Option<Seq<char>>) -> Option<ErrorView> {
    match v {
        Some(d) => nonempty_error(label, d),
        None => None,
    }
}

/// The error of the `k`-th output of `input`, given the outputs before it.
pub open spec fn output_error(input: InputView, k: int) -> Option<ErrorView> {
    let o = input.outputs[k];
    or_else(
        slug_error(FieldLabel::OutputName, o.name),
        or_else(
            opt_nonempty_error(FieldLabel::OutputDescription, o.description),
            or_else(
                nonempty_error(FieldLabel::OutputLocation, o.location),
                if exists|j: int| 0 <= j < k && #[trigger] input.outputs[j].name == o.name {
                    Some(ErrorView::DuplicateOutput { output: o.name, input: input.name })
                } else {
                    None
                },
            ),
        ),
    )
}

/// The first error among the first `n` outputs of `input`.
pub open spec fn outputs_error(input: InputView, n: nat) -> Option<ErrorView>
    decreases n,
{
    if n == 0 {
        None
    } else {
        or_else(outputs_error(input, (n - 1) as nat), output_error(input, n - 1))
    }
}

/// The error of the `k`-th action of `input`, given the actions before it.
pub open spec fn action_error(input: InputView, k: int) -> Option<ErrorView> {
    let a = input.actions[k];
    or_else(
        slug_error(FieldLabel::ActionType, a.action_type),
        or_else(
            nonempty_error(FieldLabel::ActionInstructions, a.instructions),
            if exists|j: int| 0 <= j < k && #[trigger] input.actions[j].action_type == a.action_type {
                Some(ErrorView::DuplicateAction { action: a.action_type, input: input.name })
            } else {
                None
            },
        ),
    )
}

/// The first error among the first `n` actions of `input`.
pub open spec fn actions_error(input: InputView, n: nat) -> Option<ErrorView>
    decreases n,
{
    if n == 0 {
        None
    } else {
        or_else(actions_error(input, (n - 1) as nat), action_error(input, n - 1))
    }
}

/// The error of the `k`-th input, given the inputs before it.
pub open spec fn input_error(inputs: Seq<InputView>, k: int) -> Option<ErrorView> {
    let input = inputs[k];
    or_else(
        slug_error(FieldLabel::InputName, input.name),
        or_else(
            nonempty_error(FieldLabel::InputDescription, input.description),
            or_else(
                if exists|j: int| 0 <= j < k && #[trigger] inputs[j].name == input.name {
                    Some(ErrorView::DuplicateInput { name: input.name })
                } else {
                    None
                },
                or_else(
                    outputs_error(input, input.outputs.len()),
                    actions_error(input, input.actions.len()),
                ),
            ),
        ),
    )
}

/// The first error among the first `n` inputs.
pub open spec fn inputs_error(inputs: Seq<InputView>, n: nat) -> Option<ErrorView>
    decreases n,
{
    if n == 0 {
        None
    } else {
        or_else(inputs_error(inputs, (n - 1) as nat), input_error(inputs, n - 1))
    }
}

/// The error that validation reports for `c`: the first rule that `c`
/// breaks, in the order schema version, project name, project
/// description, then each input in turn (its name, its description, its
/// uniqueness, its outputs, its actions).
pub open spec fn contract_error(c: ContractView) -> Option<ErrorView> {
    if c.schema_version != 1 {
        Some(ErrorView::UnsupportedSchemaVersion { version: c.schema_version })
    } else {
        or_else(
            slug_error(FieldLabel::ProjectName, c.project.name),
            or_else(
                nonempty_error(FieldLabel::ProjectDescription, c.project.description),
                inputs_error(c.inputs, c.inputs.len()),
            ),
        )
    }
}

/// The rules of an output, declaratively.
pub open spec fn output_ok(o: OutputView) -> bool {
    &&& !is_blank(o.name) && is_slug(o.name)
    &&& (o.description matches Some(d) ==> !is_blank(d))
    &&& !is_blank(o.location)
}

/// The rules of an action, declaratively.
pub open spec fn action_ok(a: ActionView) -> bool {
    &&& !is_blank(a.action_type) && is_slug(a.action_type)
    &&& !is_blank(a.instructions)
}

/// The rules of an input, declaratively: its own fields, its outputs and
/// actions, and no two outputs (actions) sharing a name (type).
pub open spec fn input_ok(input: InputView) -> bool {
    &&& !is_blank(input.name) && is_slug(input.name)
    &&& !is_blank(input.description)
    &&& forall|k: int| 0 <= k < input.outputs.len() ==> output_ok(#[trigger] input.outputs[k])
    &&& forall|k: int| 0 <= k < input.actions.len() ==> action_ok(#[trigger] input.actions[k])
    &&& forall|j: int, k: int|
        0 <= j < k < input.outputs.len() ==> #[trigger] input.outputs[j].name
            != #[trigger] input.outputs[k].name
    &&& forall|j: int, k: int|
        0 <= j < k < input.actions.len() ==> #[trigger] input.actions[j].action_type
            != #[trigger] input.actions[k].action_type
}

/// A valid contract: schema version 1, a slug project name, a non-blank
/// description, valid inputs, and no two inputs sharing a name.
pub open spec fn is_valid(c: ContractView) -> bool {
    &&& c.schema_version == 1
    &&& !is_blank(c.project.name) && is_slug(c.project.name)
    &&& !is_blank(c.project.description)
    &&& forall|k: int| 0 <= k < c.inputs.len() ==> input_ok(#[trigger] c.inputs[k])
    &&& forall|j: int, k: int|
        0 <= j < k < c.inputs.len() ==> #[trigger] c.inputs[j].name != #[trigger] c.inputs[k].name
}


/// Once an error is found among the first `n` outputs, it stays the first.
proof fn lemma_outputs_error_stable(input: InputView, n: nat, m: nat)
    requires
        n <= m,
        outputs_error(input, n) is Some,
    ensures
        outputs_error(input, m) == outputs_error(input, n),
    decreases m - n,
{
    if n < m {
        lemma_outputs_error_stable(input, n, (m - 1) as nat);
    }
}

/// Once an error is found among the first `n` actions, it stays the first.
proof fn lemma_actions_error_stable(input: InputView, n: nat, m: nat)
    requires
        n <= m,
        actions_error(input, n) is Some,
    ensures
        actions_error(input, m) == actions_error(input, n),
    decreases m - n,
{
    if n < m {
        lemma_actions_error_stable(input, n, (m - 1) as nat);
    }
}

/// Once an error is found among the first `n` inputs, it stays the first.
proof fn lemma_inputs_error_stable(inputs: Seq<InputView>, n: nat, m: nat)
    requires
        n <= m,
        inputs_error(inputs, n) is Some,
    ensures
        inputs_error(inputs, m) == inputs_error(inputs, n),
    decreases m - n,
{
    if n < m {
        lemma_inputs_error_stable(inputs, n, (m - 1) as nat);
    }
}

proof fn lemma_outputs_error_none(input: InputView, n: nat)
    requires
        n <= input.outputs.len(),
    ensures
        (outputs_error(input, n) is None) <==> (
        (forall|k: int| 0 <= k < n ==> output_ok(#[trigger] input.outputs[k])) && (forall|j: int, k: int|
            0 <= j < k < n ==> #[trigger] input.outputs[j].name != #[trigger] input.outputs[k].name)),
    decreases n,
{
    if n > 0 {
        lemma_outputs_error_none(input, (n - 1) as nat);
        let k = n - 1;
        if outputs_error(input, n) is None {
            assert forall|j: int, m: int|
                0 <= j < m < n implies #[trigger] input.outputs[j].name
                != #[trigger] input.outputs[m].name by {
                if m == k {
                    if input.outputs[j].name == input.outputs[k].name {
                        assert(exists|i: int| 0 <= i < k && #[trigger] input.outputs[i].name
                            == input.outputs[k].name);
                    }
                }
            }
        }
    }
}

proof fn lemma_actions_error_none(input: InputView, n: nat)
    requires
        n <= input.actions.len(),
    ensures
        (actions_error(input, n) is None) <==> (
        (forall|k: int| 0 <= k < n ==> action_ok(#[trigger] input.actions[k])) && (forall|j: int, k: int|
            0 <= j < k < n ==> #[trigger] input.actions[j].action_type
                != #[trigger] input.actions[k].action_type)),
    decreases n,
{
    if n > 0 {
        lemma_actions_error_none(input, (n - 1) as nat);
        let k = n - 1;
        if actions_error(input, n) is None {
            assert forall|j: int, m: int|
                0 <= j < m < n implies #[trigger] input.actions[j].action_type
                != #[trigger] input.actions[m].action_type by {
                if m == k {
                    if input.actions[j].action_type == input.actions[k].action_type {
                        assert(exists|i: int| 0 <= i < k && #[trigger] input.actions[i].action_type
                            == input.actions[k].action_type);
                    }
                }
            }
        }
    }
}

proof fn lemma_inputs_error_none(inputs: Seq<InputView>, n: nat)
    requires
        n <= inputs.len(),
    ensures
        (inputs_error(inputs, n) is None) <==> (
        (forall|k: int| 0 <= k < n ==> input_ok(#[trigger] inputs[k])) && (forall|j: int, k: int|
            0 <= j < k < n ==> #[trigger] inputs[j].name != #[trigger] inputs[k].name)),
    decreases n,
{
    if n > 0 {
        lemma_inputs_error_none(inputs, (n - 1) as nat);
        let k = n - 1;
        let input = inputs[k];
        lemma_outputs_error_none(input, input.outputs.len());
        lemma_actions_error_none(input, input.actions.len());
        if inputs_error(inputs, n) is None {
            assert forall|j: int, m: int|
                0 <= j < m < n implies #[trigger] inputs[j].name != #[trigger] inputs[m].name by {
                if m == k {
                    if inputs[j].name == inputs[k].name {
                        assert(exists|i: int| 0 <= i < k && #[trigger] inputs[i].name
                            == inputs[k].name);
                    }
                }
            }
        }
    }
}

/// Validation finds no error exactly when the contract obeys every rule:
/// the ordered, first-error reading of the rules and their declarative
/// reading agree.
pub proof fn lemma_validation_is_validity(c: ContractView)
    ensures
        (contract_error(c) is None) <==> is_valid(c),
{
    lemma_inputs_error_none(c.inputs, c.inputs.len());
}

/// How a check's result matches the error that the rules give: `Ok` when
/// there is none, else that very error.
pub open spec fn reports(r: Result<(), ContractError>, e: Option<ErrorView>) -> bool {
    match r {
        Ok(()) => e is None,
        Err(x) => e == Some(x@),
    }
}

/// Checks that a field is not blank.
pub fn validate_nonempty(label: FieldLabel, value: &str) -> (r: Result<(), ContractError>)
    ensures
        reports(r, nonempty_error(label, value@)),
{
    if blank(value) {
        Err(ContractError::Empty { label })
    } else {
        Ok(())
    }
}

fn slug_shape(value: &str) -> (r: bool)
    ensures
        r == is_slug(value@),
{
    let v = chars_of(value);
    let mut i: usize = 0;
    while i < v.len()
        invariant
            i <= v.len(),
            v@ == value@,
            forall|j: int| 0 <= j < i ==> slug_char_ok(#[trigger] v@[j], j),
        decreases v.len() - i,
    {
        let c = v[i];
        if !(('a' <= c && c <= 'z') || ('0' <= c && c <= '9') || (c == '-' && i > 0)) {
            return false;
        }
        i = i + 1;
    }
    !(v.len() > 0 && v[v.len() - 1] == '-')
}

/// Checks that a field is a slug: not blank, and `[a-z0-9][a-z0-9-]*`
/// without a trailing hyphen.
pub fn validate_slug(label: FieldLabel, value: &str) -> (r: Result<(), ContractError>)
    ensures
        reports(r, slug_error(label, value@)),
        r is Ok <==> kebab_name(value@),
{
    proof {
        lemma_slug_is_kebab(label, value@);
    }
    validate_nonempty(label, value)?;
    if !slug_shape(value) {
        return Err(ContractError::BadSlug { label, value: owned(value) });
    }
    Ok(())
}

#[verifier::loop_isolation(false)]
fn check_output(input: &Input, k: usize) -> (r: Result<(), ContractError>)
    requires
        k < input.outputs.len(),
    ensures
        reports(r, output_error(input@, k as int)),
{
    let ghost iv = input@;
    let o = &input.outputs[k];
    assert(iv.outputs[k as int] == o@);
    validate_slug(FieldLabel::OutputName, o.name.as_str())?;
    match &o.description {
        Some(d) => validate_nonempty(FieldLabel::OutputDescription, d.as_str())?,
        None => {},
    }
    validate_nonempty(FieldLabel::OutputLocation, o.location.as_str())?;
    let mut j: usize = 0;
    while j < k
        invariant
            j <= k < input.outputs.len(),
            iv == input@,
            forall|m: int| 0 <= m < j ==> #[trigger] iv.outputs[m].name != iv.outputs[k as int].name,
        decreases k - j,
    {
        assert(iv.outputs[j as int] == input.outputs[j as int]@);
        if input.outputs[j].name == o.name {
            assert(iv.outputs[j as int].name == iv.outputs[k as int].name);
            return Err(ContractError::DuplicateOutput {
                output: o.name.clone(),
                input: input.name.clone(),
            });
        }
        j = j + 1;
    }
    Ok(())
}

#[verifier::loop_isolation(false)]
fn check_action(input: &Input, k: usize) -> (r: Result<(), ContractError>)
    requires
        k < input.actions.len(),
    ensures
        reports(r, action_error(input@, k as int)),
{
    let ghost iv = input@;
    let a = &input.actions[k];
    assert(iv.actions[k as int] == a@);
    validate_slug(FieldLabel::ActionType, a.action_type.as_str())?;
    validate_nonempty(FieldLabel::ActionInstructions, a.instructions.as_str())?;
    let mut j: usize = 0;
    while j < k
        invariant
            j <= k < input.actions.len(),
            iv == input@,
            forall|m: int|
                0 <= m < j ==> #[trigger] iv.actions[m].action_type
                    != iv.actions[k as int].action_type,
        decreases k - j,
    {
        assert(iv.actions[j as int] == input.actions[j as int]@);
        if input.actions[j].action_type == a.action_type {
            assert(iv.actions[j as int].action_type == iv.actions[k as int].action_type);
            return Err(ContractError::DuplicateAction {
                action: a.action_type.clone(),
                input: input.name.clone(),
            });
        }
        j = j + 1;
    }
    Ok(())
}

#[verifier::loop_isolation(false)]
fn check_input(inputs: &Vec<Input>, k: usize) -> (r: Result<(), ContractError>)
    requires
        k < inputs.len(),
    ensures
        reports(r, input_error(view_inputs(inputs@), k as int)),
{
    let ghost vs = view_inputs(inputs@);
    let input = &inputs[k];
    let ghost iv = input@;
    assert(vs[k as int] == iv);
    validate_slug(FieldLabel::InputName, input.name.as_str())?;
    validate_nonempty(FieldLabel::InputDescription, input.description.as_str())?;
    let mut j: usize = 0;
    while j < k
        invariant
            j <= k < inputs.len(),
            vs == view_inputs(inputs@),
            iv == vs[k as int],
            forall|m: int| 0 <= m < j ==> #[trigger] vs[m].name != iv.name,
        decreases k - j,
    {
        assert(vs[j as int] == inputs[j as int]@);
        if inputs[j].name == input.name {
            assert(vs[j as int].name == vs[k as int].name);
            return Err(ContractError::DuplicateInput { name: input.name.clone() });
        }
        j = j + 1;
    }
    let mut o: usize = 0;
    while o < input.outputs.len()
        invariant
            o <= input.outputs.len(),
            iv == input@,
            outputs_error(iv, o as nat) is None,
        decreases input.outputs.len() - o,
    {
        let r = check_output(input, o);
        if r.is_err() {
            proof {
                lemma_outputs_error_stable(iv, (o + 1) as nat, iv.outputs.len());
            }
            return r;
        }
        o = o + 1;
    }
    let mut a: usize = 0;
    while a < input.actions.len()
        invariant
            a <= input.actions.len(),
            iv == input@,
            outputs_error(iv, iv.outputs.len()) is None,
            actions_error(iv, a as nat) is None,
        decreases input.actions.len() - a,
    {
        let r = check_action(input, a);
        if r.is_err() {
            proof {
                lemma_actions_error_stable(iv, (a + 1) as nat, iv.actions.len());
            }
            return r;
        }
        a = a + 1;
    }
    Ok(())
}

impl ProjectContract {
    /// Checks every rule of a contract and reports the first one broken,
    /// in the order that `contract_error` gives.
    #[verifier::loop_isolation(false)]
    pub fn validate(&self) -> (r: Result<(), ContractError>)
        ensures
            reports(r, contract_error(self@)),
            r is Ok <==> is_valid(self@),
            r is Ok ==> names_kebab(self@),
    {
        proof {
            lemma_validation_is_validity(self@);
            if is_valid(self@) {
                lemma_valid_names_are_kebab(self@);
            }
        }
        if self.schema_version != 1 {
            return Err(ContractError::UnsupportedSchemaVersion { version: self.schema_version });
        }
        validate_slug(FieldLabel::ProjectName, self.project.name.as_str())?;
        validate_nonempty(FieldLabel::ProjectDescription, self.project.description.as_str())?;
        let ghost vs = view_inputs(self.inputs@);
        let mut i: usize = 0;
        while i < self.inputs.len()
            invariant
                i <= self.inputs.len(),
                vs == view_inputs(self.inputs@),
                inputs_error(vs, i as nat) is None,
            decreases self.inputs.len() - i,
        {
            let r = check_input(&self.inputs, i);
            if r.is_err() {
                proof {
                    lemma_inputs_error_stable(vs, (i + 1) as nat, vs.len());
                }
                return r;
            }
            i = i + 1;
        }
        Ok(())
    }
}


/// The name of a field as the error messages write it.
pub open spec fn label_text(l: FieldLabel) -> Seq<char> {
    match l {
        FieldLabel::ProjectName => "project name"@,
        FieldLabel::ProjectDescription => "project description"@,
        FieldLabel::InputName => "input name"@,
        FieldLabel::InputDescription => "input description"@,
        FieldLabel::OutputName => "output name"@,
        FieldLabel::OutputDescription => "output description"@,
        FieldLabel::OutputLocation => "output location"@,
        FieldLabel::ActionType => "action type"@,
        FieldLabel::ActionInstructions => "action instructions"@,
    }
}

/// The message that goes with a validation error.
pub open spec fn error_message(e: ErrorView) -> Seq<char> {
    match e {
        ErrorView::UnsupportedSchemaVersion { version } => "unsupported schema_version "@ + decimal(
            version as nat,
        ) + "; expected 1"@,
        ErrorView::Empty { label } => label_text(label) + " must not be empty"@,
        ErrorView::BadSlug { label, value } => label_text(label) + " '"@ + value
            + "' must match [a-z0-9][a-z0-9-]*"@,
        ErrorView::DuplicateInput { name } => "duplicate input name '"@ + name + "'"@,
        ErrorView::DuplicateOutput { output, input } => "duplicate output name '"@ + output
            + "' in input '"@ + input + "'"@,
        ErrorView::DuplicateAction { action, input } => "duplicate action type '"@ + action
            + "' in input '"@ + input + "'"@,
    }
}

impl FieldLabel {
    /// The name of the field as the error messages write it.
    pub fn text(&self) -> (r: String)
        ensures
            r@ == label_text(*self),
    {
        match self {
            FieldLabel::ProjectName => owned("project name"),
            FieldLabel::ProjectDescription => owned("project description"),
            FieldLabel::InputName => owned("input name"),
            FieldLabel::InputDescription => owned("input description"),
            FieldLabel::OutputName => owned("output name"),
            FieldLabel::OutputDescription => owned("output description"),
            FieldLabel::OutputLocation => owned("output location"),
            FieldLabel::ActionType => owned("action type"),
            FieldLabel::ActionInstructions => owned("action instructions"),
        }
    }
}

impl ContractError {
    /// The human-readable message for this error.
    pub fn message(&self) -> (r: String)
        ensures
            r@ == error_message(self@),
    {
        match self {
            ContractError::UnsupportedSchemaVersion { version } => {
                let n = decimal_string(*version as u64);
                join3("unsupported schema_version ", n.as_str(), "; expected 1")
            },
            ContractError::Empty { label } => {
                let l = label.text();
                join2(l.as_str(), " must not be empty")
            },
            ContractError::BadSlug { label, value } => {
                let l = label.text();
                let head = join3(l.as_str(), " '", value.as_str());
                join2(head.as_str(), "' must match [a-z0-9][a-z0-9-]*")
            },
            ContractError::DuplicateInput { name } => {
                join3("duplicate input name '", name.as_str(), "'")
            },
            ContractError::DuplicateOutput { output, input } => {
                let head = join3("duplicate output name '", output.as_str(), "' in input '");
                join3(head.as_str(), input.as_str(), "'")
            },
            ContractError::DuplicateAction { action, input } => {
                let head = join3("duplicate action type '", action.as_str(), "' in input '");
                join3(head.as_str(), input.as_str(), "'")
            },
        }
    }
}

} // verus!
