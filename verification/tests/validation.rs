use mnemesis::model::{
    default_schema_version, Action, ContractError, FieldLabel, Input, InputType, Output,
    OutputType, Project, ProjectContract,
};

fn s(v: &str) -> String {
    v.to_string()
}

fn output(name: &str, location: &str) -> Output {
    Output { name: s(name), description: None, output_type: OutputType::Directory, location: s(location) }
}

fn action(t: &str, instructions: &str) -> Action {
    Action { action_type: s(t), instructions: s(instructions) }
}

fn example() -> ProjectContract {
    ProjectContract {
        schema_version: 1,
        project: Project { name: s("example-project"), description: s("Example project.") },
        inputs: vec![Input {
            name: s("source"),
            description: s("Source files."),
            input_type: Some(InputType::Directory),
            outputs: vec![output("build", "./dist")],
            actions: vec![action("successful-build", "Report the build outputs.")],
        }],
    }
}

#[test]
fn valid_contract_passes() {
    assert_eq!(example().validate(), Ok(()));
}

#[test]
fn default_schema_version_is_one() {
    assert_eq!(default_schema_version(), 1);
}

#[test]
fn unsupported_schema_version_is_refused() {
    let mut c = example();
    c.schema_version = 2;
    let e = c.validate().unwrap_err();
    assert_eq!(e, ContractError::UnsupportedSchemaVersion { version: 2 });
    assert_eq!(e.message(), "unsupported schema_version 2; expected 1");
}

#[test]
fn large_schema_version_message() {
    let e = ContractError::UnsupportedSchemaVersion { version: 4294967295 };
    assert_eq!(e.message(), "unsupported schema_version 4294967295; expected 1");
}

#[test]
fn blank_project_name_is_empty_error() {
    let mut c = example();
    c.project.name = s(" \t\u{3000}");
    let e = c.validate().unwrap_err();
    assert_eq!(e, ContractError::Empty { label: FieldLabel::ProjectName });
    assert_eq!(e.message(), "project name must not be empty");
}

#[test]
fn bad_slugs_are_refused() {
    for bad in ["-leading", "trailing-", "Upper", "under_score", "sp ace", "é"] {
        let mut c = example();
        c.project.name = s(bad);
        let e = c.validate().unwrap_err();
        assert_eq!(e, ContractError::BadSlug { label: FieldLabel::ProjectName, value: s(bad) });
        assert_eq!(e.message(), format!("project name '{bad}' must match [a-z0-9][a-z0-9-]*"));
    }
}

#[test]
fn good_slugs_pass() {
    for good in ["a", "0", "a-b", "a--b", "x9-y8"] {
        let mut c = example();
        c.project.name = s(good);
        assert_eq!(c.validate(), Ok(()));
    }
}

#[test]
fn blank_description_is_refused() {
    let mut c = example();
    c.project.description = s("   ");
    assert_eq!(
        c.validate().unwrap_err().message(),
        "project description must not be empty"
    );
}

#[test]
fn duplicate_input_is_refused() {
    let mut c = example();
    let again = c.inputs[0].clone();
    c.inputs.push(again);
    let e = c.validate().unwrap_err();
    assert_eq!(e, ContractError::DuplicateInput { name: s("source") });
    assert_eq!(e.message(), "duplicate input name 'source'");
}

#[test]
fn duplicate_output_is_refused() {
    let mut c = example();
    c.inputs[0].outputs.push(output("build", "./other"));
    let e = c.validate().unwrap_err();
    assert_eq!(e.message(), "duplicate output name 'build' in input 'source'");
}

#[test]
fn duplicate_action_is_refused() {
    let mut c = example();
    c.inputs[0].actions.push(action("successful-build", "Again."));
    let e = c.validate().unwrap_err();
    assert_eq!(e, ContractError::DuplicateAction { action: s("successful-build"), input: s("source") });
    assert_eq!(e.message(), "duplicate action type 'successful-build' in input 'source'");
}

#[test]
fn blank_output_location_is_refused() {
    let mut c = example();
    c.inputs[0].outputs[0].location = s(" ");
    assert_eq!(c.validate().unwrap_err().message(), "output location must not be empty");
}

#[test]
fn blank_action_instructions_are_refused() {
    let mut c = example();
    c.inputs[0].actions[0].instructions = s("\n");
    assert_eq!(c.validate().unwrap_err().message(), "action instructions must not be empty");
}

#[test]
fn bad_input_and_output_names_are_refused() {
    let mut c = example();
    c.inputs[0].name = s("Source");
    assert_eq!(c.validate().unwrap_err().message(), "input name 'Source' must match [a-z0-9][a-z0-9-]*");
    let mut c = example();
    c.inputs[0].outputs[0].name = s("out-");
    assert_eq!(c.validate().unwrap_err().message(), "output name 'out-' must match [a-z0-9][a-z0-9-]*");
    let mut c = example();
    c.inputs[0].actions[0].action_type = s("");
    assert_eq!(c.validate().unwrap_err().message(), "action type must not be empty");
    let mut c = example();
    c.inputs[0].description = s("");
    assert_eq!(c.validate().unwrap_err().message(), "input description must not be empty");
}

#[test]
fn first_broken_rule_is_reported() {
    // the input name rule comes before the duplicate output rule
    let mut c = example();
    c.inputs[0].outputs.push(output("build", "./other"));
    c.inputs[0].name = s("Bad");
    assert_eq!(
        c.validate().unwrap_err(),
        ContractError::BadSlug { label: FieldLabel::InputName, value: s("Bad") }
    );
}

#[test]
fn blank_output_description_is_refused() {
    let mut c = example();
    c.inputs[0].outputs[0].description = Some(s(" "));
    let e = c.validate().unwrap_err();
    assert_eq!(e, ContractError::Empty { label: FieldLabel::OutputDescription });
    assert_eq!(e.message(), "output description must not be empty");
    c.inputs[0].outputs[0].description = Some(s(""));
    assert_eq!(
        c.validate().unwrap_err(),
        ContractError::Empty { label: FieldLabel::OutputDescription }
    );
}

#[test]
fn present_output_description_passes() {
    let mut c = example();
    c.inputs[0].outputs[0].description = Some(s("Built files."));
    assert_eq!(c.validate(), Ok(()));
    c.inputs[0].outputs[0].description = None;
    assert_eq!(c.validate(), Ok(()));
}

#[test]
fn output_description_rule_comes_after_name_and_before_location() {
    let mut c = example();
    c.inputs[0].outputs[0].description = Some(s("\t"));
    c.inputs[0].outputs[0].location = s(" ");
    assert_eq!(
        c.validate().unwrap_err(),
        ContractError::Empty { label: FieldLabel::OutputDescription }
    );
    c.inputs[0].outputs[0].name = s("Build");
    assert_eq!(
        c.validate().unwrap_err(),
        ContractError::BadSlug { label: FieldLabel::OutputName, value: s("Build") }
    );
}
