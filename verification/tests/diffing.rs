use mnemesis::diff::{diff_action, diff_actions, diff_contracts, diff_output, diff_outputs, format_output, FieldChange};
use mnemesis::model::{Action, Input, InputType, Output, OutputType, Project, ProjectContract};

fn s(v: &str) -> String {
    v.to_string()
}

fn contract(description: &str, inputs: Vec<Input>) -> ProjectContract {
    ProjectContract {
        schema_version: 1,
        project: Project { name: s("existing"), description: s(description) },
        inputs,
    }
}

fn input(name: &str) -> Input {
    Input {
        name: s(name),
        description: s("Source files."),
        input_type: Some(InputType::Directory),
        outputs: vec![Output {
            name: s("build"),
            description: None,
            output_type: OutputType::Directory,
            location: s("./dist"),
        }],
        actions: vec![Action { action_type: s("successful-build"), instructions: s("Report.") }],
    }
}

fn modified(path: &str, old: &str, new: &str) -> FieldChange {
    FieldChange::Modified { path: s(path), old: s(old), new: s(new) }
}

fn added(path: &str, value: &str) -> FieldChange {
    FieldChange::Added { path: s(path), value: s(value) }
}

#[test]
fn same_contract_has_no_changes() {
    let c = contract("Original description.", vec![input("source"), input("deploy")]);
    assert!(diff_contracts(&c, &c).is_empty());
}

#[test]
fn description_change_is_reported_at_its_path() {
    let old = contract("Original description.", vec![]);
    let new = contract("Updated description.", vec![]);
    assert_eq!(
        diff_contracts(&old, &new),
        vec![modified("project.description", "Original description.", "Updated description.")]
    );
}

#[test]
fn added_input_reports_every_field() {
    let old = contract("d", vec![]);
    let new = contract("d", vec![input("source")]);
    assert_eq!(
        diff_contracts(&old, &new),
        vec![
            added("inputs[source]", "input with 1 outputs and 1 actions"),
            added("inputs[source].description", "Source files."),
            added("inputs[source].type", "directory"),
            added("inputs[source].outputs[build]", "directory output at ./dist"),
            added("inputs[source].outputs[build].type", "directory"),
            added("inputs[source].outputs[build].location", "./dist"),
            added("inputs[source].actions[successful-build]", "action with 7 chars of instructions"),
            added("inputs[source].actions[successful-build].instructions", "Report."),
        ]
    );
}

#[test]
fn removed_input_is_reported() {
    let old = contract("d", vec![input("source")]);
    let new = contract("d", vec![]);
    assert_eq!(
        diff_contracts(&old, &new),
        vec![FieldChange::Removed { path: s("inputs[source]"), old: s("input with 1 outputs and 1 actions") }]
    );
}

#[test]
fn nested_changes_are_reported() {
    let old = contract("d", vec![input("source")]);
    let mut changed = input("source");
    changed.input_type = None;
    changed.outputs[0].location = s("./out");
    changed.outputs[0].description = Some(s("Build output."));
    changed.outputs[0].output_type = OutputType::File;
    changed.actions[0].instructions = s("Tell.");
    changed.actions.push(Action { action_type: s("failed-build"), instructions: s("é!") });
    changed.outputs.push(Output {
        name: s("log"),
        description: Some(s("Log file.")),
        output_type: OutputType::File,
        location: s("./log.txt"),
    });
    let new = contract("d", vec![changed]);
    assert_eq!(
        diff_contracts(&old, &new),
        vec![
            modified("inputs[source].type", "Some(Directory)", "None"),
            modified("inputs[source].outputs[build].description", "", "Build output."),
            modified("inputs[source].outputs[build].type", "directory", "file"),
            modified("inputs[source].outputs[build].location", "./dist", "./out"),
            added("inputs[source].outputs[log]", "file output at ./log.txt"),
            added("inputs[source].outputs[log].description", "Log file."),
            added("inputs[source].outputs[log].type", "file"),
            added("inputs[source].outputs[log].location", "./log.txt"),
            modified("inputs[source].actions[successful-build].instructions", "Report.", "Tell."),
            added("inputs[source].actions[failed-build]", "action with 3 chars of instructions"),
            added("inputs[source].actions[failed-build].instructions", "é!"),
        ]
    );
}

#[test]
fn removed_output_and_action_are_reported() {
    let old = contract("d", vec![input("source")]);
    let mut changed = input("source");
    changed.outputs.clear();
    changed.actions.clear();
    let new = contract("d", vec![changed]);
    assert_eq!(
        diff_contracts(&old, &new),
        vec![
            FieldChange::Removed { path: s("inputs[source].outputs[build]"), old: s("directory output at ./dist") },
            FieldChange::Removed { path: s("inputs[source].actions[successful-build]"), old: s("Report.") },
        ]
    );
}

#[test]
fn reordered_inputs_have_no_changes() {
    let old = contract("d", vec![input("a"), input("b")]);
    let new = contract("d", vec![input("b"), input("a")]);
    assert!(diff_contracts(&old, &new).is_empty());
}

#[test]
fn renamed_project_is_reported() {
    let old = contract("d", vec![]);
    let mut new = contract("d", vec![]);
    new.project.name = s("renamed");
    assert_eq!(diff_contracts(&old, &new), vec![modified("project.name", "existing", "renamed")]);
}

#[test]
fn added_input_without_description_or_type() {
    let old = contract("d", vec![]);
    let mut i = input("bare");
    i.description = s("");
    i.input_type = None;
    i.outputs.clear();
    i.actions.clear();
    let new = contract("d", vec![i]);
    assert_eq!(
        diff_contracts(&old, &new),
        vec![added("inputs[bare]", "input with 0 outputs and 0 actions")]
    );
}

#[test]
fn output_summary_line() {
    let o = Output { name: s("x"), description: None, output_type: OutputType::File, location: s("a/b") };
    assert_eq!(format_output(&o), "file output at a/b");
}

#[test]
fn change_path_accessor() {
    assert_eq!(added("p.q", "v").path(), "p.q");
    assert_eq!(modified("m", "a", "b").path(), "m");
}

fn output(name: &str, description: Option<&str>, t: OutputType, location: &str) -> Output {
    Output { name: s(name), description: description.map(s), output_type: t, location: s(location) }
}

#[test]
fn diff_output_appends_one_change_per_differing_field() {
    let prior = output("build", None, OutputType::Directory, "./dist");
    let next = output("build", Some("Built."), OutputType::File, "./dist");
    let mut changes = vec![added("earlier", "kept")];
    diff_output(&prior, &next, "inputs[source]", &mut changes);
    assert_eq!(
        changes,
        vec![
            added("earlier", "kept"),
            modified("inputs[source].outputs[build].description", "", "Built."),
            modified("inputs[source].outputs[build].type", "directory", "file"),
        ]
    );
    let mut none = Vec::new();
    diff_output(&prior, &prior, "inputs[source]", &mut none);
    assert!(none.is_empty());
}

#[test]
fn diff_action_reports_changed_instructions_only() {
    let prior = Action { action_type: s("deploy"), instructions: s("Ship it.") };
    let next = Action { action_type: s("deploy"), instructions: s("Ship it now.") };
    let mut changes = Vec::new();
    diff_action(&prior, &next, "inputs[x]", &mut changes);
    assert_eq!(changes, vec![modified("inputs[x].actions[deploy].instructions", "Ship it.", "Ship it now.")]);
    let mut none = Vec::new();
    diff_action(&prior, &prior, "inputs[x]", &mut none);
    assert!(none.is_empty());
}

#[test]
fn diff_outputs_and_actions_put_removals_last() {
    let prior = vec![
        output("a", None, OutputType::File, "./a"),
        output("b", None, OutputType::File, "./b"),
    ];
    let next = vec![output("c", None, OutputType::Directory, "./c"), output("b", None, OutputType::File, "./b2")];
    let mut changes = Vec::new();
    diff_outputs(&prior, &next, "inputs[i]", &mut changes);
    assert_eq!(
        changes,
        vec![
            added("inputs[i].outputs[c]", "directory output at ./c"),
            added("inputs[i].outputs[c].type", "directory"),
            added("inputs[i].outputs[c].location", "./c"),
            modified("inputs[i].outputs[b].location", "./b", "./b2"),
            FieldChange::Removed { path: s("inputs[i].outputs[a]"), old: s("file output at ./a") },
        ]
    );
    let prior = vec![
        Action { action_type: s("one"), instructions: s("1") },
        Action { action_type: s("two"), instructions: s("2") },
    ];
    let next = vec![Action { action_type: s("two"), instructions: s("2") }];
    let mut changes = Vec::new();
    diff_actions(&prior, &next, "inputs[i]", &mut changes);
    assert_eq!(changes, vec![FieldChange::Removed { path: s("inputs[i].actions[one]"), old: s("1") }]);
}

#[test]
fn modifications_mirror_between_directions() {
    let a = contract("First.", vec![input("source")]);
    let mut changed = input("source");
    changed.outputs[0].location = s("./out");
    changed.actions[0].instructions = s("Tell.");
    let b = contract("Second.", vec![changed]);
    let forward = diff_contracts(&a, &b);
    let backward = diff_contracts(&b, &a);
    assert_eq!(forward.len(), 3);
    for c in &forward {
        match c {
            FieldChange::Modified { path, old, new } => {
                assert!(backward.contains(&FieldChange::Modified { path: path.clone(), old: new.clone(), new: old.clone() }));
            }
            _ => panic!("only modifications expected"),
        }
    }
    assert_eq!(backward.len(), forward.len());
}

#[test]
fn reordered_outputs_and_actions_have_no_changes() {
    let mut one = input("source");
    one.outputs.push(output("log", Some("Log."), OutputType::File, "./log"));
    one.actions.push(Action { action_type: s("failed-build"), instructions: s("Say so.") });
    let mut two = one.clone();
    two.outputs.reverse();
    two.actions.reverse();
    let a = contract("d", vec![one]);
    let b = contract("d", vec![two]);
    assert!(diff_contracts(&a, &b).is_empty());
    let mut c = b.clone();
    c.inputs[0].outputs[0].description = None;
    assert!(!diff_contracts(&a, &c).is_empty());
}

#[test]
fn every_path_is_keyed_by_name() {
    let old = contract("d", vec![input("source"), input("gone")]);
    let mut changed = input("source");
    changed.outputs[0].location = s("./out");
    let new = contract("e", vec![changed, input("fresh")]);
    for c in diff_contracts(&old, &new) {
        let p = c.path();
        assert!(
            p == "project.description"
                || p.starts_with("inputs[source]")
                || p.starts_with("inputs[gone]")
                || p.starts_with("inputs[fresh]"),
            "{p}"
        );
    }
}
