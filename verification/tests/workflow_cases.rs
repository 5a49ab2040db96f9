use mnemesis::diff::FieldChange;
use mnemesis::diff::diff_contracts;
use mnemesis::model::{Action, ContractError, FieldLabel, Input, InputType, Output, OutputType, Project, ProjectContract};
use mnemesis::store::Store;
use mnemesis::workflow::{apply_accepted, decide_load, decide_save, is_accepted, LoadOutcome, SaveOutcome};

fn s(v: &str) -> String {
    v.to_string()
}

fn contract(name: &str, description: &str, inputs: Vec<Input>) -> ProjectContract {
    ProjectContract { schema_version: 1, project: Project { name: s(name), description: s(description) }, inputs }
}

fn input(name: &str, description: &str, location: &str, instructions: &str) -> Input {
    Input {
        name: s(name),
        description: s(description),
        input_type: None,
        outputs: vec![Output { name: s("build"), description: None, output_type: OutputType::Directory, location: s(location) }],
        actions: vec![Action { action_type: s("successful-build"), instructions: s(instructions) }],
    }
}

#[test]
fn load_exact_match_seeds_draft() {
    let store = Store::new(s("/home/u/.mnemesis"));
    let c = contract("example-project", "Example project.", vec![]);
    let exact = store.load_project("example-project", Some(c.clone())).unwrap();
    assert_eq!(
        decide_load(&store, "example-project", exact, 0),
        LoadOutcome::Loaded { project: c, draft_path: s("/home/u/.mnemesis/drafts/example-project.yaml") }
    );
}

#[test]
fn load_not_found_returns_not_found_status() {
    let store = Store::new(s("/tmp/store"));
    let exact = store.load_project("definitely-not-a-project", None).unwrap();
    assert_eq!(decide_load(&store, "definitely-not-a-project", exact, 0), LoadOutcome::NotFound);
}

#[test]
fn load_with_candidates_is_ambiguous() {
    let store = Store::new(s("/tmp/store"));
    assert_eq!(decide_load(&store, "company site", None, 2), LoadOutcome::Ambiguous);
}

#[test]
fn save_creates_project_from_draft() {
    let draft = contract("new-project", "A new project.", vec![]);
    match decide_save("new-project", draft.clone(), None, &[], false) {
        SaveOutcome::Saved { contract, accepted } => {
            assert_eq!(contract, draft);
            assert!(accepted.is_empty());
        }
        other => panic!("expected saved, got {other:?}"),
    }
}

#[test]
fn save_rejects_when_draft_name_mismatches_cli_arg() {
    let draft = contract("different-name", "Different name inside.", vec![]);
    assert_eq!(
        decide_save("cli-name", draft, None, &[], false),
        SaveOutcome::NameMismatch { expected: s("cli-name"), found: s("different-name") }
    );
}

#[test]
fn save_rejects_pending_changes_without_yes_or_accept() {
    let existing = contract("existing", "Original description.", vec![]);
    let draft = contract("existing", "Updated description.", vec![]);
    match decide_save("existing", draft, Some(existing), &[], false) {
        SaveOutcome::PendingChanges { changes } => {
            assert_eq!(
                changes,
                vec![FieldChange::Modified {
                    path: s("project.description"),
                    old: s("Original description."),
                    new: s("Updated description."),
                }]
            );
        }
        other => panic!("expected pending changes, got {other:?}"),
    }
}

#[test]
fn save_with_yes_accepts_all_changes() {
    let existing = contract("existing", "Original description.", vec![]);
    let draft = contract("existing", "Updated description.", vec![]);
    match decide_save("existing", draft.clone(), Some(existing), &[], true) {
        SaveOutcome::Saved { contract, accepted } => {
            assert_eq!(contract.project.description, "Updated description.");
            assert_eq!(contract, draft);
            assert_eq!(accepted, vec![s("project.description")]);
        }
        other => panic!("expected saved, got {other:?}"),
    }
}

#[test]
fn save_without_changes_writes_draft() {
    let existing = contract("existing", "Same.", vec![input("a", "A.", "./a", "Go.")]);
    match decide_save("existing", existing.clone(), Some(existing.clone()), &[], false) {
        SaveOutcome::Saved { contract, accepted } => {
            assert_eq!(contract, existing);
            assert!(accepted.is_empty());
        }
        other => panic!("expected saved, got {other:?}"),
    }
}

#[test]
fn accept_by_prefix_takes_only_matching_changes() {
    let old = contract("p", "Old.", vec![input("deploy", "D.", "./d", "Deploy."), input("build", "B.", "./b", "Build.")]);
    let new = contract("p", "New.", vec![input("deploy", "D2.", "./d2", "Deploy2."), input("build", "B2.", "./b", "Build.")]);
    let accept = vec![s("inputs[deploy]")];
    match decide_save("p", new, Some(old), &accept, false) {
        SaveOutcome::Saved { contract, accepted } => {
            assert_eq!(contract.project.description, "Old.");
            assert_eq!(contract.inputs[0].description, "D2.");
            assert_eq!(contract.inputs[0].outputs[0].location, "./d2");
            assert_eq!(contract.inputs[0].actions[0].instructions, "Deploy2.");
            assert_eq!(contract.inputs[1].description, "B.");
            assert_eq!(
                accepted,
                vec![
                    s("inputs[deploy].description"),
                    s("inputs[deploy].outputs[build].location"),
                    s("inputs[deploy].actions[successful-build].instructions"),
                ]
            );
        }
        other => panic!("expected saved, got {other:?}"),
    }
}

#[test]
fn unaccepted_addition_and_removal_are_skipped() {
    let old = contract("p", "Old.", vec![input("gone", "G.", "./g", "Go.")]);
    let new = contract("p", "Old.", vec![input("fresh", "F.", "./f", "Fresh.")]);
    let merged = apply_accepted(&old, &new, &[s("project.description")], false);
    assert_eq!(merged, old);
    let merged = apply_accepted(&old, &new, &[s("inputs[fresh]"), s("inputs[gone]")], false);
    assert_eq!(merged, new);
}

#[test]
fn accepted_result_is_revalidated() {
    let old = contract("p", "Old.", vec![]);
    let mut new = contract("p", "Old.", vec![]);
    new.project.name = s("p");
    new.schema_version = 1;
    new.inputs.push(Input { name: s("x"), description: s("X."), input_type: None, outputs: vec![], actions: vec![] });
    // A draft that breaks a rule is refused, not written.
    let mut bad = new.clone();
    bad.inputs[0].description = s(" ");
    assert_eq!(
        decide_save("p", bad, Some(old), &[], true),
        SaveOutcome::Refused { error: ContractError::Empty { label: FieldLabel::InputDescription } }
    );
}

#[test]
fn accept_matching_rules() {
    let accept = vec![s("inputs[deploy]"), s("project.description")];
    assert!(is_accepted("inputs[deploy].actions[x].instructions", &accept, false));
    assert!(is_accepted("project.description", &accept, false));
    assert!(!is_accepted("inputs[deploy-prod].description", &accept, false));
    assert!(!is_accepted("project.name", &accept, false));
    assert!(is_accepted("project.name", &[], true));
}

fn paths(changes: &[FieldChange]) -> Vec<String> {
    changes.iter().map(|c| c.path().clone()).collect()
}

fn deploy_input() -> Input {
    Input {
        name: s("deploy"),
        description: s("Deploy it."),
        input_type: Some(InputType::Directory),
        outputs: vec![],
        actions: vec![],
    }
}

#[test]
fn fields_of_an_unaccepted_new_input_are_not_taken() {
    let old = contract("p", "Old.", vec![]);
    let new = contract("p", "Old.", vec![deploy_input()]);
    let accept = vec![s("inputs[deploy].description"), s("inputs[deploy].type")];
    match decide_save("p", new.clone(), Some(old.clone()), &accept, false) {
        SaveOutcome::PendingChanges { changes } => assert_eq!(changes, diff_contracts(&old, &new)),
        other => panic!("expected pending changes, got {other:?}"),
    }
    match decide_save("p", new.clone(), Some(old), &[s("inputs[deploy]")], false) {
        SaveOutcome::Saved { contract, accepted } => {
            assert_eq!(contract, new);
            assert_eq!(
                accepted,
                vec![s("inputs[deploy]"), s("inputs[deploy].description"), s("inputs[deploy].type")]
            );
        }
        other => panic!("expected saved, got {other:?}"),
    }
}

#[test]
fn new_output_comes_in_whole_or_not_at_all() {
    let old = contract("p", "Old.", vec![input("source", "S.", "./s", "Go.")]);
    let mut changed = input("source", "S2.", "./s", "Go.");
    changed.outputs.push(Output { name: s("log"), description: None, output_type: OutputType::File, location: s("./log") });
    let new = contract("p", "Old.", vec![changed]);
    let accept = vec![s("inputs[source].description"), s("inputs[source].outputs[log].location")];
    match decide_save("p", new.clone(), Some(old.clone()), &accept, false) {
        SaveOutcome::Saved { contract, accepted } => {
            assert_eq!(contract.inputs[0].description, "S2.");
            assert_eq!(contract.inputs[0].outputs.len(), 1);
            assert_eq!(accepted, vec![s("inputs[source].description")]);
            assert_eq!(paths(&diff_contracts(&old, &contract)), accepted);
        }
        other => panic!("expected saved, got {other:?}"),
    }
    let accept = vec![s("inputs[source].outputs[log]")];
    match decide_save("p", new, Some(old.clone()), &accept, false) {
        SaveOutcome::Saved { contract, accepted } => {
            assert_eq!(contract.inputs[0].description, "S.");
            assert_eq!(contract.inputs[0].outputs[1].location, "./log");
            assert_eq!(
                accepted,
                vec![
                    s("inputs[source].outputs[log]"),
                    s("inputs[source].outputs[log].type"),
                    s("inputs[source].outputs[log].location"),
                ]
            );
            assert_eq!(paths(&diff_contracts(&old, &contract)), accepted);
        }
        other => panic!("expected saved, got {other:?}"),
    }
}

#[test]
fn accepting_every_listed_path_equals_yes() {
    let old = contract("p", "Old.", vec![input("gone", "G.", "./g", "Go."), input("kept", "K.", "./k", "Keep.")]);
    let mut kept = input("kept", "K2.", "./k2", "Keep2.");
    kept.actions.push(Action { action_type: s("failed-build"), instructions: s("Say so.") });
    let new = contract("p", "New.", vec![kept, deploy_input()]);
    let every = paths(&diff_contracts(&old, &new));
    let one_by_one = decide_save("p", new.clone(), Some(old.clone()), &every, false);
    let all = decide_save("p", new.clone(), Some(old), &[], true);
    assert_eq!(one_by_one, all);
    match all {
        SaveOutcome::Saved { contract, accepted } => {
            assert_eq!(contract, new);
            assert_eq!(accepted, every);
        }
        other => panic!("expected saved, got {other:?}"),
    }
}
