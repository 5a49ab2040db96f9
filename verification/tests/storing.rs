use mnemesis::model::{ContractError, FieldLabel, Project, ProjectContract};
use mnemesis::store::{Store, StoreError};

fn contract(name: &str, description: &str) -> ProjectContract {
    ProjectContract {
        schema_version: 1,
        project: Project { name: name.to_string(), description: description.to_string() },
        inputs: vec![],
    }
}

#[test]
fn store_paths() {
    let store = Store::new("/home/u/.mnemesis".to_string());
    assert_eq!(store.projects_dir(), "/home/u/.mnemesis/projects");
    assert_eq!(store.drafts_dir(), "/home/u/.mnemesis/drafts");
    assert_eq!(store.project_path("example-project"), "/home/u/.mnemesis/projects/example-project.yaml");
    assert_eq!(store.draft_path("example-project"), "/home/u/.mnemesis/drafts/example-project.yaml");
}

#[test]
fn store_paths_with_trailing_slash_and_empty_root() {
    let store = Store::new("/srv/".to_string());
    assert_eq!(store.projects_dir(), "/srv/projects");
    let store = Store::new(String::new());
    assert_eq!(store.project_path("p"), "projects/p.yaml");
}

#[test]
fn absolute_name_replaces_directory() {
    let store = Store::new("/srv".to_string());
    assert_eq!(store.project_path("/etc/x"), "/etc/x.yaml");
}

#[test]
fn load_missing_project_is_none() {
    let store = Store::new("/srv".to_string());
    assert_eq!(store.load_project("nothing", None), Ok(None));
    assert_eq!(store.read_draft("nothing", None), Ok(None));
}

#[test]
fn load_valid_project_returns_it() {
    let store = Store::new("/srv".to_string());
    let c = contract("example-project", "Example.");
    assert_eq!(store.load_project("example-project", Some(c.clone())), Ok(Some(c)));
}

#[test]
fn load_invalid_project_reports_path() {
    let store = Store::new("/srv".to_string());
    let c = contract("example-project", " ");
    let e = store.read_draft("example-project", Some(c)).unwrap_err();
    assert_eq!(
        e,
        StoreError::Invalid {
            path: "/srv/drafts/example-project.yaml".to_string(),
            error: ContractError::Empty { label: FieldLabel::ProjectDescription },
        }
    );
    assert_eq!(e.message(), "validate /srv/drafts/example-project.yaml: project description must not be empty");
}

#[test]
fn write_project_checks_first() {
    let store = Store::new("/srv".to_string());
    assert_eq!(store.write_project(&contract("ok", "Fine.")), Ok("/srv/projects/ok.yaml".to_string()));
    assert_eq!(
        store.write_project(&contract("Not-ok", "Fine.")),
        Err(ContractError::BadSlug { label: FieldLabel::ProjectName, value: "Not-ok".to_string() })
    );
}

#[test]
fn list_projects_sorts_by_name() {
    let store = Store::new("/srv".to_string());
    let found = vec![
        ("/srv/projects/zeta.yaml".to_string(), contract("zeta", "Z.")),
        ("/srv/projects/alpha.yaml".to_string(), contract("alpha", "A.")),
        ("/srv/projects/alp.yaml".to_string(), contract("alp", "A.")),
        ("/srv/projects/beta.yaml".to_string(), contract("beta", "B.")),
    ];
    let names: Vec<String> = store
        .list_projects(found)
        .unwrap()
        .into_iter()
        .map(|c| c.project.name)
        .collect();
    assert_eq!(names, vec!["alp", "alpha", "beta", "zeta"]);
}

#[test]
fn list_projects_keeps_order_of_equal_names() {
    let store = Store::new("/srv".to_string());
    let found = vec![
        ("/a.yaml".to_string(), contract("same", "First.")),
        ("/b.yaml".to_string(), contract("same", "Second.")),
        ("/c.yaml".to_string(), contract("aaa", "Third.")),
    ];
    let listed = store.list_projects(found).unwrap();
    let descriptions: Vec<String> = listed.into_iter().map(|c| c.project.description).collect();
    assert_eq!(descriptions, vec!["Third.", "First.", "Second."]);
}

#[test]
fn list_projects_reports_first_invalid() {
    let store = Store::new("/srv".to_string());
    let found = vec![
        ("/srv/projects/good.yaml".to_string(), contract("good", "G.")),
        ("/srv/projects/bad.yaml".to_string(), contract("bad", "")),
        ("/srv/projects/worse.yaml".to_string(), contract("Worse", "")),
    ];
    let e = store.list_projects(found).unwrap_err();
    assert_eq!(e.message(), "validate /srv/projects/bad.yaml: project description must not be empty");
}
