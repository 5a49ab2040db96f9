use mnemesis::model::{Project, ProjectContract};
use mnemesis::search::{match_features, normalize};

fn contract(name: &str, description: &str) -> ProjectContract {
    ProjectContract {
        schema_version: 1,
        project: Project { name: name.to_string(), description: description.to_string() },
        inputs: vec![],
    }
}

#[test]
fn normalize_folds_case_and_punctuation() {
    assert_eq!(normalize("  Company-Website!!  Build\tAND deploy "), "company website build and deploy");
    assert_eq!(normalize(""), "");
    assert_eq!(normalize("---"), "");
    assert_eq!(normalize("Ünïcode café 42"), "n code caf 42");
}

#[test]
fn normalize_is_idempotent_on_examples() {
    for t in ["A  b", "x-y_z", " lead", "trail ", "Mixed CASE 9"] {
        let once = normalize(t);
        assert_eq!(normalize(&once), once);
    }
}

#[test]
fn features_of_partial_query() {
    let c = contract("company-website", "Build and deploy the company website.");
    let f = match_features(&c, "company site");
    assert_eq!(f.name, "company-website");
    assert_eq!(f.query, "company site");
    assert_eq!(f.match_name, "company website");
    assert_eq!(f.token_count, 2);
    // "site" occurs inside "website"
    assert_eq!(f.token_hits, 2);
    assert!(!f.exact);
    assert!(!f.contains_query);
}

#[test]
fn features_of_exact_query() {
    let c = contract("company-website", "Build and deploy the company website.");
    let f = match_features(&c, "company-website");
    assert!(f.exact);
    assert!(f.contains_query);
    assert_eq!(f.token_count, 2);
    assert_eq!(f.token_hits, 2);
}

#[test]
fn features_of_unrelated_query() {
    let c = contract("company-website", "Build and deploy the company website.");
    let f = match_features(&c, "Kernel Module");
    assert_eq!(f.query, "kernel module");
    assert_eq!(f.token_hits, 0);
    assert_eq!(f.token_count, 2);
    assert!(!f.exact);
    assert!(!f.contains_query);
}

#[test]
fn empty_query_has_no_tokens_and_is_contained() {
    let c = contract("a", "b");
    let f = match_features(&c, "  ");
    assert_eq!(f.token_count, 0);
    assert_eq!(f.token_hits, 0);
    assert!(f.contains_query);
}

#[test]
fn normalized_text_has_plain_shape() {
    for t in ["  Company-Website!!  Build\tAND deploy ", "a__b", "ÄB  c", "x\n\ny"] {
        let r = normalize(t);
        assert!(r.chars().all(|c| c.is_ascii_lowercase() || c.is_ascii_digit() || c == ' '));
        assert!(!r.starts_with(' ') && !r.ends_with(' '));
        assert!(!r.contains("  "));
    }
    assert_eq!(normalize("a__b"), "a b");
}
