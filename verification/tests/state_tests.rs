use aipster::pkg::Package;
use aipster::state::{
    action_arguments, bootstrap_manifest, conclude_action, refresh, ActionOutcome, CoreError,
    PackageAction,
};

fn pkg(name: &str, version: &str) -> Package {
    Package {
        name: name.to_string(),
        version: version.to_string(),
        description: "d".to_string(),
        url: "u".to_string(),
    }
}

fn outcome(success: bool, stdout: &str, stderr: &str) -> ActionOutcome {
    ActionOutcome { success, stdout: stdout.to_string(), stderr: stderr.to_string() }
}

#[test]
fn absent_manifest_bootstraps_empty() {
    let (manifest, must_create) = bootstrap_manifest(None);
    assert!(manifest.is_empty());
    assert!(must_create);
}

#[test]
fn stored_manifest_is_used_as_is() {
    let stored = vec![pkg("foo", "1.0")];
    let (manifest, must_create) = bootstrap_manifest(Some(stored.clone()));
    assert_eq!(manifest, stored);
    assert!(!must_create);
}

#[test]
fn catalog_fetch_failure_aborts_refresh() {
    let r = refresh(false, None, Err("network unreachable".to_string()), Ok(Vec::new()));
    match r {
        Err(CoreError::CatalogFetchFailed(m)) => assert_eq!(m, "network unreachable"),
        other => panic!("expected CatalogFetchFailed, got {:?}", other),
    }
}

#[test]
fn manifest_read_failure_aborts_refresh() {
    let catalog = vec![pkg("foo", "1.0")];
    let r = refresh(false, None, Ok(catalog), Err("manifest corrupt".to_string()));
    match r {
        Err(CoreError::ManifestReadFailed(m)) => assert_eq!(m, "manifest corrupt"),
        other => panic!("expected ManifestReadFailed, got {:?}", other),
    }
}

#[test]
fn refresh_builds_ranked_state() {
    let catalog = vec![pkg("foo", "1.0"), pkg("bar", "2.0")];
    let manifest = vec![pkg("foo", "0.9")];
    let state = refresh(false, None, Ok(catalog), Ok(manifest)).unwrap();
    assert!(!state.installed_only);
    assert_eq!(state.query, None);
    let names: Vec<&str> =
        state.ranked_entries.iter().map(|e| e.catalog_package.name.as_str()).collect();
    assert_eq!(names, vec!["bar", "foo"]);
}

#[test]
fn refresh_keeps_filter_and_query_in_state() {
    let catalog = vec![pkg("foo", "1.0")];
    let manifest = vec![pkg("foo", "0.9")];
    let state = refresh(true, Some("fo".to_string()), Ok(catalog), Ok(manifest)).unwrap();
    assert!(state.installed_only);
    assert_eq!(state.query, Some("fo".to_string()));
    assert_eq!(state.ranked_entries.len(), 1);
}

#[test]
fn action_arguments_reuse_install_for_upgrade() {
    let name = "foo".to_string();
    assert_eq!(action_arguments(PackageAction::Install, &name), vec!["install", "foo"]);
    assert_eq!(action_arguments(PackageAction::Upgrade, &name), vec!["install", "foo"]);
    assert_eq!(action_arguments(PackageAction::Remove, &name), vec!["remove", "foo"]);
}

#[test]
fn failed_remove_surfaces_executor_text_then_refreshes_with_prior_state() {
    let c = conclude_action(
        true,
        Some("query".to_string()),
        Ok(outcome(false, "", "removal failed: not installed")),
    );
    match &c.status {
        Err(CoreError::ActionExecutionFailed(t)) => {
            assert_eq!(t, "removal failed: not installed")
        },
        other => panic!("expected ActionExecutionFailed, got {:?}", other),
    }
    // The follow-up refresh uses the filter and query from before the action.
    assert!(c.next_installed_only);
    assert_eq!(c.next_query, Some("query".to_string()));
}

#[test]
fn dispatch_failure_is_distinguished_from_execution_failure() {
    let c = conclude_action(false, None, Err("executable not found".to_string()));
    match &c.status {
        Err(CoreError::ActionDispatchFailed(m)) => assert_eq!(m, "executable not found"),
        other => panic!("expected ActionDispatchFailed, got {:?}", other),
    }
    assert!(!c.next_installed_only);
    assert_eq!(c.next_query, None);
}

#[test]
fn successful_action_surfaces_combined_output() {
    let c = conclude_action(false, None, Ok(outcome(true, "installed foo\n", "warning: slow\n")));
    match &c.status {
        Ok(t) => assert_eq!(t, "installed foo\nwarning: slow\n"),
        other => panic!("expected success text, got {:?}", other),
    }
}
