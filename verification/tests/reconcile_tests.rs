use aipster::pkg::Package;
use aipster::rank::rank;
use aipster::reconcile::{reconcile, Action};

fn pkg(name: &str, version: &str) -> Package {
    Package {
        name: name.to_string(),
        version: version.to_string(),
        description: "d".to_string(),
        url: "u".to_string(),
    }
}

#[test]
fn reconcile_keeps_length_and_catalog_data() {
    let catalog = vec![pkg("a", "1"), pkg("b", "2"), pkg("a", "1")];
    let manifest = vec![pkg("b", "1")];
    let entries = reconcile(&catalog, &manifest);
    assert_eq!(entries.len(), catalog.len());
    for (entry, original) in entries.iter().zip(catalog.iter()) {
        assert_eq!(&entry.catalog_package, original);
    }
}

#[test]
fn empty_manifest_means_all_install() {
    let catalog = vec![pkg("a", "1"), pkg("b", "2"), pkg("c", "3")];
    let manifest: Vec<Package> = Vec::new();
    let entries = reconcile(&catalog, &manifest);
    for entry in &entries {
        assert_eq!(entry.action, Action::Install);
        assert!(entry.installed_package.is_none());
    }
}

#[test]
fn upgrade_and_install_scenario() {
    // Catalog foo 1.0 and bar 2.0 against a manifest with foo 0.9: foo is
    // upgradable (and removable, being installed), bar is a fresh install;
    // the default ranking puts bar before foo.
    let catalog = vec![pkg("foo", "1.0"), pkg("bar", "2.0")];
    let manifest = vec![pkg("foo", "0.9")];
    let entries = reconcile(&catalog, &manifest);
    assert_eq!(entries.len(), 2);
    assert_eq!(entries[0].action, Action::Upgrade);
    assert_eq!(entries[0].installed_package, Some(pkg("foo", "0.9")));
    assert_eq!(entries[1].action, Action::Install);
    assert_eq!(entries[1].installed_package, None);

    let ranked = rank(&entries, false, None);
    assert_eq!(ranked.len(), 2);
    assert_eq!(ranked[0].catalog_package.name, "bar");
    assert_eq!(ranked[1].catalog_package.name, "foo");
}

#[test]
fn installed_not_upgradable_is_remove_only() {
    let catalog = vec![pkg("foo", "1.0")];
    let manifest = vec![pkg("foo", "1.0")];
    let entries = reconcile(&catalog, &manifest);
    assert_eq!(entries[0].action, Action::Remove);
}

#[test]
fn first_manifest_match_wins_on_duplicate_names() {
    let catalog = vec![pkg("foo", "1.0")];
    let manifest = vec![pkg("foo", "1.5"), pkg("foo", "0.1")];
    let entries = reconcile(&catalog, &manifest);
    // The first record (1.5) is the match, so no upgrade to 1.0 is offered.
    assert_eq!(entries[0].installed_package, Some(pkg("foo", "1.5")));
    assert_eq!(entries[0].action, Action::Remove);
}
