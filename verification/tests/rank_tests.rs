use aipster::fuzzy::{similarity_score, SIMILARITY_SCALE};
use aipster::pkg::Package;
use aipster::rank::rank;
use aipster::reconcile::{Action, ReconciledEntry};

fn pkg(name: &str, version: &str) -> Package {
    Package {
        name: name.to_string(),
        version: version.to_string(),
        description: "d".to_string(),
        url: "u".to_string(),
    }
}

fn entry(name: &str, action: Action) -> ReconciledEntry {
    let installed = match action {
        Action::Install => None,
        _ => Some(pkg(name, "0.1")),
    };
    ReconciledEntry { catalog_package: pkg(name, "1.0"), installed_package: installed, action }
}

fn names(entries: &[ReconciledEntry]) -> Vec<String> {
    entries.iter().map(|e| e.catalog_package.name.clone()).collect()
}

#[test]
fn installed_only_keeps_non_install_in_name_order() {
    let entries = vec![
        entry("zeta", Action::Remove),
        entry("beta", Action::Install),
        entry("alpha", Action::Upgrade),
        entry("delta", Action::Remove),
    ];
    let ranked = rank(&entries, true, None);
    assert_eq!(names(&ranked), vec!["alpha", "delta", "zeta"]);
    for e in &ranked {
        assert_ne!(e.action, Action::Install);
    }
}

#[test]
fn default_order_is_ascending_by_name() {
    let entries = vec![
        entry("banana", Action::Install),
        entry("apple", Action::Install),
        entry("cherry", Action::Install),
    ];
    let ranked = rank(&entries, false, None);
    assert_eq!(names(&ranked), vec!["apple", "banana", "cherry"]);
}

#[test]
fn name_order_is_case_sensitive_by_code_point() {
    let entries = vec![entry("apple", Action::Install), entry("Banana", Action::Install)];
    let ranked = rank(&entries, false, None);
    // 'B' (66) comes before 'a' (97).
    assert_eq!(names(&ranked), vec!["Banana", "apple"]);
}

#[test]
fn exact_query_match_ranks_first() {
    let entries = vec![
        entry("alpha", Action::Install),
        entry("beta", Action::Install),
        entry("gamma", Action::Install),
    ];
    let ranked = rank(&entries, false, Some("beta".to_string()));
    assert_eq!(ranked.len(), 3);
    assert_eq!(ranked[0].catalog_package.name, "beta");
}

#[test]
fn query_ties_keep_input_order() {
    // Both names are equally far from the query, so the stable sort keeps
    // them in input order even though it is not alphabetical.
    let entries = vec![entry("bb", Action::Install), entry("aa", Action::Install)];
    assert_eq!(similarity_score("bb", "zz"), similarity_score("aa", "zz"));
    let ranked = rank(&entries, false, Some("zz".to_string()));
    assert_eq!(names(&ranked), vec!["bb", "aa"]);
}

#[test]
fn query_orders_by_descending_similarity() {
    let entries = vec![
        entry("zzzz", Action::Install),
        entry("abxx", Action::Install),
        entry("abcx", Action::Install),
    ];
    let ranked = rank(&entries, false, Some("abcd".to_string()));
    assert_eq!(names(&ranked), vec!["abcx", "abxx", "zzzz"]);
}

#[test]
fn similarity_of_identical_strings_is_the_scale() {
    assert_eq!(similarity_score("abc", "abc"), SIMILARITY_SCALE);
    assert_eq!(similarity_score("", ""), SIMILARITY_SCALE);
}

#[test]
fn similarity_of_disjoint_strings_is_zero() {
    assert_eq!(similarity_score("abc", "xyz"), 0);
    assert_eq!(similarity_score("a", ""), 0);
}

#[test]
fn similarity_counts_unedited_share_of_longer_string() {
    // One edit over length two: half the scale.
    assert_eq!(similarity_score("ab", "ax"), SIMILARITY_SCALE / 2);
    // One insertion over length four: three quarters of the scale.
    assert_eq!(similarity_score("abcd", "abd"), SIMILARITY_SCALE / 4 * 3);
    // Different strings never reach the scale.
    assert!(similarity_score("abcd", "abcde") < SIMILARITY_SCALE);
}
