use aipster::pkg::Package;
use aipster::version::{compare, Cmp};

fn pkg(name: &str, version: &str) -> Package {
    Package {
        name: name.to_string(),
        version: version.to_string(),
        description: "d".to_string(),
        url: "u".to_string(),
    }
}

#[test]
fn compare_equal_with_missing_trailing_segment() {
    assert_eq!(compare("1.0", "1.0.0"), Cmp::Equal);
    assert_eq!(compare("1.0.0", "1.0"), Cmp::Equal);
    assert_eq!(compare("1", "1.0.0.0"), Cmp::Equal);
    assert_eq!(compare("1", "1.0.1"), Cmp::Less);
}

#[test]
fn compare_numeric_segments() {
    assert_eq!(compare("0.9", "1.0"), Cmp::Less);
    assert_eq!(compare("1.0", "0.9"), Cmp::Greater);
    assert_eq!(compare("1.2", "1.10"), Cmp::Less);
    assert_eq!(compare("2", "10"), Cmp::Less);
    assert_eq!(compare("1.01", "1.1"), Cmp::Equal);
}

#[test]
fn compare_lexical_fallback() {
    assert_eq!(compare("1.a", "1.b"), Cmp::Less);
    assert_eq!(compare("abc", "abd"), Cmp::Less);
    assert_eq!(compare("1.alpha", "1.0"), Cmp::Greater);
    assert_eq!(compare("", "0"), Cmp::Less);
    // Too large for a numeric comparison: falls back to the lexical rule.
    assert_eq!(compare("18446744073709551616", "2"), Cmp::Less);
}

#[test]
fn compare_reflexive() {
    assert_eq!(compare("1.2.3", "1.2.3"), Cmp::Equal);
    assert_eq!(compare("", ""), Cmp::Equal);
    assert_eq!(compare("1.alpha.3", "1.alpha.3"), Cmp::Equal);
}

#[test]
fn compare_antisymmetric() {
    let pairs = [("0.9", "1.0"), ("1.2", "1.10"), ("1.a", "1.b"), ("1.0", "1.0.0")];
    for (a, b) in pairs {
        let ab = compare(a, b);
        let ba = compare(b, a);
        let mirrored = match ab {
            Cmp::Less => Cmp::Greater,
            Cmp::Equal => Cmp::Equal,
            Cmp::Greater => Cmp::Less,
        };
        assert_eq!(ba, mirrored);
    }
}

#[test]
fn upgradable_to_newer_version() {
    let installed = pkg("foo", "0.9");
    let candidate = pkg("foo", "1.0");
    assert!(installed.upgradable_to(&candidate));
    assert!(!candidate.upgradable_to(&installed));
}

#[test]
fn upgradable_to_requires_same_name() {
    let installed = pkg("foo", "0.9");
    let candidate = pkg("bar", "1.0");
    assert!(!installed.upgradable_to(&candidate));
}

#[test]
fn no_self_upgrade() {
    let p = pkg("foo", "1.0");
    assert!(!p.upgradable_to(&p));
    let q = pkg("bar", "weird.version.string");
    assert!(!q.upgradable_to(&q));
}
