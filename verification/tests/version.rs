//! The version a build calls itself by.

use lotus::version::{bump_patch, identity, to_semver, Identity};

fn bumped(text: &str) -> Option<String> {
    let chars: Vec<char> = text.chars().collect();
    bump_patch(&chars).map(|next| next.into_iter().collect())
}

#[test]
fn a_described_tag_becomes_a_version() {
    for (described, version) in [
        ("v1.2.3", "1.2.3"),
        ("v1.2.3-5-g86ce5c3a", "1.2.4-dev.5.g86ce5c3a"),
        ("v1.2.3-rc1-5-gabc123", "1.2.3-rc1.dev.5.gabc123"),
        // A tag of another shape still gets a suffix of its own.
        ("v1.2-5-gabc123", "1.2-dev.5.gabc123"),
        // What is no suffix of the kind passes through.
        ("v1.2.3-rc1", "1.2.3-rc1"),
        ("v1.2.3-5-gxyz", "1.2.3-5-gxyz"),
        ("v1.2.3-5-g", "1.2.3-5-g"),
        ("v1.2.3-x-gabc", "1.2.3-x-gabc"),
        ("1.2.3", "1.2.3"),
        // No count at all is a count of none.
        ("v1.2.3--gabc", "1.2.4-dev..gabc"),
    ] {
        assert_eq!(to_semver(described, false), version, "{described}");
        assert_eq!(
            to_semver(described, true),
            format!("{version}+dirty"),
            "{described}"
        );
    }
}

#[test]
fn only_three_numbers_are_bumped() {
    assert_eq!(bumped("1.2.3"), Some("1.2.4".to_string()));
    assert_eq!(bumped("1.2.9"), Some("1.2.10".to_string()));
    assert_eq!(bumped("01.02.03"), Some("01.02.4".to_string()));
    assert_eq!(
        bumped("0.0.18446744073709551614"),
        Some("0.0.18446744073709551615".to_string())
    );
    for other in ["1.2", "1.2.3.4", "1..3", "a.2.3", "1.2.x", "", "1.2.18446744073709551616"] {
        assert_eq!(bumped(other), None, "{other}");
    }
}

#[test]
fn an_untagged_build_is_known_by_its_commit() {
    let named = |version: &str, long: &str| Identity {
        version: version.to_string(),
        long_version: long.to_string(),
    };
    assert_eq!(
        identity(None, "0.1.0", Some("86ce5c3a"), Some(false)),
        named("0.1.0", "0.1.0 (86ce5c3a)")
    );
    assert_eq!(
        identity(None, "0.1.0", Some("86ce5c3a"), Some(true)),
        named("0.1.0", "0.1.0 (dirty 86ce5c3a)")
    );
    assert_eq!(identity(None, "0.1.0", None, Some(true)), named("0.1.0", "0.1.0"));
    assert_eq!(
        identity(None, "0.1.0", Some("86ce5c3a"), None),
        named("0.1.0", "0.1.0")
    );
    assert_eq!(
        identity(Some("v1.2.3-5-gabc"), "0.1.0", Some("abc"), Some(true)),
        named("1.2.4-dev.5.gabc+dirty", "1.2.4-dev.5.gabc+dirty")
    );
    assert_eq!(
        identity(Some("v1.2.3"), "0.1.0", None, None),
        named("1.2.3", "1.2.3")
    );
}
