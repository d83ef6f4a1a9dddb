use updater_core::norm::normalize_rel;

fn norm(s: &str) -> String {
    let v = normalize_rel(&s.as_bytes().to_vec());
    String::from_utf8(v).unwrap()
}

#[test]
fn normalize_strips_dot_slash_and_trailing_slash() {
    assert_eq!(norm("./a/b/"), "a/b");
}

#[test]
fn normalize_replaces_backslashes() {
    assert_eq!(norm("a\\b"), "a/b");
}

#[test]
fn normalize_blank_is_empty() {
    assert_eq!(norm("   "), "");
}

#[test]
fn normalize_trims_whitespace() {
    assert_eq!(norm("  a/b  "), "a/b");
    assert_eq!(norm("\tx\n"), "x");
}

#[test]
fn normalize_keeps_single_slash() {
    assert_eq!(norm("/"), "/");
    assert_eq!(norm("."), ".");
}

#[test]
fn normalize_backslash_variants() {
    assert_eq!(norm(".\\a\\b\\"), "a/b");
    assert_eq!(norm("a\\"), "a");
}

#[test]
fn normalize_idempotent_on_samples() {
    for s in [
        "./a/b/",
        "a\\b",
        "   ",
        "a/b",
        "plugin.dll",
        "data/saves",
        "/",
        ".",
        "  x\\y/  ",
    ] {
        let once = norm(s);
        let twice = norm(&once);
        assert_eq!(twice, once);
    }
}

#[test]
fn normalize_empty_input() {
    assert_eq!(norm(""), "");
}

#[test]
fn normalize_strips_one_leading_dot_slash_per_pass() {
    // exactly one leading `./` and one trailing `/` go per pass, so a
    // doubled prefix needs a second pass
    assert_eq!(norm("././a"), "./a");
    assert_eq!(norm("./a"), "a");
    assert_eq!(norm("a//"), "a/");
    assert_eq!(norm("a/"), "a");
}
