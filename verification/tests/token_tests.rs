use include_sql::scan::is_variant_selector;

#[test]
fn into_token() {
    assert!(is_variant_selector("+"));
    assert!(is_variant_selector("+="));
    assert!(is_variant_selector("&"));
    assert!(is_variant_selector("&&"));
    assert!(is_variant_selector("&="));
    assert!(is_variant_selector("@"));
    assert!(is_variant_selector("!"));
    assert!(is_variant_selector("^"));
    assert!(is_variant_selector("^="));
    assert!(is_variant_selector(":"));
    assert!(is_variant_selector("::"));
    assert!(is_variant_selector(","));
    assert!(is_variant_selector("/"));
    assert!(is_variant_selector("/="));
    assert!(is_variant_selector("$"));
    assert!(is_variant_selector("."));
    assert!(is_variant_selector(".."));
    assert!(is_variant_selector("..."));
    assert!(is_variant_selector("..="));
    assert!(is_variant_selector("="));
    assert!(is_variant_selector("=="));
    assert!(is_variant_selector(">="));
    assert!(is_variant_selector(">"));
    assert!(is_variant_selector("<="));
    assert!(is_variant_selector("<"));
    assert!(is_variant_selector("*="));
    assert!(is_variant_selector("!="));
    assert!(is_variant_selector("|"));
    assert!(is_variant_selector("|="));
    assert!(is_variant_selector("||"));
    assert!(is_variant_selector("#"));
    assert!(is_variant_selector("?"));
    assert!(is_variant_selector("->"));
    assert!(is_variant_selector("<-"));
    assert!(is_variant_selector("%"));
    assert!(is_variant_selector("%="));
    assert!(is_variant_selector("=>"));
    assert!(is_variant_selector(";"));
    assert!(is_variant_selector("<<"));
    assert!(is_variant_selector("<<="));
    assert!(is_variant_selector(">>"));
    assert!(is_variant_selector(">>="));
    assert!(is_variant_selector("*"));
    assert!(is_variant_selector("-"));
    assert!(is_variant_selector("-="));
    assert!(is_variant_selector("~"));
    assert!(is_variant_selector("_"));

    assert!(!is_variant_selector("!>"));
    assert!(!is_variant_selector(":>"));
    assert!(!is_variant_selector("?!"));
    assert!(!is_variant_selector("!?"));
}

#[test]
fn empty_and_long_runs_are_rejected() {
    assert!(!is_variant_selector(""));
    assert!(!is_variant_selector("->>="));
    assert!(!is_variant_selector("x"));
}
