#[test]
fn to_camel_case() {
    assert_eq!(include_sql::conv::to_camel_case(""), "");
    assert_eq!(include_sql::conv::to_camel_case("snake_case_name"), "SnakeCaseName");
    assert_eq!(include_sql::conv::to_camel_case("AlreadyCamelCase"), "AlreadyCamelCase");
    assert_eq!(include_sql::conv::to_camel_case("partialCamelCase"), "PartialCamelCase");
    assert_eq!(include_sql::conv::to_camel_case("mixedCase001_of_a_name_WithATail"), "MixedCase001OfANameWithATail");
}

#[test]
fn to_snake_case() {
    assert_eq!(include_sql::conv::to_snake_case(""), "");
    assert_eq!(include_sql::conv::to_snake_case("already_snake_case_name"), "already_snake_case_name");
    assert_eq!(include_sql::conv::to_snake_case("__snake_with_prefix"), "snake_with_prefix");
    assert_eq!(include_sql::conv::to_snake_case("TypicalCamelCaseName"), "typical_camel_case_name");
    assert_eq!(include_sql::conv::to_snake_case("mixed52Case_002_WithATail"), "mixed52_case_002_with_a_tail");
    assert_eq!(include_sql::conv::to_snake_case("UPPER_CASE_SNAKE"), "upper_case_snake");
    assert_eq!(include_sql::conv::to_snake_case("snake2_snake2_case"), "snake2_snake2_case");
    assert_eq!(include_sql::conv::to_snake_case("getHTTPResponseCode"), "get_http_response_code");
    assert_eq!(include_sql::conv::to_snake_case("HTTPResponseCodeXYZ"), "http_response_code_xyz");
    assert_eq!(
        include_sql::conv::to_snake_case("___NameWithLeadingAndTrailingUnderscores___"),
        "name_with_leading_and_trailing_underscores"
    );
}

#[test]
fn snake_case_is_idempotent_on_samples() {
    let samples = [
        "",
        "TypicalCamelCaseName",
        "getHTTPResponseCode",
        "mixed52Case_002_WithATail",
        "___NameWithLeadingAndTrailingUnderscores___",
        "a__b",
        "_",
        "X",
    ];
    for s in samples {
        let once = include_sql::conv::to_snake_case(s);
        let twice = include_sql::conv::to_snake_case(&once);
        assert_eq!(once, twice);
    }
}

#[test]
fn camel_case_keeps_already_camel_input() {
    for s in ["", "AlreadyCamelCase", "X", "Mixed52Tail"] {
        assert_eq!(include_sql::conv::to_camel_case(s), s);
    }
}

#[test]
fn snake_case_collapses_interior_separators() {
    assert_eq!(include_sql::conv::to_snake_case("a__b"), "a_b");
    assert_eq!(include_sql::conv::to_snake_case("a___b_c"), "a_b_c");
}
