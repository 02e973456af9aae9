use include_sql::err;
use include_sql::params::Params;

#[test]
fn params_insert_and_get() {
    let mut p = Params::new();
    assert_eq!(p.len(), 0);
    assert!(p.get("user_id").is_none());
    p.insert("user_id".to_string(), "&str".to_string());
    p.insert("qty".to_string(), "usize".to_string());
    assert_eq!(p.len(), 2);
    assert_eq!(p.get("user_id").unwrap(), "&str");
    assert_eq!(p.get("qty").unwrap(), "usize");
    assert!(p.get("other").is_none());
}

#[test]
fn later_declaration_overwrites_earlier() {
    let mut p = Params::new();
    p.insert("user_id".to_string(), "&str".to_string());
    p.insert("qty".to_string(), "usize".to_string());
    p.insert("user_id".to_string(), "u64".to_string());
    // the value changes in place; declaration order and count are kept
    assert_eq!(p.len(), 2);
    assert_eq!(p.get("user_id").unwrap(), "u64");
    assert_eq!(p.key_at(0), "user_id");
    assert_eq!(p.key_at(1), "qty");
    assert_eq!(p.type_at(0), "u64");
}

#[test]
fn error_carries_its_message() {
    let e = err::new("something went wrong".to_string());
    assert_eq!(e.message(), "something went wrong");
}
