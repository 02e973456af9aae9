use include_sql::helper::{push, usize_to_string};
use include_sql::positional::{into_sql_with_args, parse_sql, to_camel_case};

/// Removes consecutive whitespaces for easy comparison
fn collapce_whitespace(text: &str) -> String {
    let mut acc = String::with_capacity(text.len());
    let mut iter = text.split_whitespace();
    if let Some(fragment) = iter.next() {
        acc.push_str(fragment);
        for fragment in iter {
            acc.push(' ');
            acc.push_str(fragment);
        }
    }
    acc
}

#[test]
fn one_unnamed_statement_per_file() {
    let text = "select *\n  from dual\n";
    let stmts = parse_sql("one_unnamed_stmt", text, ":");
    assert_eq!(stmts.len(), 1);
    assert_eq!(stmts[0].const_name, "ONE_UNNAMED_STMT");
    assert_eq!("select * from dual", collapce_whitespace(&stmts[0].text));
}

#[test]
fn multiple_named_statements_per_file() {
    let text = "-- name: dual_output
select * from dual

-- name: user_tables_count
select count(*)
  from user_tables
";
    let stmts = parse_sql("named_statements", text, ":");
    assert_eq!(stmts.len(), 2);
    assert_eq!(stmts[0].const_name, "DUAL_OUTPUT");
    assert_eq!("select * from dual", collapce_whitespace(&stmts[0].text));
    assert_eq!(stmts[1].const_name, "USER_TABLES_COUNT");
    assert_eq!(
        "select count(*) from user_tables",
        collapce_whitespace(&stmts[1].text)
    );
}

#[test]
fn include_with_default_unnamed_statement() {
    let text = "select * from dual

-- name: count_tables
select count(*)
  from user_tables
";
    let stmts = parse_sql("default_stmt", text, ":");
    assert_eq!(stmts.len(), 2);
    assert_eq!(stmts[0].const_name, "DEFAULT_STMT");
    assert_eq!("select * from dual", collapce_whitespace(&stmts[0].text));
    assert_eq!(stmts[1].const_name, "COUNT_TABLES");
    assert_eq!(
        "select count(*) from user_tables",
        collapce_whitespace(&stmts[1].text)
    );
}

#[test]
fn statement_with_parameters() {
    let text = "-- name: select_invalid_objects
select object_name
  from user_objects
 where object_type = :object_type
   and status = 'INVALID'
";
    let stmts = parse_sql("stmt_with_params", text, ":");
    assert_eq!(stmts.len(), 1);
    assert_eq!(
        "select object_name from user_objects where object_type = :1 and status = 'INVALID'",
        collapce_whitespace(&stmts[0].text)
    );
    let params = stmts[0].params.as_ref().expect("statement parameters");
    assert_eq!(params.struct_name, "SelectInvalidObjects");
    assert_eq!(params.pos_params, ["object_type"]);
    assert!(params.lst_params.is_empty());

    // the argument struct binds its single value as the first argument
    let args: Vec<&str> = vec!["FUNCTION"];
    let sql_args = args.into_iter().next();
    assert!(sql_args.is_some());
    if let Some(test_arg) = sql_args {
        assert_eq!("FUNCTION", test_arg);
    }
}

#[test]
fn statement_with_in_parameters() {
    let text = "-- name: select_objects_by_type
select object_name, object_type
  from user_objects
 where object_type in ( :object_types ) and generated = :generated
    or object_type in ( :object_types ) and temporary = :temporary
";
    let stmts = parse_sql("stmt_with_in_params", text, ":");
    assert_eq!(stmts.len(), 1);
    assert_eq!(
        "select object_name, object_type from user_objects where object_type in ( ) and generated = :1 or object_type in ( ) and temporary = :2",
        collapce_whitespace(&stmts[0].text)
    );

    let params = stmts[0].params.as_ref().expect("statement parameters");
    assert_eq!(params.struct_name, "SelectObjectsByType");
    assert_eq!(params.pos_params, ["generated", "temporary"]);
    assert_eq!(params.lst_params.len(), 2);
    assert_eq!(params.lst_params[0].name, "object_types");
    assert_eq!(params.lst_params[1].name, "object_types");

    let object_types: Vec<&str> = vec!["FUNCTION", "TRIGGER"];
    let (sql, args) = into_sql_with_args::<str>(
        &stmts[0].text,
        &params.lst_params,
        ":",
        vec!["N", "N"],
        &vec![object_types],
    );
    assert_eq!(
        "select object_name, object_type from user_objects where object_type in ( :3,:4 ) and generated = :1 or object_type in ( :3,:4 ) and temporary = :2",
        collapce_whitespace(&sql)
    );
    assert_eq!(4, args.len());
    assert_eq!("N", args[0]);
    assert_eq!("N", args[1]);
    assert_eq!("FUNCTION", args[2]);
    assert_eq!("TRIGGER", args[3]);
}

#[test]
fn push_appends_numbered_placeholders() {
    let mut sql = String::from("in ( ");
    let mut args: Vec<&str> = vec!["N", "N"];
    push(&["FUNCTION", "TRIGGER"], ":", &mut sql, &mut args);
    sql.push_str(" )");
    assert_eq!(sql, "in ( :3,:4 )");
    assert_eq!(args, ["N", "N", "FUNCTION", "TRIGGER"]);

    let mut sql2 = String::new();
    let mut args2: Vec<&str> = Vec::new();
    push(&["a"], "$", &mut sql2, &mut args2);
    assert_eq!(sql2, "$1");
    assert_eq!(args2, ["a"]);

    // an empty list adds nothing
    let mut sql3 = String::new();
    let mut args3: Vec<&str> = Vec::new();
    push(&[], ":", &mut sql3, &mut args3);
    assert_eq!(sql3, "");
    assert!(args3.is_empty());
}

#[test]
fn decimal_rendering_is_exact() {
    assert_eq!(usize_to_string(0), "0");
    assert_eq!(usize_to_string(7), "7");
    assert_eq!(usize_to_string(10), "10");
    assert_eq!(usize_to_string(105), "105");
    assert_eq!(usize_to_string(98765), "98765");
}

#[test]
fn positional_camel_case_lowers_tails() {
    assert_eq!(to_camel_case("select_objects_by_type"), "SelectObjectsByType");
    assert_eq!(to_camel_case("COUNT_ROWS"), "CountRows");
    assert_eq!(to_camel_case(""), "");
}
