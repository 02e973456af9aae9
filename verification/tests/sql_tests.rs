use include_sql::sql::{parse, Stmt, StmtItem};

#[test]
fn bind_name() {
    let items = Stmt::parse_text(
        "where col1 = :val1 and col2 in ( :val2 ) and col3 = :val3 and ...",
    );
    // first placeholder: a scalar bind named val1
    match &items[1] {
        StmtItem::Bind(name) => assert_eq!(name, "val1"),
        other => panic!("unexpected {:?}", other),
    }
    // second placeholder: the sole content of an IN ( ... ) clause
    match &items[3] {
        StmtItem::List(name) => assert_eq!(name, "val2"),
        other => panic!("unexpected {:?}", other),
    }
    // third placeholder: a scalar bind again
    match &items[5] {
        StmtItem::Bind(name) => assert_eq!(name, "val3"),
        other => panic!("unexpected {:?}", other),
    }
    // and no further placeholder
    assert_eq!(items.len(), 7);
    match &items[6] {
        StmtItem::Text(text) => assert_eq!(text, "and ..."),
        other => panic!("unexpected {:?}", other),
    }
}

#[test]
fn parse_empty_sql_file() {
    let text = "\n  \n  \n";
    let sql = parse(text, "empty_sql_file").unwrap();
    assert!(sql.stmt_list.is_empty());
}

#[test]
fn parse_comments_only_text() {
    let text = "
-- name: commented_out_statement?
-- SELECT *
--   FROM some_table
--  WHERE column_a = :val1
--    AND column_b LIKE :val2;
        ";
    let sql = parse(text, "comments_only_sql").unwrap();
    assert!(sql.stmt_list.is_empty());
}

#[test]
fn parse_empty_stmt() {
    let text = "
-- there is no name
-- not even SQL
-- maybe it's a work in progress
    ;
        ";
    let sql = parse(text, "comments_only_sql").unwrap();
    assert!(sql.stmt_list.is_empty());
}

#[test]
#[should_panic(expected = "statement `SELECT Count(*) FROM some_table WHERE num_column > 0...` must have a name")]
fn parse_unnamed_stmt() {
    let text = "
-- name: select_something?
SELECT something FROM somewhere WHERE col = :val;

SELECT Count(*) FROM some_table WHERE num_column > 0;
        ";
    parse(text, "unnamed_statement").unwrap();
}

#[test]
fn parse_no_variant_stmt() {
    let text = "
-- name: update_something
UPDATE something SET a_thing = :VAL WHERE col = :COL_VAL;
        ";
    let sql = parse(text, "unnamed_statement").unwrap();
    assert_eq!(1, sql.stmt_list.len());
    let stmt = &sql.stmt_list[0];
    assert_eq!(stmt.name, "update_something");
    assert_eq!(stmt.into, "!");
}

#[test]
#[should_panic(expected = "statement `select_something` variant selector `>?` is not a single punctuation token")]
fn parse_bad_variant_stmt() {
    let text = "
-- name: select_something>?
SELECT something FROM somewhere WHERE col = :val;
        ";
    parse(text, "unnamed_statement").unwrap();
}

#[test]
fn parse_named_stmt_with_a_param() {
    let text = "
-- A comment line (not part of the statement)
-- name: count_positives?
-- A doc-comment line
-- # Parameters
-- param: rec_type : &str - record type
-- Final doc-comment line
SELECT Count(*)
       -- line level comments inside the statement are discarded too
  FROM some_table      -- as well as trailing comments
 WHERE num_column > 0
   AND record_type = :rec_type
;
        ";
    let sql = parse(text, "named_stmt_with_a_param").unwrap();
    assert_eq!(1, sql.stmt_list.len());
    let stmt = &sql.stmt_list[0];
    assert_eq!(stmt.name, "count_positives");
    assert_eq!(stmt.into, "?");
    assert_eq!(
        stmt.docs.as_ref().unwrap(),
        " A doc-comment line\n # Parameters\n * `rec_type` - record type\n Final doc-comment line"
    );

    let stmt_items = &stmt.items;
    assert_eq!(2, stmt_items.len());
    let item = &stmt_items[0];
    if let StmtItem::Text(text) = item {
        assert_eq!("SELECT Count(*)\n  FROM some_table\n WHERE num_column > 0\n   AND record_type = ", text)
    } else {
        panic!("expected text item");
    }
    let item = &stmt_items[1];
    if let StmtItem::Bind(name) = item {
        assert_eq!("rec_type", name);
    } else {
        panic!("expected bind item");
    }

    assert_eq!(stmt.params.len(), 1);
    let ty = stmt.params.get("rec_type");
    assert!(ty.is_some());
    let ty = ty.unwrap();
    assert_eq!(ty, "&str");
}

#[test]
#[should_panic(expected = "param `record_type` is not found in `count_positives`")]
fn unknown_parameter() {
    let text = "
-- name: count_positives?
-- # Parameters
-- param: record_type: &str - record type
SELECT Count(*)
  FROM some_table
 WHERE num_column > 0
   AND record_type = :rec_type
;
        ";
    parse(text, "unknown_parameter").unwrap();
}

#[test]
fn parse_multiple_stmts() {
    let text = "
-- comment before a `name:` is a file comment

-- name: count_stuff?
-- param: rec_type: &str - record type
SELECT Count(*)
  FROM some_table
 WHERE record_type = :rec_type
;

-- comment after the terminating semicolon is also a file comment

-- name: find_stuff?
-- param: min_qty: usize - minimum quantity
SELECT *
  FROM some_table
 WHERE some_qty >= :min_qty

-- if the statement is not explicitly terminated with a semicolon
-- this comment will be considered as an inner statement comment
-- and ignored as such too
        ";
    let sql = parse(text, "multiple_stmts").unwrap();
    assert_eq!(2, sql.stmt_list.len());

    let stmt = &sql.stmt_list[0];
    assert_eq!(stmt.name, "count_stuff");
    assert_eq!(stmt.into, "?");
    assert_eq!(stmt.params.len(), 1);
    let param = stmt.params.get("rec_type");
    assert!(param.is_some());
    let ptype = param.unwrap();
    assert_eq!(ptype, "&str");
    assert_eq!(stmt.docs.as_ref().unwrap(), " * `rec_type` - record type");

    let stmt_items = &stmt.items;
    assert_eq!(2, stmt_items.len());

    let item = &stmt_items[0];
    if let StmtItem::Text(text) = item {
        assert_eq!("SELECT Count(*)\n  FROM some_table\n WHERE record_type = ", text)
    } else {
        panic!("expected text item")
    }
    let item = &stmt_items[1];
    if let StmtItem::Bind(name) = item {
        assert_eq!("rec_type", name);
    } else {
        panic!("expected bind item")
    }

    let stmt = &sql.stmt_list[1];
    assert_eq!(stmt.name, "find_stuff");
    assert_eq!(stmt.into, "?");
    assert_eq!(stmt.params.len(), 1);
    let param = stmt.params.get("min_qty");
    assert!(param.is_some());
    let ptype = param.unwrap();
    assert_eq!(ptype, "usize");
    assert_eq!(stmt.docs.as_ref().unwrap(), " * `min_qty` - minimum quantity");

    let stmt_items = &stmt.items;
    assert_eq!(2, stmt_items.len());

    let item = &stmt_items[0];
    if let StmtItem::Text(text) = item {
        assert_eq!("SELECT *\n  FROM some_table\n WHERE some_qty >= ", text)
    } else {
        panic!("expected text item")
    }
    let item = &stmt_items[1];
    if let StmtItem::Bind(name) = item {
        assert_eq!("min_qty", name);
    } else {
        panic!("expected bind item")
    }
}

#[test]
fn unique_binds() {
    let text = "
-- name: unique_binds
INSERT INTO some_table VALUES (:v1, :v2, :v3, :v1, :v3, :v1, :v2, :v4, :v3, :v1);
        ";
    let sql = parse(text, "find_unique_parameter_names").unwrap();
    assert_eq!(1, sql.stmt_list.len());
    let stmt = &sql.stmt_list[0];
    let binds = stmt.unique_binds();
    assert_eq!(binds.len(), 4);
    if let StmtItem::Bind(name) = &binds[0] {
        assert_eq!(name, "v1");
    } else {
        panic!("expected v1");
    }
    if let StmtItem::Bind(name) = &binds[1] {
        assert_eq!(name, "v2");
    } else {
        panic!("expected v2");
    }
    if let StmtItem::Bind(name) = &binds[2] {
        assert_eq!(name, "v3");
    } else {
        panic!("expected v3");
    }
    if let StmtItem::Bind(name) = &binds[3] {
        assert_eq!(name, "v4");
    } else {
        panic!("expected v4");
    }
}

#[test]
fn snake_case_parameter_names() {
    let text = "
--name: snake_case_parameter_names->
INSERT INTO invoice (InvoiceId, CustomerId, InvoiceDate, Total) VALLUES (:InvoiceId, :customerId, :Invoice_Date, :TOTAL);
        ";
    let sql = parse(text, "snake_case_parameter_names").unwrap();
    assert_eq!(sql.stmt_list.len(), 1);
    assert_eq!(sql.stmt_list[0].into, "->");
    let stmt_items = &sql.stmt_list[0].items;
    assert_eq!(stmt_items.len(), 9);

    match &stmt_items[1] {
        StmtItem::Bind(name) => {
            assert_eq!(name, "invoice_id");
        }
        _ => {
            panic!("unexpected {:?}", &stmt_items[1]);
        }
    }
    match &stmt_items[3] {
        StmtItem::Bind(name) => {
            assert_eq!(name, "customer_id");
        }
        _ => {
            panic!("unexpected {:?}", &stmt_items[1]);
        }
    }
    match &stmt_items[5] {
        StmtItem::Bind(name) => {
            assert_eq!(name, "invoice_date");
        }
        _ => {
            panic!("unexpected {:?}", &stmt_items[1]);
        }
    }
    match &stmt_items[7] {
        StmtItem::Bind(name) => {
            assert_eq!(name, "total");
        }
        _ => {
            panic!("unexpected {:?}", &stmt_items[1]);
        }
    }
}

#[test]
fn list_vs_scalar_classification() {
    // the same name is classified at each occurrence independently
    let items = Stmt::parse_text("where a in ( :ids ) and b = :ids");
    match &items[1] {
        StmtItem::List(name) => assert_eq!(name, "ids"),
        other => panic!("unexpected {:?}", other),
    }
    match &items[3] {
        StmtItem::Bind(name) => assert_eq!(name, "ids"),
        other => panic!("unexpected {:?}", other),
    }
    // mixed content inside IN ( ... ) falls back to scalar binds
    let items = Stmt::parse_text("where a in ( :x, :y )");
    match &items[1] {
        StmtItem::Bind(name) => assert_eq!(name, "x"),
        other => panic!("unexpected {:?}", other),
    }
    match &items[3] {
        StmtItem::Bind(name) => assert_eq!(name, "y"),
        other => panic!("unexpected {:?}", other),
    }
}

#[test]
fn missing_terminator_at_eof() {
    // a single statement with no trailing terminator is still captured,
    // with the pending name, variant and parameters
    let text = "
-- name: last_one?
-- param: qty: usize - quantity
SELECT * FROM t WHERE q = :qty";
    let sql = parse(text, "no_terminator").unwrap();
    assert_eq!(sql.stmt_list.len(), 1);
    let stmt = &sql.stmt_list[0];
    assert_eq!(stmt.name, "last_one");
    assert_eq!(stmt.into, "?");
    assert_eq!(stmt.params.len(), 1);
    assert_eq!(stmt.params.get("qty").unwrap(), "usize");
}

#[test]
fn end_to_end_scenario() {
    let text = "-- name: get_loaned_books?
-- param: user_id: &str - user ID
SELECT book_title FROM library WHERE loaned_to = :user_id ORDER BY 1";
    let sql = parse(text, "library").unwrap();
    assert_eq!(sql.stmt_list.len(), 1);
    let stmt = &sql.stmt_list[0];
    assert_eq!(stmt.name, "get_loaned_books");
    assert_eq!(stmt.into, "?");
    assert_eq!(stmt.params.len(), 1);
    assert_eq!(stmt.params.get("user_id").unwrap(), "&str");
    assert_eq!(stmt.items.len(), 3);
    match &stmt.items[0] {
        StmtItem::Text(t) => assert_eq!(t, "SELECT book_title FROM library WHERE loaned_to = "),
        other => panic!("unexpected {:?}", other),
    }
    match &stmt.items[1] {
        StmtItem::Bind(n) => assert_eq!(n, "user_id"),
        other => panic!("unexpected {:?}", other),
    }
    match &stmt.items[2] {
        StmtItem::Text(t) => assert_eq!(t, "ORDER BY 1"),
        other => panic!("unexpected {:?}", other),
    }
}

#[test]
fn in_list_and_mixed_repeats() {
    let text = "
-- name: select_objects_by_type?
select object_name, object_type from user_objects where object_type in ( :object_types ) and generated = :generated or object_type in ( :object_types ) and temporary = :temporary
";
    let sql = parse(text, "objects").unwrap();
    let stmt = &sql.stmt_list[0];
    let binds = stmt.unique_binds();
    assert_eq!(binds.len(), 3);
    match &binds[0] {
        StmtItem::List(n) => assert_eq!(n, "object_types"),
        other => panic!("unexpected {:?}", other),
    }
    match &binds[1] {
        StmtItem::Bind(n) => assert_eq!(n, "generated"),
        other => panic!("unexpected {:?}", other),
    }
    match &binds[2] {
        StmtItem::Bind(n) => assert_eq!(n, "temporary"),
        other => panic!("unexpected {:?}", other),
    }
    // both occurrences inside IN ( ... ) classify as List
    let lists = stmt
        .items
        .iter()
        .filter(|it| matches!(it, StmtItem::List(_)))
        .count();
    assert_eq!(lists, 2);
}

#[test]
fn validation_failure_names_the_parameter() {
    let text = "
-- name: count_positives?
-- param: record_type: &str - record type
SELECT Count(*) FROM some_table WHERE record_type = :rec_type;
";
    let err = parse(text, "bad").unwrap_err();
    assert_eq!(
        err.message(),
        "param `record_type` is not found in `count_positives`"
    );
}

#[test]
fn bad_variant_message_is_exact() {
    let text = "
-- name: select_something>?
SELECT 1;
";
    let err = parse(text, "bad").unwrap_err();
    assert_eq!(
        err.message(),
        "statement `select_something` variant selector `>?` is not a single punctuation token"
    );
}

#[test]
fn is_bind_matches_names() {
    let b = StmtItem::Bind("user_id".to_string());
    let l = StmtItem::List("ids".to_string());
    let t = StmtItem::Text("select".to_string());
    assert!(b.is_bind("user_id"));
    assert!(!b.is_bind("other"));
    assert!(l.is_bind("ids"));
    assert!(!t.is_bind("select"));
}

#[test]
fn first_unnamed_statement_takes_base_name() {
    // a document whose very first statement is never named parses
    // successfully under the document's base name
    let sql = parse("select * from dual", "dual_doc").unwrap();
    assert_eq!(sql.stmt_list.len(), 1);
    assert_eq!(sql.stmt_list[0].name, "dual_doc");
    assert_eq!(sql.stmt_list[0].into, "!");
    match &sql.stmt_list[0].items[0] {
        StmtItem::Text(t) => assert_eq!(t, "select * from dual"),
        other => panic!("unexpected {:?}", other),
    }
}

#[test]
fn base_name_falls_back_only_for_the_first_statement() {
    // the fallback covers the very first statement; a later nameless
    // statement is still a malformed-statement error
    let text = "select 1;\n\nselect 2;\n";
    let err = parse(text, "doc").unwrap_err();
    assert_eq!(err.message(), "statement `select 2...` must have a name");
}
