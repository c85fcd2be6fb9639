use agentik::tools::{
    is_truncated, quote_ident, AetherCreateTableInput, IcebergPreviewTableInput, IcebergPreviewTableTool,
};

fn input(
    namespace: &str,
    table: &str,
    columns: Option<Vec<&str>>,
    where_clause: Option<&str>,
    limit: Option<usize>,
) -> IcebergPreviewTableInput {
    IcebergPreviewTableInput {
        namespace: namespace.to_string(),
        table: table.to_string(),
        columns: columns.map(|c| c.into_iter().map(String::from).collect()),
        where_clause: where_clause.map(String::from),
        limit,
    }
}

#[test]
fn identifiers_are_quoted() {
    assert_eq!(quote_ident("events"), "\"events\"");
    assert_eq!(quote_ident("we\"ird"), "\"we\"\"ird\"");
    assert_eq!(quote_ident(""), "\"\"");
}

#[test]
fn preview_of_all_columns() {
    let q = IcebergPreviewTableTool.preview_query(&input(" analytics ", "events", None, None, None)).unwrap();
    assert_eq!(q.sql, "SELECT * FROM \"iceberg\".\"analytics\".\"events\" LIMIT 100");
    assert_eq!(q.limit, 100);
}

#[test]
fn preview_with_columns_filter_and_limit() {
    let q = IcebergPreviewTableTool
        .preview_query(&input("a", "t", Some(vec![" id ", "name"]), Some("  x > 1 "), Some(5)))
        .unwrap();
    assert_eq!(q.sql, "SELECT \"id\", \"name\" FROM \"iceberg\".\"a\".\"t\" WHERE x > 1 LIMIT 5");
    assert_eq!(q.limit, 5);
    // An empty column list and a blank condition fall back to `*` and no filter.
    let q = IcebergPreviewTableTool.preview_query(&input("a", "t", Some(vec![]), Some("  "), Some(0))).unwrap();
    assert_eq!(q.sql, "SELECT * FROM \"iceberg\".\"a\".\"t\" LIMIT 0");
}

#[test]
fn preview_needs_namespace_and_table() {
    let e = IcebergPreviewTableTool.preview_query(&input("  ", "t", None, None, None)).err().unwrap();
    assert_eq!(e, "both 'namespace' and 'table' are required");
    assert!(IcebergPreviewTableTool.preview_query(&input("a", "", None, None, None)).is_err());
}

#[test]
fn truncation_flag() {
    assert!(is_truncated(100, 100));
    assert!(!is_truncated(99, 100));
}

fn create_input(location: Option<&str>, if_not_exists: Option<bool>) -> AetherCreateTableInput {
    AetherCreateTableInput {
        namespace: "w.a".to_string(),
        table: "t".to_string(),
        columns: vec!["id:long!".to_string()],
        location: location.map(String::from),
        if_not_exists,
    }
}

#[test]
fn create_table_options() {
    assert_eq!(create_input(Some("  s3://b/t "), None).creation_location().as_deref(), Some("s3://b/t"));
    assert_eq!(create_input(Some("   "), None).creation_location(), None);
    assert_eq!(create_input(None, None).creation_location(), None);
    assert!(create_input(None, Some(true)).loads_existing());
    assert!(!create_input(None, Some(false)).loads_existing());
    assert!(!create_input(None, None).loads_existing());
}

#[test]
fn preview_names_one_table_with_quoted_columns() {
    let q = IcebergPreviewTableTool
        .preview_query(&input("analytics", "events", Some(vec!["id", "a\"b"]), Some(" x > 1 "), None))
        .unwrap();
    assert_eq!(
        q.sql,
        "SELECT \"id\", \"a\"\"b\" FROM \"iceberg\".\"analytics\".\"events\" WHERE x > 1 LIMIT 100"
    );
    assert_eq!(q.limit, 100);
    assert!(is_truncated(100, q.limit));
    assert!(!is_truncated(99, q.limit));
}
