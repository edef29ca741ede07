use quickfox_core::file_query::FileQuery;

#[test]
fn parses_ordinary_terms() {
    let query = FileQuery::parse("report budget");

    assert_eq!(query.ordinary_terms, vec!["report", "budget"]);
    assert!(query.type_filters.is_empty());
    assert!(query.name_filters.is_empty());
    assert!(query.dir_filters.is_empty());
    assert!(query.content_queries.is_empty());
    assert!(!query.has_content_query());
}

#[test]
fn parses_field_filters() {
    assert_eq!(FileQuery::parse("type:pdf").type_filters, vec!["pdf"]);
    assert_eq!(FileQuery::parse("type:.PDF").type_filters, vec!["pdf"]);
    assert_eq!(FileQuery::parse("name:test").name_filters, vec!["test"]);
    assert_eq!(
        FileQuery::parse("dir:workspace").dir_filters,
        vec!["workspace"]
    );
    assert_eq!(
        FileQuery::parse("dir:**/workspace").dir_filters,
        vec!["**/workspace"]
    );
}

#[test]
fn parses_field_values_after_space_following_colon() {
    let query = FileQuery::parse("Agent type: md");

    assert_eq!(query.ordinary_terms, vec!["Agent"]);
    assert_eq!(query.type_filters, vec!["md"]);
}

#[test]
fn parses_quoted_field_values_and_windows_paths() {
    let query = FileQuery::parse(r#"name:"project report" dir:"D:\My Projects""#);

    assert_eq!(query.name_filters, vec!["project report"]);
    assert_eq!(query.dir_filters, vec![r#"D:\My Projects"#]);
    assert!(query.ordinary_terms.is_empty());
}

#[test]
fn parses_content_without_treating_it_as_ordinary_text() {
    let query = FileQuery::parse(r#"workspace type:md content:"hello world""#);

    assert_eq!(query.ordinary_terms, vec!["workspace"]);
    assert_eq!(query.type_filters, vec!["md"]);
    assert_eq!(query.content_queries, vec!["hello world"]);
    assert!(query.has_content_query());
}

#[test]
fn parses_content_with_smart_quotes() {
    let query = FileQuery::parse("name:Agent content:”openspec”");

    assert_eq!(query.name_filters, vec!["Agent"]);
    assert_eq!(query.content_queries, vec!["openspec"]);
    assert!(query.ordinary_terms.is_empty());
}

#[test]
fn unknown_fields_and_dangling_fields_stay_ordinary_terms() {
    let query = FileQuery::parse("size:10 Type:");

    assert_eq!(query.ordinary_terms, vec!["size:10", "Type:"]);
    assert!(query.type_filters.is_empty());
}

#[test]
fn field_names_ignore_ascii_case_and_quotes_are_trimmed() {
    let query = FileQuery::parse("NAME:\"x\" DIR: \"a b\" \"\"");

    assert_eq!(query.name_filters, vec!["x"]);
    assert_eq!(query.dir_filters, vec!["a b"]);
    assert!(query.ordinary_terms.is_empty());
    assert!(query.has_name_path_constraints());
}

#[test]
fn empty_query_has_no_constraints() {
    let query = FileQuery::parse("   \t ");

    assert!(!query.has_name_path_constraints());
    assert!(!query.has_content_query());
    assert!(query.ordinary_terms.is_empty());
}

#[test]
fn repeated_white_space_separates_once() {
    let query = FileQuery::parse("  a   b\t\tc  ");

    assert_eq!(query.ordinary_terms, vec!["a", "b", "c"]);
}
