use graphql_minify::marker::is_graphql_comment;

#[test]
fn marker_comments_in_any_case_between_stars_and_spaces() {
    assert!(is_graphql_comment(" GraphQL "));
    assert!(is_graphql_comment("* GraphQL "));
    assert!(is_graphql_comment(" graphql "));
    assert!(is_graphql_comment(" *** * gRaPhQl * *** "));
    assert!(is_graphql_comment("GRAPHQL"));
}

#[test]
fn unicode_whitespace_is_trimmed() {
    assert!(is_graphql_comment("\u{a0}graphql\u{3000}"));
    assert!(is_graphql_comment("\n\t graphql\u{2028}"));
}

#[test]
fn other_comments_are_not_markers() {
    assert!(!is_graphql_comment(""));
    assert!(!is_graphql_comment(" ** "));
    assert!(!is_graphql_comment("graph ql"));
    assert!(!is_graphql_comment("graphql!"));
    assert!(!is_graphql_comment("graphqls"));
    assert!(!is_graphql_comment("x graphql"));
    assert!(!is_graphql_comment("gr\u{e4}phql"));
}
