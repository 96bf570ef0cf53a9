use graphql_minify::lexer::{have_newline, have_newline_naive, next_token, skip_trivia, LexingError, Token};
use graphql_minify::{is_non_punctuator, needs_space, needs_space_after_token, needs_space_before_token};
use graphql_minify::{MinifyAllocator, MinifyError};

fn minify(value: &str) -> Result<String, MinifyError> {
    graphql_minify::minify(value, &mut MinifyAllocator::default())
}

#[test]
fn strips_ignored_characters_from_graphql_query_document() {
    let query = "query SomeQuery($foo: String!, $bar: String) {\n  someField(foo: $foo, bar: $bar) {\n    a\n    b {\n      c\n      d\n    }\n  }\n}\n";

    let expected =
        "query SomeQuery($foo:String!$bar:String){someField(foo:$foo bar:$bar){a b{c d}}}";

    assert_eq!(minify(query).unwrap(), expected);
}

#[test]
fn strips_ignored_characters_from_graphql_schema_document() {
    let schema = "\"\"\"\nType description\n\"\"\"\ntype Foo {\n  \"\"\"\n  Field description\n  \"\"\"\n  bar: String\n}\n";

    let expected = r#""""Type description""" type Foo{"""Field description""" bar:String}"#;

    assert_eq!(minify(schema).unwrap(), expected);
}

#[test]
fn errs_on_invalid_token() {
    let query = "{ foo(arg: \"\n\"";

    assert!(matches!(
        minify(query),
        Err(MinifyError::UnterminatedString(_))
    ));
}

#[test]
fn strips_non_parsable_document() {
    let query = r#"{ foo(arg: "str""#;
    let expected = r#"{foo(arg:"str""#;

    assert_eq!(minify(query).unwrap(), expected);
}

#[test]
fn strips_documents_with_only_ignored_characters() {
    assert_eq!(minify("\n").unwrap(), "");
    assert_eq!(minify(",").unwrap(), "");
    assert_eq!(minify(",,").unwrap(), "");
    assert_eq!(minify("#comment\n, \n").unwrap(), "");
}

#[test]
fn strips_leading_and_trailing_ignored_tokens() {
    assert_eq!(minify("\n1").unwrap(), "1");
    assert_eq!(minify(",1").unwrap(), "1");
    assert_eq!(minify(",,1").unwrap(), "1");
    assert_eq!(minify("#comment\n, \n1").unwrap(), "1");

    assert_eq!(minify("1\n").unwrap(), "1");
    assert_eq!(minify("1,").unwrap(), "1");
    assert_eq!(minify("1,,").unwrap(), "1");
    assert_eq!(minify("1#comment\n, \n").unwrap(), "1");
}

#[test]
fn strips_ignored_tokens_between_punctuator_tokens() {
    assert_eq!(minify("[,)").unwrap(), "[)");
    assert_eq!(minify("[\r)").unwrap(), "[)");
    assert_eq!(minify("[\r\r)").unwrap(), "[)");
    assert_eq!(minify("[\r,)").unwrap(), "[)");
    assert_eq!(minify("[,\n)").unwrap(), "[)");
}

#[test]
fn strips_ignored_tokens_between_punctuator_and_non_punctuator_tokens() {
    assert_eq!(minify("[,1").unwrap(), "[1");
    assert_eq!(minify("[\r1").unwrap(), "[1");
    assert_eq!(minify("[\r\r1").unwrap(), "[1");
    assert_eq!(minify("[\r,1").unwrap(), "[1");
    assert_eq!(minify("[,\n1").unwrap(), "[1");
}

#[test]
fn replace_ignored_tokens_between_non_punctuator_tokens_and_spread_with_space() {
    assert_eq!(minify("a ...").unwrap(), "a...");
    assert_eq!(minify("1 ...").unwrap(), "1...");
    assert_eq!(minify("1 ... ...").unwrap(), "1......");
}

#[test]
fn replace_ignored_tokens_between_non_punctuator_tokens_with_space() {
    assert_eq!(minify("1 2").unwrap(), "1 2");
    assert_eq!(minify("\"\" \"\"").unwrap(), "\"\" \"\"");
    assert_eq!(minify("a b").unwrap(), "a b");

    assert_eq!(minify("a,1").unwrap(), "a 1");
    assert_eq!(minify("a,,1").unwrap(), "a 1");
    assert_eq!(minify("a  1").unwrap(), "a 1");
    assert_eq!(minify("a \t 1").unwrap(), "a 1");
}

#[test]
fn does_not_strip_ignored_tokens_embedded_in_the_string() {
    assert_eq!(minify("\" \"").unwrap(), "\" \"");
    assert_eq!(minify("\",\"").unwrap(), "\",\"");
    assert_eq!(minify("\",,\"").unwrap(), "\",,\"");
    assert_eq!(minify("\",|\"").unwrap(), "\",|\"");
}

#[test]
fn does_not_strip_ignored_tokens_embedded_in_the_block_string() {
    assert_eq!(minify("\"\"\",\"\"\"").unwrap(), "\"\"\",\"\"\"");
    assert_eq!(minify("\"\"\",,\"\"\"").unwrap(), "\"\"\",,\"\"\"");
    assert_eq!(minify("\"\"\",|\"\"\"").unwrap(), "\"\"\",|\"\"\"");
}

#[test]
fn strips_ignored_characters_inside_block_strings() {
    assert_eq!(minify(r#""""""""#).unwrap(), r#""""""""#);
    assert_eq!(minify(r#"""" """"#).unwrap(), r#""""""""#);

    assert_eq!(minify(r#""""a""""#).unwrap(), r#""""a""""#);
    assert_eq!(minify(r#"""" a""""#).unwrap(), r#"""" a""""#);
    assert_eq!(minify(r#"""" a """"#).unwrap(), r#"""" a """"#);

    assert_eq!(minify("\"\"\"\n\"\"\"").unwrap(), r#""""""""#);
    assert_eq!(minify("\"\"\"a\nb\"\"\"").unwrap(), "\"\"\"a\nb\"\"\"");
    assert_eq!(minify("\"\"\"a\rb\"\"\"").unwrap(), "\"\"\"a\nb\"\"\"");
    assert_eq!(minify("\"\"\"a\r\nb\"\"\"").unwrap(), "\"\"\"a\nb\"\"\"");
    assert_eq!(
        minify("\"\"\"a\r\n\nb\"\"\"").unwrap(),
        "\"\"\"a\n\nb\"\"\""
    );

    assert_eq!(minify("\"\"\"\\\n\"\"\"").unwrap(), "\"\"\"\\\n\"\"\"");
    assert_eq!(minify("\"\"\"\"\n\"\"\"").unwrap(), "\"\"\"\"\n\"\"\"");
    assert_eq!(
        minify("\"\"\"\\\"\"\"\n\"\"\"").unwrap(),
        "\"\"\"\\\"\"\"\"\"\""
    );

    assert_eq!(
        minify("\"\"\"\na\n b\"\"\"").unwrap(),
        "\"\"\"\na\n b\"\"\""
    );
    assert_eq!(minify("\"\"\"\n a\n b\"\"\"").unwrap(), "\"\"\"a\nb\"\"\"");
    assert_eq!(
        minify("\"\"\"\na\n b\nc\"\"\"").unwrap(),
        "\"\"\"a\n b\nc\"\"\""
    );
}

#[test]
fn ignored_only_documents_become_empty() {
    assert_eq!(minify("").unwrap(), "");
    assert_eq!(minify("  \t,\r\n# a comment with { tokens }\n#another").unwrap(), "");
}

#[test]
fn punctuators_take_no_space() {
    assert_eq!(minify("a : b").unwrap(), "a:b");
    assert_eq!(minify("{ a } [ b ] ( c )").unwrap(), "{a}[b](c)");
    assert_eq!(minify("x = 1 | y & z ! ?").unwrap(), "x=1|y&z!?");
    assert_eq!(minify("$x : Int = 1").unwrap(), "$x:Int=1");
}

#[test]
fn variables_and_directives_keep_space_before_identifiers_and_block_strings() {
    assert_eq!(minify("$x Foo").unwrap(), "$x Foo");
    assert_eq!(minify("@dir Foo").unwrap(), "@dir Foo");
    assert_eq!(minify("@dir \"\"\"x\"\"\"").unwrap(), "@dir \"\"\"x\"\"\"");
    assert_eq!(minify("$x 1").unwrap(), "$x1");
    assert_eq!(minify("@x \"Foo\"").unwrap(), "@x\"Foo\"");
    assert_eq!(minify("type \"Foo\"").unwrap(), "type \"Foo\"");
}

#[test]
fn adjacent_non_punctuators_are_separated() {
    assert_eq!(minify("123abc").unwrap(), "123 abc");
    assert_eq!(minify("\"a\"\"b\"").unwrap(), "\"a\" \"b\"");
    assert_eq!(minify("true false trueish").unwrap(), "true false trueish");
}

#[test]
fn numbers_take_the_longest_match() {
    assert_eq!(minify("-12 3.25 -0.5e10 1.5e+3 2.0e-7").unwrap(), "-12 3.25 -0.5e10 1.5e+3 2.0e-7");
    assert_eq!(minify("1.5e x").unwrap(), "1.5 e x");
    assert_eq!(minify("1 ...x").unwrap(), "1...x");
    assert_eq!(minify("1e5").unwrap(), "1 e5");
}

#[test]
fn unterminated_string_span_ends_before_the_line_break() {
    assert_eq!(
        minify("{ foo(arg: \"\n\""),
        Err(MinifyError::UnterminatedString(11..12))
    );
    assert_eq!(
        minify("x \"abc\r\""),
        Err(MinifyError::UnterminatedString(2..6))
    );
}

#[test]
fn long_string_with_line_break_is_found_by_the_fast_scan() {
    let query = "x \"aaaaaaaaaaaaaaaaaaaaaaaaaaaaaa\nbbbbbbbbbb\"";
    assert_eq!(
        minify(query),
        Err(MinifyError::UnterminatedString(2..33))
    );
    let fine = "x \"aaaaaaaaaaaaaaaaaaaaaaaaaaaaaa bbbbbbbbbb\"";
    assert_eq!(minify(fine).unwrap(), fine);
}

#[test]
fn unknown_token_span_runs_to_the_end() {
    assert_eq!(minify("a ~ b"), Err(MinifyError::UnknownToken(2..5)));
    assert_eq!(minify("-"), Err(MinifyError::UnknownToken(0..1)));
    assert_eq!(minify("1."), Err(MinifyError::UnknownToken(1..2)));
    assert_eq!(minify("{ a .. }"), Err(MinifyError::UnknownToken(4..8)));
    assert_eq!(minify("\"open"), Err(MinifyError::UnknownToken(0..5)));
    assert_eq!(minify("$ x"), Err(MinifyError::UnknownToken(0..3)));
}

#[test]
fn error_descriptions_and_spans() {
    let e = minify("a ~").unwrap_err();
    assert_eq!(e.as_str(), "unknown token");
    assert_eq!(e.span(), &(2..3));
    let e = minify("\"a\nb\"").unwrap_err();
    assert_eq!(e.as_str(), "unterminated string");
    assert_eq!(e.span(), &(0..2));
}

#[test]
fn escaped_quotes_stay_inside_strings() {
    assert_eq!(minify("a(x: \"say \\\"hi\\\"\" )").unwrap(), "a(x:\"say \\\"hi\\\"\")");
}

#[test]
fn unterminated_block_string_runs_to_the_end() {
    assert_eq!(minify("a \"\"\"abc").unwrap(), "a \"\"\"abc\"\"\"");
}

#[test]
fn block_string_reprint_adds_newline_before_trailing_quote() {
    assert_eq!(minify("\"\"\"a\"\n\"\"\"").unwrap(), "\"\"\"a\"\n\"\"\"");
    assert_eq!(minify("\"\"\"a\\\"\"\"\"\"\"").unwrap(), "\"\"\"a\\\"\"\"\"\"\"");
}

#[test]
fn non_ascii_text_is_kept() {
    assert_eq!(minify("a(x: \"h\u{e9}llo \u{1f600}\") # \u{fc}ber\n").unwrap(), "a(x:\"h\u{e9}llo \u{1f600}\")");
    assert_eq!(minify("\"\"\"\n  gr\u{fc}\u{df}e\n\"\"\"").unwrap(), "\"\"\"gr\u{fc}\u{df}e\"\"\"");
}

#[test]
fn allocator_is_reused_across_calls() {
    let mut alloc = MinifyAllocator::default();
    let first = graphql_minify::minify("\"\"\"\n  one\n\"\"\" a", &mut alloc).unwrap();
    let second = graphql_minify::minify("\"\"\"\n  two\n   three\n\"\"\"", &mut alloc).unwrap();
    assert_eq!(first, "\"\"\"one\"\"\" a");
    assert_eq!(second, "\"\"\"\ntwo\n three\"\"\"");
}

#[test]
fn minify_bytes_matches_minify() {
    let mut alloc = MinifyAllocator::new();
    let out = graphql_minify::minify_bytes(b"{ a, b }", &mut alloc).unwrap();
    assert_eq!(out, b"{a b}".to_vec());
}

#[test]
fn join_predicates() {
    assert!(is_non_punctuator(&Token::Identifier));
    assert!(is_non_punctuator(&Token::BlockStringDelimiter));
    assert!(!is_non_punctuator(&Token::Variable));
    assert!(!is_non_punctuator(&Token::Ellipsis));
    assert!(needs_space_after_token(&Token::String));
    assert!(!needs_space_after_token(&Token::Int));
    assert!(needs_space_before_token(&Token::BlockStringDelimiter));
    assert!(!needs_space_before_token(&Token::String));
    assert!(!needs_space(&Token::Identifier, None));
    assert!(needs_space(&Token::Int, Some(&Token::Identifier)));
    assert!(needs_space(&Token::Identifier, Some(&Token::Variable)));
    assert!(!needs_space(&Token::Int, Some(&Token::Variable)));
    assert!(!needs_space(&Token::BraceOpen, Some(&Token::Identifier)));
}

#[test]
fn newline_search() {
    assert!(!have_newline_naive(b"abc"));
    assert!(have_newline_naive(b"a\rc"));
    assert!(have_newline(b"a\nc"));
    assert!(have_newline(b"aaaaaaaaaaaaaaaaaaaaaaaaaaaaaaaaaaaa\r"));
    assert!(!have_newline(b"aaaaaaaaaaaaaaaaaaaaaaaaaaaaaaaaaaaa"));
}

#[test]
fn scanner_tokens() {
    let s = b"  # c\n, $var @dir true truex -1.5 \"s\" \"\"\" ...";
    let i = skip_trivia(s, 0);
    assert_eq!(i, 8);
    assert_eq!(next_token(s, i), Ok((Token::Variable, 12)));
    assert_eq!(next_token(s, 13), Ok((Token::Directive, 17)));
    assert_eq!(next_token(s, 18), Ok((Token::Bool, 22)));
    assert_eq!(next_token(s, 23), Ok((Token::Identifier, 28)));
    assert_eq!(next_token(s, 29), Ok((Token::Float, 33)));
    assert_eq!(next_token(s, 34), Ok((Token::String, 37)));
    assert_eq!(next_token(s, 38), Ok((Token::BlockStringDelimiter, 41)));
    assert_eq!(next_token(s, 42), Ok((Token::Ellipsis, 45)));
    assert_eq!(next_token(b"~", 0), Err(LexingError::UnknownToken));
}

#[test]
fn block_strings_grow_the_document_by_a_bounded_amount() {
    let input = "\"\"\"a";
    let out = minify(input).unwrap();
    assert_eq!(out, "\"\"\"a\"\"\"");
    assert!(out.len() <= input.len() + 5);

    let input = "a \"\"\" x\n  y\"\"\"";
    let out = minify(input).unwrap();
    assert_eq!(out, "a \"\"\" x\ny\"\"\"");
    assert!(out.len() <= input.len() + 5);
}

#[test]
fn minified_documents_are_no_longer_without_block_strings() {
    let input = "query Q($id: ID!) { node(id: $id) { ... on User { name } } }";
    let out = minify(input).unwrap();
    assert_eq!(out, "query Q($id:ID!){node(id:$id){...on User{name}}}");
    assert!(out.len() <= input.len());
}

#[test]
fn minifying_twice_changes_nothing() {
    for input in [
        "query SomeQuery($foo: String!, $bar: String) {\n  someField(foo: $foo, bar: $bar) {\n    a\n    b { c d }\n  }\n}\n",
        "{ a(x: -1, y: 2.5e3, z: \"s\") @skip(if: true) ...F }",
        "fragment F on T { a: b(c: [1, 2, 3]) }",
        "\"\"\"\n  Type description\n\"\"\"\ntype Foo { bar: String }",
    ] {
        let once = minify(input).unwrap();
        assert_eq!(minify(&once).unwrap(), once);
    }
}

#[test]
fn variable_followed_by_a_digit_runs_together() {
    let once = minify("$x 1.5").unwrap();
    assert_eq!(once, "$x1.5");
    assert_eq!(minify(&once), Err(MinifyError::UnknownToken(3..5)));
}
