use graphql_minify::template::pad_fragment;

fn pad(min: &str, is_first: bool, is_last: bool, has_prev_expr: bool, next_is_expr: bool) -> String {
    String::from_utf8(pad_fragment(min.as_bytes(), is_first, is_last, has_prev_expr, next_is_expr)).unwrap()
}

#[test]
fn placeholder_after_opening_brace_takes_no_space() {
    assert_eq!(pad("id name image{", true, false, false, true), "id name image{");
    assert_eq!(pad("url}", false, true, true, false), " url}");
}

#[test]
fn placeholder_between_names_is_spaced_on_both_sides() {
    assert_eq!(pad("id some", true, false, false, true), "id some ");
    assert_eq!(pad("FieldName", false, true, true, false), " FieldName");
    assert_eq!(pad("id", false, false, true, true), " id ");
}

#[test]
fn empty_fragments_around_placeholders() {
    assert_eq!(pad("", true, false, false, true), "");
    assert_eq!(pad("", false, true, true, false), "");
    assert_eq!(pad("", false, false, true, true), " ");
}

#[test]
fn punctuator_ends_need_no_space() {
    assert_eq!(pad("}", false, false, true, true), "}");
    assert_eq!(pad("...", false, false, true, true), "...");
    assert_eq!(pad("123.", true, false, false, true), "123.");
    assert_eq!(pad("123.4", true, false, false, true), "123.4 ");
    assert_eq!(pad("a", false, true, false, false), "a");
}
