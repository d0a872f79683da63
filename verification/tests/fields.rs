use tsmd::field::parse_field;

fn field(name: &str, ty: &str) -> Option<(String, String)> {
    Some((name.to_string(), ty.to_string()))
}

#[test]
fn field_line_gives_name_and_type() {
    assert_eq!(parse_field("thing: 42;"), field("thing", "42"));
    assert_eq!(parse_field("\tname: string;"), field("name", "string"));
}

#[test]
fn optional_field_is_marked() {
    assert_eq!(parse_field("a?: string;"), field("a (optional)", "string"));
    assert_eq!(parse_field("  a? : string"), field("a (optional)", "string"));
    assert_eq!(parse_field("a?;: x"), field("a (optional)", "x"));
}

#[test]
fn only_the_last_question_mark_is_taken() {
    assert_eq!(parse_field("a??: x"), field("a? (optional)", "x"));
    assert_eq!(parse_field("?: x"), field(" (optional)", "x"));
    assert_eq!(parse_field("a?b: x"), field("a?b", "x"));
}

#[test]
fn line_without_a_colon_is_no_field() {
    assert_eq!(parse_field(""), None);
    assert_eq!(parse_field("   "), None);
    assert_eq!(parse_field("foo"), None);
    assert_eq!(parse_field("}"), None);
    assert_eq!(parse_field("interface A {"), None);
}

#[test]
fn line_with_two_colons_is_no_field() {
    assert_eq!(parse_field("a: b: c;"), None);
    assert_eq!(parse_field("::"), None);
    assert_eq!(parse_field("url: 'http://x';"), None);
    assert_eq!(parse_field("a: { b: c };"), None);
}

#[test]
fn semicolons_are_taken_out_everywhere() {
    assert_eq!(parse_field("a;b: c;d;"), field("ab", "cd"));
    assert_eq!(parse_field(";;x;: ;y;;"), field("x", "y"));
}

#[test]
fn sides_are_trimmed_before_semicolons_are_taken_out() {
    assert_eq!(parse_field("a : b ;"), field("a", "b "));
    assert_eq!(parse_field("; a: b"), field(" a", "b"));
}

#[test]
fn empty_sides_are_kept() {
    assert_eq!(parse_field(":"), field("", ""));
    assert_eq!(parse_field("a:"), field("a", ""));
    assert_eq!(parse_field(": b"), field("", "b"));
    assert_eq!(parse_field(" ; : ; "), field("", ""));
}

#[test]
fn type_keeps_what_stands_inside_it() {
    assert_eq!(parse_field("  a: Array<string | number>;"), field("a", "Array<string | number>"));
    assert_eq!(parse_field("f: (x) => void;"), field("f", "(x) => void"));
}

#[test]
fn every_kind_of_white_space_is_trimmed() {
    assert_eq!(parse_field("\u{3000}a\u{a0}:\u{2009}b\u{85}"), field("a", "b"));
    assert_eq!(parse_field("\u{200b}a: b"), field("\u{200b}a", "b"));
}

#[test]
fn characters_outside_ascii_pass_through() {
    assert_eq!(parse_field("gr\u{f6}\u{df}e?: \u{1f600};"), field("gr\u{f6}\u{df}e (optional)", "\u{1f600}"));
}
