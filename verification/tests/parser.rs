use tsmd::name_map::{FieldMap, InterfaceMap};
use tsmd::parser::Parser;

fn parse(contents: &str, exported_only: bool) -> InterfaceMap {
    Parser::new(exported_only).collect_interface_map(contents)
}

fn names(interfaces: &InterfaceMap) -> Vec<String> {
    (0..interfaces.len()).map(|i| interfaces.name_at(i).clone()).collect()
}

fn entries(fields: &FieldMap) -> Vec<(String, String)> {
    (0..fields.len()).map(|i| (fields.name_at(i).clone(), fields.value_at(i).clone())).collect()
}

fn pairs(expected: &[(&str, &str)]) -> Vec<(String, String)> {
    expected.iter().map(|(name, ty)| (name.to_string(), ty.to_string())).collect()
}

#[test]
fn number_of_fields() {
    let parser = Parser::new(false);
    let file_contents = String::from("interface A {\n\ta: 0;\n\tb: 0;\n\tc: 0;\n}");
    let interfaces = parser.collect_interface_map(&file_contents);
    assert_eq!(interfaces.get("A").unwrap().len(), 3);
}

#[test]
fn new_keeps_the_setting() {
    assert!(Parser::new(true).exported_interfaces_only);
    assert!(!Parser::new(false).exported_interfaces_only);
}

#[test]
fn one_interface_with_three_fields() {
    let interfaces = parse("interface A {\n\ta: 0;\n\tb: 0;\n\tc: 0;\n}", false);
    assert_eq!(names(&interfaces), vec!["A"]);
    let fields = interfaces.get("A").unwrap();
    assert_eq!(entries(fields), pairs(&[("a", "0"), ("b", "0"), ("c", "0")]));
}

#[test]
fn export_header_without_a_name_is_kept_under_the_empty_name() {
    let interfaces = parse("export interface {\n  thing: 42;\n}", false);
    assert_eq!(names(&interfaces), vec![""]);
    assert_eq!(entries(interfaces.get("").unwrap()), pairs(&[("thing", "42")]));
}

#[test]
fn body_line_gives_name_and_type() {
    let interfaces = parse("interface T {\nthing: 42;\n}", false);
    let fields = interfaces.get("T").unwrap();
    assert_eq!(fields.get("thing"), Some(&"42".to_string()));
}

#[test]
fn optional_field_is_kept_under_its_marked_name_only() {
    let interfaces = parse("interface T {\na?: string;\n}", false);
    let fields = interfaces.get("T").unwrap();
    assert_eq!(fields.get("a (optional)"), Some(&"string".to_string()));
    assert!(fields.get("a").is_none());
    assert!(!fields.contains_key("a"));
    assert_eq!(fields.len(), 1);
}

#[test]
fn body_lines_without_a_colon_give_no_field() {
    let interfaces = parse("interface T {\n   \nfoo\n\n}", false);
    assert_eq!(interfaces.get("T").unwrap().len(), 0);
}

#[test]
fn body_line_with_two_colons_gives_no_field() {
    let interfaces = parse("interface T {\na: b: c;\nd: e;\n}", false);
    assert_eq!(entries(interfaces.get("T").unwrap()), pairs(&[("d", "e")]));
}

#[test]
fn distinct_headers_give_one_interface_each() {
    let text = "interface A {\n}\ninterface B {\n}\ninterface C {\n}\n";
    let interfaces = parse(text, false);
    assert_eq!(interfaces.len(), 3);
    assert_eq!(names(&interfaces), vec!["A", "B", "C"]);
}

#[test]
fn interfaces_stand_in_the_order_of_their_first_headers() {
    let text = "interface Z {\n}\ninterface A {\n}\ninterface M {\n}\ninterface A {\n}\n";
    assert_eq!(names(&parse(text, false)), vec!["Z", "A", "M"]);
}

#[test]
fn later_header_of_the_same_name_replaces_the_fields() {
    let text = "interface A {\n a: 1;\n}\ninterface B {\n}\ninterface A {\n b: 2;\n}";
    let interfaces = parse(text, false);
    assert_eq!(names(&interfaces), vec!["A", "B"]);
    assert_eq!(entries(interfaces.get("A").unwrap()), pairs(&[("b", "2")]));
}

#[test]
fn later_line_of_the_same_field_replaces_the_type_in_place() {
    let text = "interface A {\na: 1;\nb: 2;\na: 3;\n}";
    let interfaces = parse(text, false);
    assert_eq!(entries(interfaces.get("A").unwrap()), pairs(&[("a", "3"), ("b", "2")]));
}

#[test]
fn text_without_a_header_gives_an_empty_map() {
    let interfaces = parse("class A {\n a: 1;\n}\n", false);
    assert_eq!(interfaces.len(), 0);
    assert!(interfaces.is_empty());
}

#[test]
fn empty_text_gives_an_empty_map() {
    assert!(parse("", false).is_empty());
    assert!(parse("", true).is_empty());
}

#[test]
fn exported_only_takes_exported_headers_only() {
    let text = "interface A {\n a: 1;\n}\nexport interface B {\n b: 2;\n}";
    let exported = parse(text, true);
    assert_eq!(names(&exported), vec!["B"]);
    assert_eq!(entries(exported.get("B").unwrap()), pairs(&[("b", "2")]));
    let all = parse(text, false);
    assert_eq!(names(&all), vec!["A", "B"]);
}

#[test]
fn exported_only_needs_one_space_after_export() {
    let text = "export  interface A {\n}\nexport\tinterface B {\n}\nexport interface C {\n}";
    assert_eq!(names(&parse(text, true)), vec!["C"]);
}

#[test]
fn name_ends_at_an_angle_bracket() {
    let interfaces = parse("interface Box<T> {\n value: T;\n}", false);
    assert_eq!(names(&interfaces), vec!["Box"]);
    assert_eq!(entries(interfaces.get("Box").unwrap()), pairs(&[("value", "T")]));
}

#[test]
fn name_is_all_that_stands_before_the_brace() {
    assert_eq!(names(&parse("interface A extends B {\n}", false)), vec!["A extends B"]);
    assert_eq!(names(&parse("interface   Padded\t {\n}", false)), vec!["Padded"]);
}

#[test]
fn name_without_a_bracket_runs_to_the_end_of_the_line() {
    assert_eq!(names(&parse("interface Later\n{\n a: 1;\n}", false)), vec!["Later"]);
}

#[test]
fn marker_counts_anywhere_in_a_line() {
    assert_eq!(names(&parse("// an interface Foo {", false)), vec!["Foo"]);
    assert_eq!(names(&parse("const interfaces = 1;", false)), vec!["s = 1;"]);
}

#[test]
fn first_marker_of_a_line_counts() {
    assert_eq!(names(&parse("interface interface X {", false)), vec!["interface X"]);
}

#[test]
fn name_starts_right_after_the_marker_also_behind_wide_characters() {
    assert_eq!(names(&parse("\u{e9}\u{e9}\u{e9} interfaceFoo {", false)), vec!["Foo"]);
}

#[test]
fn header_line_is_no_part_of_its_body() {
    let interfaces = parse("interface A { a: 1; }", false);
    assert_eq!(names(&interfaces), vec!["A"]);
    assert_eq!(interfaces.get("A").unwrap().len(), 0);
}

#[test]
fn header_on_the_last_line_has_no_fields() {
    let interfaces = parse("x: 1;\ninterface A {", false);
    assert_eq!(interfaces.get("A").unwrap().len(), 0);
}

#[test]
fn body_without_a_closing_line_runs_to_the_end() {
    let text = "interface A {\n a: 1;\ninterface B {\n b: 2;";
    let interfaces = parse(text, false);
    assert_eq!(names(&interfaces), vec!["A", "B"]);
    assert_eq!(entries(interfaces.get("A").unwrap()), pairs(&[("a", "1"), ("b", "2")]));
    assert_eq!(entries(interfaces.get("B").unwrap()), pairs(&[("b", "2")]));
}

#[test]
fn body_ends_at_the_first_closing_line() {
    let text = "interface A {\n a: {\n  x: 1;\n}\n b: 2;\n}";
    let interfaces = parse(text, false);
    assert_eq!(entries(interfaces.get("A").unwrap()), pairs(&[("a", "{"), ("x", "1")]));
}

#[test]
fn closing_brace_with_white_space_does_not_close() {
    let text = "interface A {\n a: 1;\n  }\n} \n b: 2;\n}\n c: 3;";
    let interfaces = parse(text, false);
    assert_eq!(entries(interfaces.get("A").unwrap()), pairs(&[("a", "1"), ("b", "2")]));
}

#[test]
fn carriage_returns_before_line_feeds_are_no_part_of_a_line() {
    let interfaces = parse("interface A {\r\n a: 1;\r\n}\r\n b: 2;\r\n", false);
    assert_eq!(names(&interfaces), vec!["A"]);
    assert_eq!(entries(interfaces.get("A").unwrap()), pairs(&[("a", "1")]));
}

#[test]
fn text_may_end_in_a_carriage_return() {
    let interfaces = parse("interface A {\n}\ninterface B\r", false);
    assert_eq!(names(&interfaces), vec!["A", "B"]);
    let closed = parse("interface A {\n a: 1;\n}\r\n b: 2;", false);
    assert_eq!(entries(closed.get("A").unwrap()), pairs(&[("a", "1")]));
    let open = parse("interface A {\n a: 1;\n}\r", false);
    assert_eq!(entries(open.get("A").unwrap()), pairs(&[("a", "1")]));
}

#[test]
fn carriage_return_alone_ends_no_line() {
    let interfaces = parse("interface A {\n a: 1;\r b: 2;\n c: 3;\n}", false);
    assert_eq!(entries(interfaces.get("A").unwrap()), pairs(&[("c", "3")]));
}
