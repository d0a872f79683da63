use tsmd::generate_markdown;
use tsmd::name_map::{FieldMap, InterfaceMap};
use tsmd::parser::Parser;
use tsmd::render::transform_interfaces;

fn fields(entries: &[(&str, &str)]) -> FieldMap {
    let mut map = FieldMap::new();
    for (name, ty) in entries {
        map.insert(name.to_string(), ty.to_string());
    }
    map
}

#[test]
fn empty_map_renders_to_the_empty_string() {
    assert_eq!(transform_interfaces(InterfaceMap::new(), "##"), "");
    assert_eq!(transform_interfaces(InterfaceMap::new(), ""), "");
    assert_eq!(transform_interfaces(InterfaceMap::new(), "any prefix"), "");
}

#[test]
fn one_interface_with_one_field() {
    let mut interfaces = InterfaceMap::new();
    interfaces.insert("A".to_string(), fields(&[("a", "0")]));
    let output = transform_interfaces(interfaces, "##");
    assert!(output.starts_with("## A\n\n| Field | Type |\n| --- | --- |\n| a | `0` |\n"));
    assert_eq!(output, "## A\n\n| Field | Type |\n| --- | --- |\n| a | `0` |\n");
}

#[test]
fn interface_without_fields_has_a_table_without_rows() {
    let mut interfaces = InterfaceMap::new();
    interfaces.insert("Empty".to_string(), FieldMap::new());
    assert_eq!(transform_interfaces(interfaces, "#"), "# Empty\n\n| Field | Type |\n| --- | --- |\n");
}

#[test]
fn sections_follow_each_other_in_the_order_of_the_map() {
    let mut interfaces = InterfaceMap::new();
    interfaces.insert("B".to_string(), fields(&[("y", "string"), ("x (optional)", "number")]));
    interfaces.insert("A".to_string(), fields(&[("z", "B")]));
    let expected = "### B\n\n| Field | Type |\n| --- | --- |\n| y | `string` |\n| x (optional) | `number` |\n\
                    ### A\n\n| Field | Type |\n| --- | --- |\n| z | `B` |\n";
    assert_eq!(transform_interfaces(interfaces, "###"), expected);
}

#[test]
fn prefix_is_used_as_it_is() {
    let mut interfaces = InterfaceMap::new();
    interfaces.insert("A".to_string(), FieldMap::new());
    assert_eq!(transform_interfaces(interfaces, ""), " A\n\n| Field | Type |\n| --- | --- |\n");
    let mut again = InterfaceMap::new();
    again.insert("".to_string(), FieldMap::new());
    assert_eq!(transform_interfaces(again, "- \u{2192}"), "- \u{2192} \n\n| Field | Type |\n| --- | --- |\n");
}

#[test]
fn parsed_interfaces_render_as_tables() {
    let text = "export interface User {\n  id: number;\n  name?: string;\n}\n\ninterface Internal {\n  key: string;\n}\n";
    let interfaces = Parser::new(false).collect_interface_map(text);
    let expected = "## User\n\n| Field | Type |\n| --- | --- |\n| id | `number` |\n| name (optional) | `string` |\n\
                    ## Internal\n\n| Field | Type |\n| --- | --- |\n| key | `string` |\n";
    assert_eq!(transform_interfaces(interfaces, "##"), expected);
}

#[test]
fn generate_markdown_parses_and_renders() {
    let text = "export interface User {\n  id: number;\n  name?: string;\n}\n\ninterface Internal {\n  key: string;\n}\n";
    let exported = "# User\n\n| Field | Type |\n| --- | --- |\n| id | `number` |\n| name (optional) | `string` |\n";
    assert_eq!(generate_markdown(text, "#", true), exported);
    let interfaces = Parser::new(false).collect_interface_map(text);
    assert_eq!(generate_markdown(text, "#", false), transform_interfaces(interfaces, "#"));
    assert_eq!(generate_markdown("no header here", "#", false), "");
}

#[test]
fn same_input_gives_the_same_markdown() {
    let text = "interface Z {\n z: 1;\n}\ninterface A {\n a: 1;\n b: 2;\n}\ninterface M {\n}\n";
    let first = generate_markdown(text, "##", false);
    let second = generate_markdown(text, "##", false);
    assert_eq!(first.as_bytes(), second.as_bytes());
    assert!(first.starts_with("## Z\n"));
}
