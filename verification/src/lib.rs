//! Markdown tables from the interface declarations of a TypeScript source text.
//!
//! The crate reads a text line by line, finds the lines that declare an
//! interface, takes the `name: type;` lines of each declaration's body and
//! renders one markdown table per interface.
//!
//! Interfaces and fields are kept, and rendered, in the order in which their
//! names first occur in the text, so one text always gives one output.

use vstd::prelude::*;

pub mod entries;
pub mod field;
pub mod name_map;
pub mod parser;
pub mod render;
pub mod sequence;
pub mod text;

use crate::parser::{interfaces_of, Parser};
use crate::render::{markdown_of, transform_interfaces};

verus! {

/// The markdown tables for the interfaces that `contents` declares.
///
/// The result depends on the three arguments alone: the same text, prefix
/// and setting give the same markdown, character for character.
pub fn generate_markdown(contents: &str, interface_prefix: &str, exported_only: bool) -> (markdown:
    String)
    ensures
        markdown@ == markdown_of(interfaces_of(contents@, exported_only), interface_prefix@),
{
    let parser = Parser::new(exported_only);
    let interfaces = parser.collect_interface_map(contents);
    transform_interfaces(interfaces, interface_prefix)
}

} // verus!
