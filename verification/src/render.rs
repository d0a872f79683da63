//! Markdown for the interfaces of a source text: one section per interface,
//! a heading and a table of its fields.

use vstd::prelude::*;
use vstd::string::StringExecFns;

use crate::name_map::{FieldMap, Fields, InterfaceMap, Interfaces};

verus! {

/// The table row of one field: its name, and its type as inline code.
pub open spec fn row(name: Seq<char>, ty: Seq<char>) -> Seq<char> {
    "| "@ + name + " | `"@ + ty + "` |\n"@
}

/// The table rows of the given fields, in the fields' order.
pub open spec fn rows(fields: Fields) -> Seq<char>
    decreases fields.len(),
{
    if fields.len() == 0 {
        Seq::empty()
    } else {
        rows(fields.drop_last()) + row(fields.last().0, fields.last().1)
    }
}

/// The heading of an interface's section, and the blank line after it.
pub open spec fn heading(prefix: Seq<char>, name: Seq<char>) -> Seq<char> {
    prefix + " "@ + name + "\n\n"@
}

/// The two lines that open every table.
pub open spec fn table_head() -> Seq<char> {
    "| Field | Type |\n| --- | --- |\n"@
}

/// The section of one interface: heading, table head, one row per field.
pub open spec fn section(prefix: Seq<char>, name: Seq<char>, fields: Fields) -> Seq<char> {
    heading(prefix, name) + table_head() + rows(fields)
}

/// The markdown of the given interfaces: their sections, in the interfaces'
/// order, with nothing between them.
pub open spec fn markdown_of(interfaces: Interfaces, prefix: Seq<char>) -> Seq<char>
    decreases interfaces.len(),
{
    if interfaces.len() == 0 {
        Seq::empty()
    } else {
        markdown_of(interfaces.drop_last(), prefix) + section(
            prefix,
            interfaces.last().0,
            interfaces.last().1,
        )
    }
}

/// Appends the rows of `fields` to `output`.
fn push_rows(output: &mut String, fields: &FieldMap)
    ensures
        final(output)@ == old(output)@ + rows(fields@),
{
    let n: usize = fields.len();
    let ghost start = output@;
    let mut j: usize = 0;
    assert(fields@.take(0) =~= Seq::<(Seq<char>, Seq<char>)>::empty());
    assert(start + Seq::<char>::empty() =~= start);
    while j < n
        invariant
            n == fields@.len(),
            j <= n,
            output@ == start + rows(fields@.take(j as int)),
        decreases n - j,
    {
        let ghost before = output@;
        let ghost done = rows(fields@.take(j as int));
        let name: &String = fields.name_at(j);
        let ty: &String = fields.value_at(j);
        output.append("| ");
        output.append(name.as_str());
        output.append(" | `");
        output.append(ty.as_str());
        output.append("` |\n");
        proof {
            assert(fields@.take(j + 1).drop_last() =~= fields@.take(j as int));
            assert(output@ =~= start + (done + row(name@, ty@)));
        }
        j += 1;
    }
    assert(fields@.take(n as int) =~= fields@);
}

/// Renders the interfaces as markdown. Each interface gets a heading, made
/// of the prefix, a space and its name, then a blank line and a table with
/// one row per field. Interfaces and fields come in the order of the maps.
/// An empty map renders to the empty string.
pub fn transform_interfaces(interfaces: InterfaceMap, interface_prefix: &str) -> (output: String)
    ensures
        output@ == markdown_of(interfaces@, interface_prefix@),
        interfaces@.len() == 0 ==> output@ == Seq::<char>::empty(),
{
    let n: usize = interfaces.len();
    let mut output: String = String::new();
    let mut i: usize = 0;
    assert(interfaces@.take(0) =~= Seq::<(Seq<char>, Fields)>::empty());
    while i < n
        invariant
            n == interfaces@.len(),
            i <= n,
            output@ == markdown_of(interfaces@.take(i as int), interface_prefix@),
        decreases n - i,
    {
        let ghost done = output@;
        let name: &String = interfaces.name_at(i);
        let fields: &FieldMap = interfaces.value_at(i);
        output.append(interface_prefix);
        output.append(" ");
        output.append(name.as_str());
        output.append("\n\n");
        output.append("| Field | Type |\n| --- | --- |\n");
        push_rows(&mut output, fields);
        proof {
            assert(interfaces@.take(i + 1).drop_last() =~= interfaces@.take(i as int));
            assert(output@ =~= done + section(interface_prefix@, name@, fields@));
        }
        i += 1;
    }
    assert(interfaces@.take(n as int) =~= interfaces@);
    output
}

} // verus!
