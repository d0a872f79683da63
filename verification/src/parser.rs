//! Finding the interface declarations of a source text and the fields of
//! each.
//!
//! The scan goes by lines and knows nothing of the language around them. A
//! line that holds the header marker anywhere declares an interface, also
//! inside a comment or a string. The lines after it are its body, up to the
//! first line that is exactly `}`, or up to the end of the text where there
//! is no such line. Every line is tested for the marker, also a line that is
//! part of the body of an earlier declaration that was never closed.

use vstd::prelude::*;
use vstd::slice::slice_subrange;

use crate::field::{field_items, field_of_line, fields_of};
use crate::entries::{
    has_key, item_has_key, item_keys, keys_unique, lemma_present_none, lemma_put_all_has_key,
    lemma_put_all_last_wins, lemma_put_all_len, lemma_put_all_order, lemma_put_all_unique, present,
    put_all, value_of,
};
use crate::name_map::{FieldMap, Fields, InterfaceMap, Interfaces};
use crate::sequence::{lemma_position, position};
use crate::text::{
    chars_of, find, find_char, first_occurrence, lemma_first_occurrence, lines_of, occurs_at,
    slices_view, split_lines, string_from_chars, trim, trimmed,
};

verus! {

/// The text that marks a line as the header of an interface.
pub open spec fn header_marker(exported_only: bool) -> Seq<char> {
    if exported_only {
        "export interface"@
    } else {
        "interface"@
    }
}

/// The line that ends a body.
pub open spec fn closing_line() -> Seq<char> {
    seq!['}']
}

/// What stands in `s` before its first `<` or `{`.
pub open spec fn before_bracket(s: Seq<char>) -> Seq<char> {
    let angle = position(s, '<');
    let brace = position(s, '{');
    s.take(if angle < brace { angle as int } else { brace as int })
}

/// The name that `line` declares, if it holds `marker`: the text between the
/// first occurrence of `marker` and the next `<` or `{`, trimmed.
pub open spec fn header_name(line: Seq<char>, marker: Seq<char>) -> Option<Seq<char>> {
    match first_occurrence(line, marker) {
        Some(at) => Some(trimmed(before_bracket(line.skip(at + marker.len())))),
        None => None,
    }
}

/// The body that starts at line `from`: the lines from there up to the
/// first closing line, or all of them if none closes it.
pub open spec fn body_from(lines: Seq<Seq<char>>, from: int) -> Seq<Seq<char>> {
    let rest = lines.skip(from);
    rest.take(position(rest, closing_line()) as int)
}

/// The interface that line `i` declares, if it is a header: its name, and
/// the fields of the body that starts at the next line.
pub open spec fn declaration_at(lines: Seq<Seq<char>>, marker: Seq<char>, i: int) -> Option<
    (Seq<char>, Fields),
> {
    match header_name(lines[i], marker) {
        Some(name) => Some((name, fields_of(body_from(lines, i + 1)))),
        None => None,
    }
}

/// What each line declares, line by line.
pub open spec fn declarations(lines: Seq<Seq<char>>, marker: Seq<char>) -> Seq<
    Option<(Seq<char>, Fields)>,
> {
    Seq::new(lines.len(), |i: int| declaration_at(lines, marker, i))
}

/// The interfaces that the lines declare. A later header replaces the
/// fields of a name that an earlier header declared.
pub open spec fn interfaces_in(lines: Seq<Seq<char>>, marker: Seq<char>) -> Interfaces {
    put_all(declarations(lines, marker))
}

/// The interfaces that a text declares.
pub open spec fn interfaces_of(text: Seq<char>, exported_only: bool) -> Interfaces {
    interfaces_in(lines_of(text), header_marker(exported_only))
}

/// The number of lines that are headers.
pub open spec fn header_count(lines: Seq<Seq<char>>, marker: Seq<char>) -> nat {
    present(declarations(lines, marker))
}

/// Whether line `i` is a header that declares `name`.
pub open spec fn declares(lines: Seq<Seq<char>>, marker: Seq<char>, i: int, name: Seq<char>) -> bool {
    0 <= i < lines.len() && header_name(lines[i], marker) == Some(name)
}

/// Whether no two headers declare the same name.
pub open spec fn names_distinct(lines: Seq<Seq<char>>, marker: Seq<char>) -> bool {
    forall|i: int, j: int, name: Seq<char>|
        declares(lines, marker, i, name) && declares(lines, marker, j, name) ==> i == j
}

/// The interfaces of a text have a name exactly when a header declares that
/// name, and no name twice.
pub proof fn lemma_interface_iff_declared(
    lines: Seq<Seq<char>>,
    marker: Seq<char>,
    name: Seq<char>,
)
    ensures
        has_key(interfaces_in(lines, marker), name) <==> exists|i: int|
            declares(lines, marker, i, name),
        keys_unique(interfaces_in(lines, marker)),
{
    let items = declarations(lines, marker);
    lemma_put_all_unique(items);
    lemma_put_all_has_key(items, name);
    if exists|i: int| item_has_key(items, i, name) {
        let i = choose|i: int| item_has_key(items, i, name);
        assert(declares(lines, marker, i, name));
    }
    if exists|i: int| declares(lines, marker, i, name) {
        let i = choose|i: int| declares(lines, marker, i, name);
        assert(item_has_key(items, i, name));
    }
}

/// An interface has the fields of the body after the last header that
/// declares its name.
pub proof fn lemma_last_declaration_wins(
    lines: Seq<Seq<char>>,
    marker: Seq<char>,
    i: int,
    name: Seq<char>,
)
    requires
        declares(lines, marker, i, name),
        forall|j: int| i < j < lines.len() ==> !declares(lines, marker, j, name),
    ensures
        value_of(interfaces_in(lines, marker), name) == Some(fields_of(body_from(lines, i + 1))),
{
    let items = declarations(lines, marker);
    assert forall|j: int| i < j < items.len() implies !item_has_key(items, j, name) by {
        assert(!declares(lines, marker, j, name));
    }
    lemma_put_all_last_wins(items, i, name, fields_of(body_from(lines, i + 1)));
}

/// There are at most as many interfaces as headers, and exactly as many
/// where no two headers declare the same name.
pub proof fn lemma_one_interface_per_header(lines: Seq<Seq<char>>, marker: Seq<char>)
    ensures
        interfaces_in(lines, marker).len() <= header_count(lines, marker),
        names_distinct(lines, marker) ==> interfaces_in(lines, marker).len() == header_count(
            lines,
            marker,
        ),
{
    let items = declarations(lines, marker);
    lemma_put_all_len(items);
    if names_distinct(lines, marker) {
        assert forall|i: int, j: int| 0 <= i < j < items.len() implies match (
            #[trigger] items[i],
            #[trigger] items[j],
        ) {
            (Some(first), Some(second)) => first.0 != second.0,
            _ => true,
        } by {
            if items[i] is Some && items[j] is Some {
                let name = header_name(lines[i], marker)->0;
                assert(declares(lines, marker, i, name));
                if header_name(lines[j], marker) == Some(name) {
                    assert(declares(lines, marker, j, name));
                }
            }
        }
    }
}

/// Lines that do not hold the marker declare no interface.
pub proof fn lemma_no_marker_no_interface(lines: Seq<Seq<char>>, marker: Seq<char>)
    requires
        forall|i: int| 0 <= i < lines.len() ==> first_occurrence(lines[i], marker) is None,
    ensures
        interfaces_in(lines, marker) == Seq::<(Seq<char>, Fields)>::empty(),
{
    let items = declarations(lines, marker);
    lemma_put_all_len(items);
    lemma_present_none(items);
}

/// The interfaces stand in the order of the first headers that declare
/// their names.
pub proof fn lemma_interfaces_in_order(
    lines: Seq<Seq<char>>,
    marker: Seq<char>,
    p: int,
    q: int,
    i: int,
    j: int,
)
    requires
        0 <= p < q < interfaces_in(lines, marker).len(),
        declares(lines, marker, i, interfaces_in(lines, marker)[p].0),
        forall|k: int| 0 <= k < i ==> !declares(lines, marker, k, interfaces_in(lines, marker)[p].0),
        declares(lines, marker, j, interfaces_in(lines, marker)[q].0),
        forall|k: int| 0 <= k < j ==> !declares(lines, marker, k, interfaces_in(lines, marker)[q].0),
    ensures
        i < j,
{
    let items = declarations(lines, marker);
    let first = interfaces_in(lines, marker)[p].0;
    let second = interfaces_in(lines, marker)[q].0;
    lemma_put_all_order(items, p, q);
    assert forall|k: int| 0 <= k < i implies item_keys(items)[k] != Some(first) by {
        assert(!declares(lines, marker, k, first));
    }
    assert(item_keys(items)[i] == Some(first));
    lemma_position(item_keys(items), Some(first), i);
    assert forall|k: int| 0 <= k < j implies item_keys(items)[k] != Some(second) by {
        assert(!declares(lines, marker, k, second));
    }
    assert(item_keys(items)[j] == Some(second));
    lemma_position(item_keys(items), Some(second), j);
}

/// The name that a line declares, if it holds the marker.
fn name_of_header(line: &[char], marker: &[char]) -> (name: Option<String>)
    ensures
        match name {
            Some(name) => header_name(line@, marker@) == Some(name@),
            None => header_name(line@, marker@) is None,
        },
{
    match find(line, marker) {
        None => None,
        Some(at) => {
            proof {
                lemma_first_occurrence(line@, marker@);
            }
            let n: usize = line.len();
            let m: usize = marker.len();
            assert(occurs_at(line@, marker@, at as int));
            let rest = slice_subrange(line, at + m, n);
            assert(rest@ =~= line@.skip(at + marker@.len()));
            let angle: usize = find_char(rest, '<');
            let brace: usize = find_char(rest, '{');
            let end: usize = if angle < brace {
                angle
            } else {
                brace
            };
            let name = trim(slice_subrange(rest, 0, end));
            assert(rest@.subrange(0, end as int) =~= rest@.take(end as int));
            Some(string_from_chars(name))
        },
    }
}

/// Whether a line is exactly `}`.
fn is_closing_line(line: &[char]) -> (b: bool)
    ensures
        b == (line@ == closing_line()),
{
    let b: bool = line.len() == 1 && line[0] == '}';
    proof {
        if b {
            assert(line@ =~= closing_line());
        } else if line@.len() == 1 {
            assert(line@[0] != closing_line()[0]);
        }
    }
    b
}

/// The fields of the body that starts at line `from`.
fn collect_fields(lines: &Vec<&[char]>, from: usize) -> (fields: FieldMap)
    requires
        from <= lines@.len(),
    ensures
        fields@ == fields_of(body_from(slices_view(lines@), from as int)),
{
    let n: usize = lines.len();
    let ghost all = slices_view(lines@);
    let mut fields: FieldMap = FieldMap::new();
    let mut j: usize = from;
    assert(field_items(all.subrange(from as int, from as int)) =~= Seq::<
        Option<(Seq<char>, Seq<char>)>,
    >::empty());
    while j < n && !is_closing_line(lines[j])
        invariant
            n == lines@.len(),
            all == slices_view(lines@),
            from <= j <= n,
            forall|k: int| from <= k < j ==> all[k] != closing_line(),
            fields@ == fields_of(all.subrange(from as int, j as int)),
        decreases n - j,
    {
        assert(field_items(all.subrange(from as int, j + 1)).drop_last() =~= field_items(
            all.subrange(from as int, j as int),
        ));
        match field_of_line(lines[j]) {
            Some((name, ty)) => {
                fields.insert(name, ty);
            },
            None => {},
        }
        j += 1;
    }
    proof {
        let rest = all.skip(from as int);
        lemma_position(rest, closing_line(), j - from);
        assert(rest.take(j - from) =~= all.subrange(from as int, j as int));
    }
    fields
}

/// Settings of the scan for interface declarations.
pub struct Parser {
    /// Whether only declarations that are marked as exported count.
    pub exported_interfaces_only: bool,
}

impl Parser {
    /// A parser with the given setting.
    pub fn new(exported_interfaces_only: bool) -> (parser: Self)
        ensures
            parser.exported_interfaces_only == exported_interfaces_only,
    {
        Self { exported_interfaces_only }
    }

    /// Collects the interfaces that `contents` declares, each with its
    /// fields. The interfaces stand in the order in which their names first
    /// occur, and the fields of each in the order in which theirs do.
    pub fn collect_interface_map(&self, contents: &str) -> (interfaces: InterfaceMap)
        ensures
            interfaces@ == interfaces_of(contents@, self.exported_interfaces_only),
            keys_unique(interfaces@),
            interfaces@.len() <= header_count(
                lines_of(contents@),
                header_marker(self.exported_interfaces_only),
            ),
            names_distinct(lines_of(contents@), header_marker(self.exported_interfaces_only))
                ==> interfaces@.len() == header_count(
                lines_of(contents@),
                header_marker(self.exported_interfaces_only),
            ),
    {
        proof {
            lemma_put_all_unique(
                declarations(lines_of(contents@), header_marker(self.exported_interfaces_only)),
            );
            lemma_one_interface_per_header(
                lines_of(contents@),
                header_marker(self.exported_interfaces_only),
            );
        }
        let text: Vec<char> = chars_of(contents);
        let lines: Vec<&[char]> = split_lines(text.as_slice());
        let marker: Vec<char> = if self.exported_interfaces_only {
            chars_of("export interface")
        } else {
            chars_of("interface")
        };
        let n: usize = lines.len();
        let ghost all = slices_view(lines@);
        let mut interfaces: InterfaceMap = InterfaceMap::new();
        let mut i: usize = 0;
        assert(declarations(all, marker@).take(0) =~= Seq::<
            Option<(Seq<char>, Fields)>,
        >::empty());
        while i < n
            invariant
                n == lines@.len(),
                all == slices_view(lines@),
                i <= n,
                interfaces@ == put_all(declarations(all, marker@).take(i as int)),
            decreases n - i,
        {
            assert(declarations(all, marker@).take(i + 1).drop_last() =~= declarations(
                all,
                marker@,
            ).take(i as int));
            match name_of_header(lines[i], marker.as_slice()) {
                Some(name) => {
                    let fields: FieldMap = collect_fields(&lines, i + 1);
                    interfaces.insert(name, fields);
                },
                None => {},
            }
            i += 1;
        }
        assert(declarations(all, marker@).take(n as int) =~= declarations(all, marker@));
        interfaces
    }
}

} // verus!
