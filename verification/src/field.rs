//! Reading one line of an interface's body as a field.
//!
//! A field line has the shape `name: type;`. A line that does not hold
//! exactly one `:` declares nothing and is passed over without complaint.

use vstd::prelude::*;
use vstd::slice::slice_subrange;
use vstd::string::StringExecFns;

use crate::entries::{
    has_key, item_has_key, keys_unique, lemma_put_all_has_key, lemma_put_all_last_wins,
    lemma_put_all_unique, put_all, value_of,
};
use crate::name_map::Fields;
use crate::sequence::{lemma_position_is_first, position};
use crate::text::{
    chars_of, find_char, lemma_occurrences_after_first, lemma_occurrences_none,
    lemma_occurrences_two, occurrences, remove_char, string_from_chars, trim, trimmed, without,
};

verus! {

/// One side of a field line: trimmed, then without any `;`.
pub open spec fn cleaned(segment: Seq<char>) -> Seq<char> {
    without(trimmed(segment), ';')
}

/// The name under which a field is kept: a source name that ends in `?`
/// loses the `?` and is marked as optional.
pub open spec fn field_name(source_name: Seq<char>) -> Seq<char> {
    if source_name.len() > 0 && source_name.last() == '?' {
        source_name.drop_last() + " (optional)"@
    } else {
        source_name
    }
}

/// The field that a body line declares: the line must hold exactly one `:`,
/// the name stands before it and the type after it.
pub open spec fn field_of(line: Seq<char>) -> Option<(Seq<char>, Seq<char>)> {
    if occurrences(line, ':') == 1 {
        let colon = position(line, ':') as int;
        Some((field_name(cleaned(line.take(colon))), cleaned(line.skip(colon + 1))))
    } else {
        None
    }
}

/// What each line of a body declares, line by line.
pub open spec fn field_items(body: Seq<Seq<char>>) -> Seq<Option<(Seq<char>, Seq<char>)>> {
    body.map_values(|line: Seq<char>| field_of(line))
}

/// The fields that the lines of a body declare. A later line replaces the
/// type of a name that an earlier line gave.
pub open spec fn fields_of(body: Seq<Seq<char>>) -> Fields {
    put_all(field_items(body))
}

/// Whether line `i` of a body declares a field named `name`.
pub open spec fn declares_field(body: Seq<Seq<char>>, i: int, name: Seq<char>) -> bool {
    0 <= i < body.len() && match field_of(body[i]) {
        Some(field) => field.0 == name,
        None => false,
    }
}

/// A line without a `:` declares no field.
pub proof fn lemma_no_colon_no_field(line: Seq<char>)
    requires
        !line.contains(':'),
    ensures
        field_of(line) is None,
{
    lemma_occurrences_none(line, ':');
}

/// A line with a `:` at two places declares no field.
pub proof fn lemma_two_colons_no_field(line: Seq<char>, i: int, j: int)
    requires
        0 <= i < j < line.len(),
        line[i] == ':',
        line[j] == ':',
    ensures
        field_of(line) is None,
{
    lemma_occurrences_two(line, ':', i, j);
}

/// The fields of a body have a name exactly when a line of the body
/// declares a field of that name, and no name twice.
pub proof fn lemma_field_iff_declared(body: Seq<Seq<char>>, name: Seq<char>)
    ensures
        has_key(fields_of(body), name) <==> exists|i: int| declares_field(body, i, name),
        keys_unique(fields_of(body)),
{
    let items = field_items(body);
    lemma_put_all_unique(items);
    lemma_put_all_has_key(items, name);
    if exists|i: int| item_has_key(items, i, name) {
        let i = choose|i: int| item_has_key(items, i, name);
        assert(declares_field(body, i, name));
    }
    if exists|i: int| declares_field(body, i, name) {
        let i = choose|i: int| declares_field(body, i, name);
        assert(item_has_key(items, i, name));
    }
}

/// A field has the type that the last line declaring its name gives it.
pub proof fn lemma_last_field_wins(body: Seq<Seq<char>>, i: int, name: Seq<char>, ty: Seq<char>)
    requires
        0 <= i < body.len(),
        field_of(body[i]) == Some((name, ty)),
        forall|j: int| i < j < body.len() ==> !declares_field(body, j, name),
    ensures
        value_of(fields_of(body), name) == Some(ty),
{
    let items = field_items(body);
    assert forall|j: int| i < j < items.len() implies !item_has_key(items, j, name) by {
        assert(!declares_field(body, j, name));
    }
    lemma_put_all_last_wins(items, i, name, ty);
}

/// Reads one body line as a field.
pub(crate) fn field_of_line(line: &[char]) -> (field: Option<(String, String)>)
    ensures
        match field {
            Some((name, ty)) => field_of(line@) == Some((name@, ty@)),
            None => field_of(line@) is None,
        },
{
    let n: usize = line.len();
    let colon: usize = find_char(line, ':');
    proof {
        lemma_position_is_first(line@, ':');
        lemma_occurrences_none(line@, ':');
    }
    if colon == n {
        return None;
    }
    let rest = slice_subrange(line, colon + 1, n);
    proof {
        lemma_occurrences_after_first(line@, ':');
        lemma_position_is_first(rest@, ':');
        lemma_occurrences_none(rest@, ':');
        assert(rest@ =~= line@.skip(colon + 1));
    }
    if find_char(rest, ':') < rest.len() {
        return None;
    }
    let source_name: Vec<char> = remove_char(trim(slice_subrange(line, 0, colon)), ';');
    let ty: Vec<char> = remove_char(trim(rest), ';');
    assert(line@.subrange(0, colon as int) =~= line@.take(colon as int));
    let m: usize = source_name.len();
    let name: String = if m > 0 && source_name[m - 1] == '?' {
        let mut marked: String = string_from_chars(slice_subrange(source_name.as_slice(), 0, m - 1));
        marked.append(" (optional)");
        assert(source_name@.subrange(0, m - 1) =~= source_name@.drop_last());
        marked
    } else {
        string_from_chars(source_name.as_slice())
    };
    Some((name, string_from_chars(ty.as_slice())))
}

/// Reads one line as a field: `name: type;` gives the name and the type.
/// A name that ends in `?` is given without it and with ` (optional)` after
/// it. A line that does not hold exactly one `:` gives nothing.
pub fn parse_field(line: &str) -> (field: Option<(String, String)>)
    ensures
        match field {
            Some((name, ty)) => field_of(line@) == Some((name@, ty@)),
            None => field_of(line@) is None,
        },
        field is Some <==> occurrences(line@, ':') == 1,
        !line@.contains(':') ==> field is None,
        (exists|i: int, j: int| 0 <= i < j < line@.len() && line@[i] == ':' && line@[j] == ':')
            ==> field is None,
{
    proof {
        lemma_occurrences_none(line@, ':');
        if exists|i: int, j: int| 0 <= i < j < line@.len() && line@[i] == ':' && line@[j] == ':' {
            let (i, j) = choose|i: int, j: int|
                0 <= i < j < line@.len() && line@[i] == ':' && line@[j] == ':';
            lemma_occurrences_two(line@, ':', i, j);
        }
    }
    let chars: Vec<char> = chars_of(line);
    field_of_line(chars.as_slice())
}

} // verus!
