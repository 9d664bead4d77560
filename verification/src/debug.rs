//! The debug text of a table: its rows and its alignments, and not its width
//! function, whose printed form would be an address that differs between runs.

use vstd::prelude::*;
use vstd::string::StringExecFns;

use crate::table::{Alignment, AlignmentChoice};

verus! {

/// What `format!("{:?}", text)` writes for a string: the text in double
/// quotes, with std's debug escapes.
pub uninterp spec fn debug_quoted(text: Seq<char>) -> Seq<char>;

/// Quotes one string through std's `Debug` for `str`.
///
/// Claimed: the result is a function of the text alone, named
/// `debug_quoted`. What the escapes are is left to std.
#[verifier::external_body]
fn quote_for_debug(text: &str) -> (quoted: String)
    ensures
        quoted@ == debug_quoted(text@),
{
    format!("{:?}", text)
}

/// `items` joined by `", "`.
pub open spec fn comma_joined(items: Seq<Seq<char>>) -> Seq<char>
    decreases items.len(),
{
    if items.len() == 0 {
        Seq::empty()
    } else if items.len() == 1 {
        items[0]
    } else {
        comma_joined(items.drop_last()) + ", "@ + items.last()
    }
}

/// A list as `Debug` prints it: the items in square brackets.
pub open spec fn bracketed(items: Seq<Seq<char>>) -> Seq<char> {
    "["@ + comma_joined(items) + "]"@
}

/// The name a table's debug text gives an alignment. An unaligned column is
/// printed as `None`: no alignment was asked for.
pub open spec fn alignment_name(a: Alignment) -> Seq<char> {
    match a {
        Alignment::Unaligned => "None"@,
        Alignment::Left => "Left"@,
        Alignment::Center => "Center"@,
        Alignment::Right => "Right"@,
    }
}

/// The debug text of one row.
pub open spec fn row_debug(row: Seq<Seq<char>>) -> Seq<char> {
    bracketed(row.map_values(|cell: Seq<char>| debug_quoted(cell)))
}

/// The debug text of the alignment choice.
pub open spec fn alignments_debug(choice: AlignmentChoice) -> Seq<char> {
    match choice {
        AlignmentChoice::Every(a) => "Every("@ + alignment_name(a) + ")"@,
        AlignmentChoice::PerColumn(list) => "PerColumn("@ + bracketed(
            list.map_values(|a: Alignment| alignment_name(a)),
        ) + ")"@,
    }
}

/// The debug text of a table.
pub open spec fn table_debug(rows: Seq<Seq<Seq<char>>>, choice: AlignmentChoice) -> Seq<char> {
    "Table { rows: "@ + bracketed(rows.map_values(|row: Seq<Seq<char>>| row_debug(row)))
        + ", alignments: "@ + alignments_debug(choice) + ", .. }"@
}

fn append_alignment_name(out: &mut String, a: Alignment)
    ensures
        final(out)@ == old(out)@ + alignment_name(a),
{
    match a {
        Alignment::Unaligned => out.append("None"),
        Alignment::Left => out.append("Left"),
        Alignment::Center => out.append("Center"),
        Alignment::Right => out.append("Right"),
    }
}

/// Appends `[` then the items written by `item`, separated by `", "`, then `]`.
pub(crate) fn append_row_debug(out: &mut String, row: &Vec<String>)
    ensures
        final(out)@ == old(out)@ + row_debug(row.deep_view()),
{
    let ghost items = row.deep_view().map_values(|cell: Seq<char>| debug_quoted(cell));
    out.append("[");
    for i in 0..row.len()
        invariant
            items == row.deep_view().map_values(|cell: Seq<char>| debug_quoted(cell)),
            items.len() == row@.len(),
            out@ == old(out)@ + "["@ + comma_joined(items.subrange(0, i as int)),
    {
        if i > 0 {
            out.append(", ");
        }
        let quoted = quote_for_debug(row[i].as_str());
        out.append(quoted.as_str());
        assert(items[i as int] == debug_quoted(row@[i as int]@));
        assert(items.subrange(0, i + 1).drop_last() =~= items.subrange(0, i as int));
        if i == 0 {
            assert(out@ =~= old(out)@ + "["@ + comma_joined(items.subrange(0, 1)));
        } else {
            assert(out@ =~= old(out)@ + "["@ + comma_joined(items.subrange(0, i + 1)));
        }
    }
    out.append("]");
    assert(items.subrange(0, row@.len() as int) =~= items);
    assert(out@ =~= old(out)@ + row_debug(row.deep_view()));
}

/// Appends the debug text of every row.
pub(crate) fn append_rows_debug(out: &mut String, rows: &Vec<Vec<String>>)
    ensures
        final(out)@ == old(out)@ + bracketed(
            rows.deep_view().map_values(|row: Seq<Seq<char>>| row_debug(row)),
        ),
{
    let ghost items = rows.deep_view().map_values(|row: Seq<Seq<char>>| row_debug(row));
    out.append("[");
    for i in 0..rows.len()
        invariant
            items == rows.deep_view().map_values(|row: Seq<Seq<char>>| row_debug(row)),
            items.len() == rows@.len(),
            out@ == old(out)@ + "["@ + comma_joined(items.subrange(0, i as int)),
    {
        if i > 0 {
            out.append(", ");
        }
        append_row_debug(out, &rows[i]);
        assert(items[i as int] == row_debug(rows@[i as int].deep_view()));
        assert(items.subrange(0, i + 1).drop_last() =~= items.subrange(0, i as int));
        if i == 0 {
            assert(out@ =~= old(out)@ + "["@ + comma_joined(items.subrange(0, 1)));
        } else {
            assert(out@ =~= old(out)@ + "["@ + comma_joined(items.subrange(0, i + 1)));
        }
    }
    out.append("]");
    assert(items.subrange(0, rows@.len() as int) =~= items);
}

/// Appends the debug text of per-column alignments.
pub(crate) fn append_alignment_list_debug(out: &mut String, list: &Vec<Alignment>)
    ensures
        final(out)@ == old(out)@ + bracketed(list@.map_values(|a: Alignment| alignment_name(a))),
{
    let ghost items = list@.map_values(|a: Alignment| alignment_name(a));
    out.append("[");
    for i in 0..list.len()
        invariant
            items == list@.map_values(|a: Alignment| alignment_name(a)),
            out@ == old(out)@ + "["@ + comma_joined(items.subrange(0, i as int)),
    {
        if i > 0 {
            out.append(", ");
        }
        append_alignment_name(out, list[i]);
        assert(items.subrange(0, i + 1).drop_last() =~= items.subrange(0, i as int));
        if i == 0 {
            assert(out@ =~= old(out)@ + "["@ + comma_joined(items.subrange(0, 1)));
        } else {
            assert(out@ =~= old(out)@ + "["@ + comma_joined(items.subrange(0, i + 1)));
        }
    }
    out.append("]");
    assert(items.subrange(0, list@.len() as int) =~= items);
}

pub(crate) fn append_every_debug(out: &mut String, a: Alignment)
    ensures
        final(out)@ == old(out)@ + alignments_debug(AlignmentChoice::Every(a)),
{
    out.append("Every(");
    append_alignment_name(out, a);
    out.append(")");
    assert(out@ =~= old(out)@ + alignments_debug(AlignmentChoice::Every(a)));
}

pub(crate) fn append_per_column_debug(out: &mut String, list: &Vec<Alignment>)
    ensures
        final(out)@ == old(out)@ + alignments_debug(AlignmentChoice::PerColumn(list@)),
{
    out.append("PerColumn(");
    append_alignment_list_debug(out, list);
    out.append(")");
    assert(out@ =~= old(out)@ + alignments_debug(AlignmentChoice::PerColumn(list@)));
}

} // verus!
