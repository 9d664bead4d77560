//! Padding, column widths, delimiter construction, and alignment fitting.
#![allow(dead_code)]

use gfm_table::{Alignment, CharCount, Table};
use pulldown_cmark::{Event, Options, Parser, Tag, TagEnd};

/// What the shared checks need of a table, whatever measures its cells.
trait Rendered {
    fn rendered(&self) -> String;
    fn row_count(&self) -> usize;
    fn column_count(&self) -> usize;
}

impl Rendered for Table<CharCount> {
    fn rendered(&self) -> String {
        self.render()
    }
    fn row_count(&self) -> usize {
        self.len()
    }
    fn column_count(&self) -> usize {
        self.columns()
    }
}

impl<F: Fn(&str) -> usize> Rendered for Table<F> {
    fn rendered(&self) -> String {
        self.render()
    }
    fn row_count(&self) -> usize {
        self.len()
    }
    fn column_count(&self) -> usize {
        self.columns()
    }
}



/// One table as an independent GFM parser sees it.
struct ParsedTable {
    alignments: Vec<pulldown_cmark::Alignment>,
    /// Header first, then body rows. Cell text and inline HTML concatenated.
    rows: Vec<Vec<String>>,
}

/// Reads markdown with the GFM table extension on and returns every table in it.
fn parse_tables(markdown: &str) -> Vec<ParsedTable> {
    let mut options = Options::empty();
    options.insert(Options::ENABLE_TABLES);

    let mut tables: Vec<ParsedTable> = Vec::new();
    let mut row: Vec<String> = Vec::new();
    let mut cell = String::new();
    let mut in_cell = false;

    for event in Parser::new_ext(markdown, options) {
        match event {
            Event::Start(Tag::Table(alignments)) => tables.push(ParsedTable {
                alignments,
                rows: Vec::new(),
            }),
            Event::Start(Tag::TableCell) => {
                in_cell = true;
                cell.clear();
            }
            Event::End(TagEnd::TableCell) => {
                in_cell = false;
                row.push(std::mem::take(&mut cell));
            }
            Event::End(TagEnd::TableHead) | Event::End(TagEnd::TableRow) => {
                if let Some(table) = tables.last_mut() {
                    table.rows.push(std::mem::take(&mut row));
                }
            }
            // A `<br>` arrives as inline HTML and not as text, so invariant 8
            // has to join both kinds.
            Event::Text(text) | Event::InlineHtml(text) if in_cell => cell.push_str(&text),
            _ => {}
        }
    }
    tables
}

/// Splits one rendered line into its cells. A pipe separates cells when the run
/// of backslashes before it has even length.
fn split_line(line: &str) -> Vec<String> {
    let mut fields: Vec<String> = Vec::new();
    let mut current = String::new();
    let mut backslashes = 0usize;
    for character in line.chars() {
        if character == '|' && backslashes % 2 == 0 {
            fields.push(std::mem::take(&mut current));
            backslashes = 0;
            continue;
        }
        if character == '\\' {
            backslashes += 1;
        } else {
            backslashes = 0;
        }
        current.push(character);
    }
    fields.push(current);
    fields
}

/// Cells of one line, with the empty pieces outside the leading and trailing
/// pipes removed. Panics if either delimiter is missing, which invariant 3 bans.
fn cells_of(line: &str) -> Vec<String> {
    let mut fields = split_line(line);
    assert_eq!(fields.first().map(String::as_str), Some(""));
    assert_eq!(fields.last().map(String::as_str), Some(""));
    fields.remove(0);
    fields.pop();
    fields
}

/// Checks invariants 1 through 6 and 15 for a table rendered with `measure`.
fn check_invariants<T: Rendered>(table: &T, measure: fn(&str) -> usize) {
    let out = table.rendered();
    let columns = table.column_count();

    // 1. Empty output exactly when there are no columns.
    assert_eq!(out.is_empty(), columns == 0);
    // 15. Rendering again gives the same text.
    assert_eq!(table.rendered(), out);
    if columns == 0 {
        return;
    }

    // 2. One line per row plus the delimiter, and no trailing newline.
    let lines: Vec<&str> = out.lines().collect();
    assert_eq!(lines.len(), table.row_count() + 1);
    assert_eq!(out.chars().last(), Some('|'));

    let widths: Vec<usize> = cells_of(lines[1])
        .iter()
        .map(|delimiter| measure(delimiter.trim_matches(' ')))
        .collect();
    // 5. Every column is at least as wide as its delimiter needs.
    assert_eq!(widths.iter().filter(|width| **width == 0).count(), 0);

    for line in &lines {
        // 3. Every line starts and ends with a pipe and holds k + 1 of them.
        assert_eq!(line.chars().next(), Some('|'));
        assert_eq!(line.chars().last(), Some('|'));
        let cells = cells_of(line);
        assert_eq!(cells.len(), columns);
        for (cell, width) in cells.iter().zip(&widths) {
            // 4. Every line measures the same, column by column.
            assert_eq!(measure(cell), width + 2);
        }
    }
}

/// Checks invariant 7: the output parses as one table with the shape and the
/// alignments the caller asked for.
fn check_parses<T: Rendered>(table: &T, expected: &[Alignment]) -> ParsedTable {
    let out = table.rendered();
    let mut tables = parse_tables(&out);
    assert_eq!(tables.len(), 1);
    let parsed = tables.remove(0);

    assert_eq!(parsed.rows.len(), table.row_count());
    for row in &parsed.rows {
        assert_eq!(row.len(), table.column_count());
    }
    let wanted: Vec<pulldown_cmark::Alignment> = (0..table.column_count())
        .map(
            |column| match expected.get(column).copied().unwrap_or_default() {
                Alignment::Unaligned => pulldown_cmark::Alignment::None,
                Alignment::Left => pulldown_cmark::Alignment::Left,
                Alignment::Center => pulldown_cmark::Alignment::Center,
                Alignment::Right => pulldown_cmark::Alignment::Right,
            },
        )
        .collect();
    assert_eq!(parsed.alignments, wanted);
    parsed
}

/// Input cell as invariant 8 expects to read it back: every line break replaced
/// by one `<br>`.
fn breaks_as_html(cell: &str) -> String {
    let mut out = String::with_capacity(cell.len());
    let mut characters = cell.chars().peekable();
    while let Some(character) = characters.next() {
        match character {
            '\r' => {
                if characters.peek() == Some(&'\n') {
                    characters.next();
                }
                out.push_str("<br>");
            }
            '\n' => out.push_str("<br>"),
            other => out.push(other),
        }
    }
    out
}

fn one_cell(cell: &str, alignment: Alignment) -> String {
    let mut table = Table::new();
    table.push_row([cell]);
    table.set_alignment(alignment);
    table.render()
}

#[test]
fn each_alignment_writes_its_own_delimiter() {
    assert_eq!(one_cell("abc", Alignment::Unaligned), "| abc |\n| --- |");
    assert_eq!(one_cell("abc", Alignment::Left), "| abc |\n| :-- |");
    assert_eq!(one_cell("abc", Alignment::Right), "| abc |\n| --: |");
    assert_eq!(one_cell("abc", Alignment::Center), "| abc |\n| :-: |");
}

#[test]
fn a_column_is_never_narrower_than_its_delimiter_needs() {
    assert_eq!(one_cell("a", Alignment::Unaligned), "| a |\n| - |");
    assert_eq!(one_cell("a", Alignment::Left), "| a  |\n| :- |");
    assert_eq!(one_cell("a", Alignment::Right), "|  a |\n| -: |");
    assert_eq!(one_cell("a", Alignment::Center), "|  a  |\n| :-: |");
}

#[test]
fn padding_goes_on_the_side_the_alignment_names() {
    let mut table = Table::new();
    table.push_row(["abcd", "abcd", "abcd", "abcd"]);
    table.push_row(["x", "x", "x", "x"]);
    table.set_alignments([
        Alignment::Unaligned,
        Alignment::Left,
        Alignment::Right,
        Alignment::Center,
    ]);
    let out = table.render();
    assert_eq!(
        out,
        "| abcd | abcd | abcd | abcd |\n\
         | ---- | :--- | ---: | :--: |\n\
         | x    | x    |    x |   x  |"
    );
}

#[test]
fn a_centred_cell_with_an_odd_fill_leans_left() {
    let mut table = Table::new();
    table.push_row(["abcd"]);
    table.push_row(["x"]);
    table.set_alignment(Alignment::Center);
    let out = table.render();
    let last = out.lines().last().unwrap();
    assert_eq!(last, "|   x  |");

    let cell = &cells_of(last)[0];
    let leading = cell.len() - cell.trim_start_matches(' ').len();
    let trailing = cell.len() - cell.trim_end_matches(' ').len();
    assert_eq!(leading, trailing + 1);
}

#[test]
fn an_even_fill_splits_evenly() {
    let mut table = Table::new();
    table.push_row(["abcde"]);
    table.push_row(["x"]);
    table.set_alignment(Alignment::Center);
    assert_eq!(table.render().lines().last(), Some("|   x   |"));
}

#[test]
fn the_column_width_is_the_widest_measured_cell() {
    let mut table = Table::new();
    table.push_row(["a", "bb"]);
    table.push_row(["ccc", "d"]);
    table.push_row(["e", "ffff"]);
    assert_eq!(
        table.render(),
        "| a   | bb   |\n| --- | ---- |\n| ccc | d    |\n| e   | ffff |"
    );
}

#[test]
fn the_measure_decides_the_width_not_the_byte_count() {
    let mut table = Table::new();
    table.push_row(["\u{4e2d}\u{6587}"]);
    assert_eq!(table.render(), "| \u{4e2d}\u{6587} |\n| -- |");

    let table = table.with_cell_width(str::len);
    assert_eq!(table.render(), "| \u{4e2d}\u{6587} |\n| ------ |");
}

#[test]
fn a_ragged_table_renders_the_same_as_one_padded_with_empty_cells() {
    let mut ragged = Table::new();
    ragged.push_row(["a"]);
    ragged.push_row(["b", "c", "d"]);
    ragged.push_row(["e", "f"]);

    let mut padded = Table::new();
    padded.push_row(["a", "", ""]);
    padded.push_row(["b", "c", "d"]);
    padded.push_row(["e", "f", ""]);

    assert_eq!(ragged.render(), padded.render());
}

#[test]
fn a_fitted_alignment_slice_renders_the_same_as_the_original() {
    let mut table = Table::new();
    table.push_row(["a", "b"]);

    let mut short = table.clone();
    short.set_alignments([Alignment::Center]);
    let mut fitted = table.clone();
    fitted.set_alignments([Alignment::Center, Alignment::Unaligned]);
    assert_eq!(short.render(), fitted.render());

    let mut long = table.clone();
    long.set_alignments([Alignment::Center, Alignment::Unaligned, Alignment::Right]);
    assert_eq!(long.render(), fitted.render());
}

#[test]
fn adding_a_row_never_shrinks_a_column() {
    let mut table = Table::new();
    table.push_row(["aaa", "b"]);
    let before: Vec<usize> = cells_of(table.render().lines().next().unwrap())
        .iter()
        .map(String::len)
        .collect();

    table.push_row(["c", "d"]);
    let after: Vec<usize> = cells_of(table.render().lines().next().unwrap())
        .iter()
        .map(String::len)
        .collect();

    assert_eq!(before, after);

    table.push_row(["e", "ffff"]);
    let wider: Vec<usize> = cells_of(table.render().lines().next().unwrap())
        .iter()
        .map(String::len)
        .collect();
    assert_eq!(wider, vec![5, 6]);
}

#[test]
fn there_is_no_trailing_newline() {
    let mut table = Table::new();
    table.push_row(["a"]);
    table.push_row(["b"]);
    let out = table.render();
    assert_eq!(out.chars().last(), Some('|'));
    assert_eq!(out.lines().count(), 3);
}

#[test]
fn rendering_twice_gives_the_same_bytes_and_does_not_escape_twice() {
    let mut table = Table::new();
    table.push_row(["a|b", "c\nd"]);
    let first = table.render();
    assert_eq!(table.render(), first);
    assert_eq!(first, "| a\\|b | c<br>d |\n| ---- | ------ |");
}

#[test]
fn the_invariants_hold_for_a_mixed_table() {
    let mut table = Table::new();
    table.push_row(["name", "value|unit", "note"]);
    table.push_row(["one", "1", "first\nline"]);
    table.push_row(["two"]);
    table.set_alignments([Alignment::Left, Alignment::Center, Alignment::Right]);
    check_invariants(&table, |cell| cell.chars().count());

    let table = table.with_cell_width(|cell| cell.encode_utf16().count());
    check_invariants(&table, |cell| cell.encode_utf16().count());
}

#[test]
fn the_output_string_is_allocated_once_at_the_exact_length() {
    // The capacity is computed from the column widths before anything is
    // written. If it were wrong in either direction the string would have grown
    // and its capacity would no longer equal its length.
    let mut table = Table::new();
    table.push_row(["name", "\u{4e2d}\u{6587}|x", "note"]);
    table.push_row(["one\ntwo", "", "\u{1f600}"]);
    table.push_row(["three"]);
    table.set_alignments([Alignment::Center, Alignment::Right, Alignment::Left]);

    for measure in [
        (|cell: &str| cell.chars().count()) as fn(&str) -> usize,
        |cell: &str| cell.encode_utf16().count(),
        str::len,
    ] {
        let out = table.clone().with_cell_width(measure).render();
        assert_eq!(out.capacity(), out.len());
    }
}
