//! The promise the crate exists for: an independent GFM parser reads the output
//! as the table the caller described, whatever the cells hold.
#![allow(dead_code)]

use gfm_table::{Alignment, CharCount, Table};
use pulldown_cmark::{Event, Options, Parser, Tag, TagEnd};

/// What the shared checks need of a table, whatever measures its cells.
trait Rendered {
    fn rendered(&self) -> String;
    fn row_count(&self) -> usize;
    fn column_count(&self) -> usize;
}

impl Rendered for Table<CharCount> {
    fn rendered(&self) -> String {
        self.render()
    }
    fn row_count(&self) -> usize {
        self.len()
    }
    fn column_count(&self) -> usize {
        self.columns()
    }
}

impl<F: Fn(&str) -> usize> Rendered for Table<F> {
    fn rendered(&self) -> String {
        self.render()
    }
    fn row_count(&self) -> usize {
        self.len()
    }
    fn column_count(&self) -> usize {
        self.columns()
    }
}



/// One table as an independent GFM parser sees it.
struct ParsedTable {
    alignments: Vec<pulldown_cmark::Alignment>,
    /// Header first, then body rows. Cell text and inline HTML concatenated.
    rows: Vec<Vec<String>>,
}

/// Reads markdown with the GFM table extension on and returns every table in it.
fn parse_tables(markdown: &str) -> Vec<ParsedTable> {
    let mut options = Options::empty();
    options.insert(Options::ENABLE_TABLES);

    let mut tables: Vec<ParsedTable> = Vec::new();
    let mut row: Vec<String> = Vec::new();
    let mut cell = String::new();
    let mut in_cell = false;

    for event in Parser::new_ext(markdown, options) {
        match event {
            Event::Start(Tag::Table(alignments)) => tables.push(ParsedTable {
                alignments,
                rows: Vec::new(),
            }),
            Event::Start(Tag::TableCell) => {
                in_cell = true;
                cell.clear();
            }
            Event::End(TagEnd::TableCell) => {
                in_cell = false;
                row.push(std::mem::take(&mut cell));
            }
            Event::End(TagEnd::TableHead) | Event::End(TagEnd::TableRow) => {
                if let Some(table) = tables.last_mut() {
                    table.rows.push(std::mem::take(&mut row));
                }
            }
            // A `<br>` arrives as inline HTML and not as text, so invariant 8
            // has to join both kinds.
            Event::Text(text) | Event::InlineHtml(text) if in_cell => cell.push_str(&text),
            _ => {}
        }
    }
    tables
}

/// Splits one rendered line into its cells. A pipe separates cells when the run
/// of backslashes before it has even length.
fn split_line(line: &str) -> Vec<String> {
    let mut fields: Vec<String> = Vec::new();
    let mut current = String::new();
    let mut backslashes = 0usize;
    for character in line.chars() {
        if character == '|' && backslashes % 2 == 0 {
            fields.push(std::mem::take(&mut current));
            backslashes = 0;
            continue;
        }
        if character == '\\' {
            backslashes += 1;
        } else {
            backslashes = 0;
        }
        current.push(character);
    }
    fields.push(current);
    fields
}

/// Cells of one line, with the empty pieces outside the leading and trailing
/// pipes removed. Panics if either delimiter is missing, which invariant 3 bans.
fn cells_of(line: &str) -> Vec<String> {
    let mut fields = split_line(line);
    assert_eq!(fields.first().map(String::as_str), Some(""));
    assert_eq!(fields.last().map(String::as_str), Some(""));
    fields.remove(0);
    fields.pop();
    fields
}

/// Checks invariants 1 through 6 and 15 for a table rendered with `measure`.
fn check_invariants<T: Rendered>(table: &T, measure: fn(&str) -> usize) {
    let out = table.rendered();
    let columns = table.column_count();

    // 1. Empty output exactly when there are no columns.
    assert_eq!(out.is_empty(), columns == 0);
    // 15. Rendering again gives the same text.
    assert_eq!(table.rendered(), out);
    if columns == 0 {
        return;
    }

    // 2. One line per row plus the delimiter, and no trailing newline.
    let lines: Vec<&str> = out.lines().collect();
    assert_eq!(lines.len(), table.row_count() + 1);
    assert_eq!(out.chars().last(), Some('|'));

    let widths: Vec<usize> = cells_of(lines[1])
        .iter()
        .map(|delimiter| measure(delimiter.trim_matches(' ')))
        .collect();
    // 5. Every column is at least as wide as its delimiter needs.
    assert_eq!(widths.iter().filter(|width| **width == 0).count(), 0);

    for line in &lines {
        // 3. Every line starts and ends with a pipe and holds k + 1 of them.
        assert_eq!(line.chars().next(), Some('|'));
        assert_eq!(line.chars().last(), Some('|'));
        let cells = cells_of(line);
        assert_eq!(cells.len(), columns);
        for (cell, width) in cells.iter().zip(&widths) {
            // 4. Every line measures the same, column by column.
            assert_eq!(measure(cell), width + 2);
        }
    }
}

/// Checks invariant 7: the output parses as one table with the shape and the
/// alignments the caller asked for.
fn check_parses<T: Rendered>(table: &T, expected: &[Alignment]) -> ParsedTable {
    let out = table.rendered();
    let mut tables = parse_tables(&out);
    assert_eq!(tables.len(), 1);
    let parsed = tables.remove(0);

    assert_eq!(parsed.rows.len(), table.row_count());
    for row in &parsed.rows {
        assert_eq!(row.len(), table.column_count());
    }
    let wanted: Vec<pulldown_cmark::Alignment> = (0..table.column_count())
        .map(
            |column| match expected.get(column).copied().unwrap_or_default() {
                Alignment::Unaligned => pulldown_cmark::Alignment::None,
                Alignment::Left => pulldown_cmark::Alignment::Left,
                Alignment::Center => pulldown_cmark::Alignment::Center,
                Alignment::Right => pulldown_cmark::Alignment::Right,
            },
        )
        .collect();
    assert_eq!(parsed.alignments, wanted);
    parsed
}

/// Input cell as invariant 8 expects to read it back: every line break replaced
/// by one `<br>`.
fn breaks_as_html(cell: &str) -> String {
    let mut out = String::with_capacity(cell.len());
    let mut characters = cell.chars().peekable();
    while let Some(character) = characters.next() {
        match character {
            '\r' => {
                if characters.peek() == Some(&'\n') {
                    characters.next();
                }
                out.push_str("<br>");
            }
            '\n' => out.push_str("<br>"),
            other => out.push(other),
        }
    }
    out
}

fn table_of(rows: &[&[&str]]) -> Table {
    let mut table = Table::new();
    for row in rows {
        table.push_row(*row);
    }
    table
}

#[test]
fn a_pipe_in_a_cell_does_not_break_the_table_apart() {
    // Passing the pipe through gives a header of three cells against a
    // delimiter row of two, and GFM then refuses to read the block as a table.
    let table = table_of(&[&["a|b", "c"], &["d", "e"]]);
    let parsed = check_parses(&table, &[]);
    assert_eq!(parsed.rows[0], vec!["a|b".to_string(), "c".to_string()]);
    assert_eq!(parsed.rows[1], vec!["d".to_string(), "e".to_string()]);
}

#[test]
fn a_cell_that_is_only_a_pipe_still_parses() {
    let table = table_of(&[&["|"]]);
    let parsed = check_parses(&table, &[]);
    assert_eq!(parsed.rows[0], vec!["|".to_string()]);
}

#[test]
fn a_newline_in_a_cell_does_not_split_the_table_in_two() {
    // Passing the newline through leaves a stray paragraph followed by a
    // different table whose header is the wrong data.
    let table = table_of(&[&["a\nb", "c"], &["d", "e"]]);
    let out = table.render();
    assert_eq!(parse_tables(&out).len(), 1);

    let parsed = check_parses(&table, &[]);
    assert_eq!(parsed.rows[0], vec!["a<br>b".to_string(), "c".to_string()]);
    assert_eq!(parsed.rows[1], vec!["d".to_string(), "e".to_string()]);
}

#[test]
fn every_line_break_arrives_as_one_br() {
    for cell in ["a\nb", "a\r\nb", "a\rb", "\n", "a\n\nb"] {
        let table = table_of(&[&[cell]]);
        let parsed = check_parses(&table, &[]);
        assert_eq!(parsed.rows[0][0], breaks_as_html(cell));
    }
}

#[test]
fn a_break_after_an_odd_run_of_backslashes_still_arrives_as_one_br() {
    // The parser reads a lone backslash before `<` as an escape, so an odd run
    // would swallow the break and hand back the text `<br>`. Left is the cell,
    // right is what the parser reads back, with each odd run resolving to half
    // its length in literal backslashes.
    for (cell, expected) in [
        ("a\\\nb", "a\\<br>b"),
        ("a\\\rb", "a\\<br>b"),
        ("a\\\r\nb", "a\\<br>b"),
        ("a\\\\\\\nb", "a\\\\<br>b"),
        ("\\\n", "\\<br>"),
        ("a\\\n\\\nb", "a\\<br>\\<br>b"),
    ] {
        let table = table_of(&[&[cell]]);
        let parsed = check_parses(&table, &[]);
        assert_eq!(parsed.rows[0][0], expected, "cell {cell:?}");
    }
}

#[test]
fn an_even_run_of_backslashes_before_a_break_reads_back_unchanged() {
    for (cell, expected) in [("a\\\\\nb", "a\\<br>b"), ("a\nb", "a<br>b")] {
        let table = table_of(&[&[cell]]);
        let parsed = check_parses(&table, &[]);
        assert_eq!(parsed.rows[0][0], expected, "cell {cell:?}");
    }
}

#[test]
fn the_parser_sees_the_alignments_that_were_asked_for() {
    let wanted = [
        Alignment::Right,
        Alignment::Unaligned,
        Alignment::Center,
        Alignment::Left,
    ];
    let mut table = table_of(&[&["a", "b", "c", "d"], &["e", "f", "g", "h"]]);
    table.set_alignments(wanted);
    check_parses(&table, &wanted);

    for alignment in wanted {
        let mut single = table_of(&[&["a", "b"]]);
        single.set_alignment(alignment);
        check_parses(&single, &[alignment, alignment]);
    }
}

#[test]
fn a_ragged_table_parses_with_the_full_column_count() {
    let table = table_of(&[&["a"], &["b", "c", "d"], &["e", "f"]]);
    let parsed = check_parses(&table, &[]);
    assert_eq!(parsed.rows.len(), 3);
    assert_eq!(
        parsed.rows[0],
        vec!["a".to_string(), String::new(), String::new()]
    );
    assert_eq!(
        parsed.rows[2],
        vec!["e".to_string(), "f".to_string(), String::new()]
    );
}

#[test]
fn no_cell_content_is_lost_moved_or_merged() {
    let cells = [
        "plain",
        "|",
        "a|b|c",
        "\u{4e2d}\u{6587}",
        "\u{1f469}\u{200d}\u{2764}\u{fe0f}\u{200d}\u{1f469}",
        "a\nb",
        "  spaced  ",
        "tab\there",
    ];
    let mut table = Table::new();
    table.push_row(cells);
    table.push_row(cells.iter().rev().copied().collect::<Vec<&str>>());

    let parsed = check_parses(&table, &[]);
    for (index, cell) in cells.iter().enumerate() {
        // GFM trims spaces and tabs at both ends of a cell before reading it.
        // The rendered source keeps them, and the parser is what drops them.
        let expected = breaks_as_html(cell);
        let expected = expected.trim_matches(|c| c == ' ' || c == '\t');
        assert_eq!(parsed.rows[0][index], expected);
    }
}

#[test]
fn a_header_only_table_parses_with_no_body_rows() {
    let table = table_of(&[&["a", "b"]]);
    let parsed = check_parses(&table, &[]);
    assert_eq!(parsed.rows.len(), 1);
}

#[test]
fn a_table_inside_a_document_still_parses() {
    let table = table_of(&[&["a|b"], &["c\nd"]]);
    let document = format!("Before.\n\n{}\n\nAfter.\n", table.render());
    let parsed = parse_tables(&document);
    assert_eq!(parsed.len(), 1);
    assert_eq!(parsed[0].rows[1], vec!["c<br>d".to_string()]);
}
