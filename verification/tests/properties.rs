//! The laws the library proves, each checked on concrete tables, and the
//! entry points that take measurements from the caller.

use std::borrow::Cow;
use std::cell::RefCell;

use gfm_table::{escape_cell, Alignment, Table};

fn table_of(rows: &[&[&str]]) -> Table {
    let mut table = Table::new();
    for row in rows {
        table.push_row(*row);
    }
    table
}

#[test]
fn escaped_text_holds_no_break_and_no_unescaped_pipe() {
    for cell in ["a|b\nc", "\\|\r\n|", "\\\\|\\", "x\r\ry", "|||"] {
        let once = escape_cell(cell).into_owned();
        assert!(!once.contains('\n'));
        assert!(!once.contains('\r'));
        let mut run = 0usize;
        for character in once.chars() {
            if character == '|' {
                assert_eq!(run % 2, 1, "unescaped pipe in {once:?}");
            }
            run = if character == '\\' { run + 1 } else { 0 };
        }
        assert_eq!(escape_cell(&once), once);
    }
}

#[test]
fn a_break_after_a_carriage_return_writes_nothing_of_its_own() {
    assert_eq!(escape_cell("\r\n\r"), "<br><br>");
    assert_eq!(escape_cell("\\\r\n\\\n"), "\\\\<br>\\\\<br>");
}

#[test]
fn a_cell_without_pipe_or_break_is_borrowed_unchanged() {
    match escape_cell("plain \\ text") {
        Cow::Borrowed(text) => assert_eq!(text, "plain \\ text"),
        Cow::Owned(_) => panic!("a plain cell was rewritten"),
    }
}

#[test]
fn every_line_starts_and_ends_with_a_pipe_and_has_one_length() {
    let mut table = table_of(&[&["name", "a|b", "x"], &["\u{4e2d}", "c\nd"], &[]]);
    table.set_alignments([Alignment::Center, Alignment::Right]);
    let out = table.render();
    let lines: Vec<&str> = out.split('\n').collect();
    assert_eq!(lines.len(), table.len() + 1);
    for line in &lines {
        assert!(line.starts_with('|'));
        assert!(line.ends_with('|'));
        assert_eq!(line.chars().count(), lines[1].chars().count());
    }
}

#[test]
fn nothing_renders_exactly_when_there_are_no_columns() {
    let empty: &[&str] = &[];
    let mut table = Table::new();
    assert_eq!(table.render(), "");
    table.push_row(empty);
    assert_eq!(table.columns(), 0);
    assert_eq!(table.render(), "");
    table.push_row([""]);
    assert_eq!(table.columns(), 1);
    assert_eq!(table.render(), "|   |\n| - |\n|   |");
}

#[test]
fn one_alignment_renders_like_the_same_alignment_listed_per_column() {
    let mut every = table_of(&[&["a", "bb", "ccc"], &["dddd"]]);
    every.set_alignment(Alignment::Right);
    let mut listed = table_of(&[&["a", "bb", "ccc"], &["dddd"]]);
    listed.set_alignments([Alignment::Right, Alignment::Right, Alignment::Right]);
    assert_eq!(every.render(), listed.render());
    assert_eq!(
        every.render(),
        "|    a | bb | ccc |\n| ---: | -: | --: |\n| dddd |    |     |"
    );
}

#[test]
fn pushing_escaped_cells_escapes_nothing_twice() {
    let raw = ["a|b", "c\r\nd", "e\\|f"];
    let escaped: Vec<String> = raw.iter().map(|cell| escape_cell(cell).into_owned()).collect();
    let mut from_raw = Table::new();
    from_raw.push_row(raw);
    let mut from_escaped = Table::new();
    from_escaped.push_row(&escaped);
    assert_eq!(from_raw.render(), from_escaped.render());
    assert_eq!(
        from_raw.render(),
        "| a\\|b | c<br>d | e\\|f |\n| ---- | ------ | ---- |"
    );
}

#[test]
fn a_row_that_widens_nothing_adds_exactly_one_line() {
    let mut table = table_of(&[&["alpha", "beta"], &["x", "y"]]);
    let before = table.render();
    table.push_row(["z"]);
    let after = table.render();
    assert_eq!(after, format!("{before}\n| z     |      |"));
}

#[test]
fn a_row_that_widens_a_column_changes_every_line() {
    let mut table = table_of(&[&["a", "b"]]);
    let before = table.render();
    table.push_row(["wide", "b"]);
    let after = table.render();
    assert!(!after.starts_with(&before));
    assert_eq!(after, "| a    | b |\n| ---- | - |\n| wide | b |");
}

#[test]
fn byte_lengths_measure_ascii_like_characters() {
    let table = table_of(&[&["ab", "c|d"], &["e\nf", "ghi"]]);
    let characters = table.render();
    assert_eq!(table.with_cell_width(str::len).render(), characters);
}

#[test]
fn measurements_from_the_caller_decide_the_widths() {
    let table = table_of(&[&["ab", "c"], &["d"]]);
    let measured = vec![vec![1, 3], vec![0]];
    assert_eq!(
        table.render_measured(&measured),
        "| ab | c |\n| - | - |\n| d  |   |"
    );
    assert_eq!(table.render(), "| ab | c |\n| -- | - |\n| d  |   |");
}

#[test]
fn a_measurement_beyond_the_byte_length_is_clamped() {
    let table = table_of(&[&["\u{e9}", "x"]]);
    let measured = vec![vec![usize::MAX, 100]];
    assert_eq!(table.render_measured(&measured), "| \u{e9} | x |\n| -- | - |");
}

#[test]
fn the_default_measure_is_the_measurement_of_every_cell_by_characters() {
    let table = table_of(&[&["\u{4e2d}\u{6587}", "\u{1f600}"], &["abc"]]);
    let measured = vec![vec![2, 1], vec![3]];
    assert_eq!(table.render_measured(&measured), table.render());
}

#[test]
fn a_custom_measure_runs_on_the_escaped_cells() {
    let mut table = Table::new();
    table.push_row(["a|b"]);
    let table = table.with_cell_width(|cell: &str| if cell == "a\\|b" { 3 } else { 0 });
    assert_eq!(table.render(), "| a\\|b |\n| --- |");
}

#[test]
fn rows_collected_at_once_equal_rows_pushed_one_by_one() {
    let rows = vec![vec!["h1", "h2"], vec!["a|b"], vec!["c", "d", "e"]];
    let collected = Table::from_rows(&rows);
    let mut pushed = Table::new();
    for row in &rows {
        pushed.push_row(row);
    }
    assert_eq!(collected.render(), pushed.render());
    assert_eq!(collected.len(), 3);
    assert_eq!(collected.columns(), 3);
}

#[test]
fn debug_text_quotes_cells_and_names_the_alignments() {
    let mut table = table_of(&[&["a\"b", "\u{7}"], &[]]);
    assert_eq!(
        table.debug_text(),
        "Table { rows: [[\"a\\\"b\", \"\\u{7}\"], []], alignments: Every(None), .. }"
    );
    table.set_alignments([Alignment::Left, Alignment::Center]);
    assert_eq!(
        table.debug_text(),
        "Table { rows: [[\"a\\\"b\", \"\\u{7}\"], []], alignments: PerColumn([Left, Center]), .. }"
    );
}

#[test]
fn alignments_order_as_declared() {
    let mut list = vec![Alignment::Right, Alignment::Unaligned, Alignment::Center, Alignment::Left];
    list.sort();
    assert_eq!(
        list,
        vec![Alignment::Unaligned, Alignment::Left, Alignment::Center, Alignment::Right]
    );
}

#[test]
fn a_cloned_table_renders_the_same_and_is_independent() {
    let mut table = table_of(&[&["a", "b"]]);
    let copy = table.clone();
    table.push_row(["c"]);
    assert_eq!(copy.render(), "| a | b |\n| - | - |");
    assert_eq!(table.len(), 2);
    assert_eq!(copy.len(), 1);
}

#[test]
fn setting_the_same_kind_of_measure_keeps_rows_and_alignments() {
    fn bytes(cell: &str) -> usize {
        cell.len()
    }
    fn twice(cell: &str) -> usize {
        2 * cell.len()
    }
    let mut table = table_of(&[&["ab"]]).with_cell_width(bytes as fn(&str) -> usize);
    table.set_alignment(Alignment::Left);
    assert_eq!(table.render(), "| ab |\n| :- |");
    table.set_cell_width(twice);
    assert_eq!(table.render(), "| ab |\n| :- |");
    assert_eq!(table.len(), 1);
}

/// Splits a line at its unescaped pipes.
fn fields_of(line: &str) -> Vec<String> {
    let mut fields = vec![String::new()];
    let mut run = 0usize;
    for character in line.chars() {
        if character == '|' && run % 2 == 0 {
            fields.push(String::new());
        } else {
            fields.last_mut().unwrap().push(character);
        }
        run = if character == '\\' { run + 1 } else { 0 };
    }
    fields
}

#[test]
fn each_line_splits_into_one_field_per_column() {
    let mut table = table_of(&[&["a|b", "\\|", "\\\\|"], &["|", "x\ny"]]);
    table.set_alignments([Alignment::Right, Alignment::Center]);
    let out = table.render();
    let lines: Vec<&str> = out.split('\n').collect();
    assert_eq!(fields_of(lines[0]), vec!["", " a\\|b ", "   \\|   ", " \\\\\\| ", ""]);
    assert_eq!(fields_of(lines[1]), vec!["", " ---: ", " :----: ", " ---- ", ""]);
    assert_eq!(fields_of(lines[2]), vec!["", "   \\| ", " x<br>y ", "      ", ""]);
}

#[test]
fn setting_a_new_measure_changes_the_widths_a_render_uses() {
    fn nothing(_: &str) -> usize {
        0
    }
    fn bytes(cell: &str) -> usize {
        cell.len()
    }
    let mut table = table_of(&[&["a", "bb"], &["cccc", "d"]]).with_cell_width(nothing as fn(&str) -> usize);
    // A measure of zero makes every cell look empty, so no column widens.
    assert_eq!(table.render(), "| a  | bb  |\n| - | - |\n| cccc  | d  |");
    table.set_cell_width(bytes);
    assert_eq!(table.render(), "| a    | bb |\n| ---- | -- |\n| cccc | d  |");
    table.set_cell_width(nothing);
    assert_eq!(table.render(), "| a  | bb  |\n| - | - |\n| cccc  | d  |");
}

#[test]
fn the_measure_sees_each_stored_cell_as_escaped() {
    let seen: RefCell<Vec<String>> = RefCell::new(Vec::new());
    let table = table_of(&[&["a|b", "x\ny"], &["z"]]).with_cell_width(|cell: &str| {
        seen.borrow_mut().push(cell.to_string());
        cell.chars().count()
    });
    let out = table.render();
    assert_eq!(out, "| a\\|b | x<br>y |\n| ---- | ------ |\n| z    |        |");
    assert_eq!(*seen.borrow(), vec!["a\\|b", "x<br>y", "z"]);
}

#[test]
fn a_measure_that_gives_one_answer_per_text_renders_the_same_every_time() {
    let table = table_of(&[&["\u{e9}t\u{e9}", "b"], &["c", "\u{1f600}"]])
        .with_cell_width(|cell: &str| cell.len());
    let first = table.render();
    assert_eq!(table.render(), first);
    assert_eq!(first, "| \u{e9}t\u{e9} | b    |\n| ----- | ---- |\n| c     | \u{1f600} |");
}

#[test]
fn utf16_units_and_bytes_measure_ascii_like_characters() {
    let rows: &[&[&str]] = &[&["ab", "a|b"], &["abcdef", ""], &[" "]];
    let characters = table_of(rows).render();
    let mut table = table_of(rows).with_cell_width(utf16_units as fn(&str) -> usize);
    assert_eq!(table.render(), characters);
    table.set_cell_width(byte_length);
    assert_eq!(table.render(), characters);
}

fn utf16_units(cell: &str) -> usize {
    cell.encode_utf16().count()
}

fn byte_length(cell: &str) -> usize {
    cell.len()
}

#[test]
fn a_new_row_never_narrows_a_header_field() {
    let header_fields = |table: &Table| -> Vec<usize> {
        let out = table.render();
        let first = out.lines().next().unwrap().to_string();
        first
            .trim_start_matches('|')
            .trim_end_matches('|')
            .split('|')
            .map(|field| field.chars().count())
            .collect()
    };
    let mut table = table_of(&[&["a", "bb", "c"], &["dd"]]);
    assert_eq!(header_fields(&table), vec![4, 4, 3]);
    table.push_row(["wide cell"]);
    assert_eq!(header_fields(&table), vec![11, 4, 3]);
    table.push_row(["", "", "", "x"]);
    assert_eq!(header_fields(&table), vec![11, 4, 3, 3]);
}

#[test]
fn every_added_row_counts_empty_ones_too() {
    let mut table = Table::new();
    let no_cells: [&str; 0] = [];
    table.push_row(no_cells);
    table.push_row(["a"]);
    table.push_row(no_cells);
    assert_eq!(table.len(), 3);
    table.extend_rows(&[vec!["b"], vec![]]);
    assert_eq!(table.len(), 5);
}

#[test]
fn an_unaligned_column_prints_as_none() {
    let mut table = table_of(&[&["a", "b"]]);
    table.set_alignments([Alignment::Unaligned, Alignment::Right]);
    assert_eq!(
        table.debug_text(),
        "Table { rows: [[\"a\", \"b\"]], alignments: PerColumn([None, Right]), .. }"
    );
}

#[test]
fn the_output_length_has_a_closed_form() {
    // (3k + 1 + sum of widths) * (n + 1) + bytes - measured + n
    let ascii = table_of(&[&["ab", "c"], &["d"]]).render();
    assert_eq!(ascii, "| ab | c |\n| -- | - |\n| d  |   |");
    assert_eq!(ascii.len(), (3 * 2 + 1 + 3) * 3 + 4 - 4 + 2);
    let accented = table_of(&[&["\u{e9}"]]).render();
    assert_eq!(accented.len(), (3 + 1 + 1) * 2 + 2 - 1 + 1);
    assert_eq!(table_of(&[&[]]).render().len(), 0);
}
