//! Every behavioural sentence in the README, executed. A claim with no test
//! here is a claim to delete.

use gfm_table::{escape_cell, Alignment, Table};

/// The output block of the README example.
const README_EXAMPLE_OUTPUT: &str = "| package   | downloads |\n| :-------- | --------: |\n| gfm-table |      1\\|2 |";

#[test]
fn the_readme_example_renders_the_output_the_readme_shows() {
    let mut table = Table::new();
    table.push_row(["package", "downloads"]);
    table.push_row(["gfm-table", "1|2"]);
    table.set_alignments([Alignment::Left, Alignment::Right]);

    assert_eq!(table.render(), README_EXAMPLE_OUTPUT);
}

#[test]
fn a_pipe_becomes_an_escaped_pipe_and_a_break_becomes_br() {
    assert_eq!(escape_cell("|"), "\\|");
    assert_eq!(escape_cell("\n"), "<br>");
    assert_eq!(escape_cell("\r\n"), "<br>");
    assert_eq!(escape_cell("\r"), "<br>");
}

#[test]
fn escaping_twice_is_the_same_as_escaping_once_and_only_a_break_adds_a_backslash() {
    let once = escape_cell("a|b\\|c").into_owned();
    assert_eq!(once, "a\\|b\\|c");
    assert_eq!(escape_cell(&once), once);
    assert_eq!(escape_cell("\\\\"), "\\\\");
    assert_eq!(escape_cell("a\\\nb"), "a\\\\<br>b");
}

#[test]
fn backticks_angle_brackets_html_and_leading_hashes_pass_through() {
    for cell in ["`code`", "<b>", "<b>bold</b>", "# heading"] {
        assert_eq!(escape_cell(cell), cell);
    }
}

#[test]
fn there_is_no_trailing_newline_to_strip() {
    let mut table = Table::new();
    table.push_row(["a"]);
    assert_eq!(table.render().chars().last(), Some('|'));
}

#[test]
fn the_default_measure_counts_char_values() {
    let mut table = Table::new();
    table.push_row(["\u{4e2d}\u{6587}"]);
    assert_eq!(table.render(), "| \u{4e2d}\u{6587} |\n| -- |");
}

#[test]
fn no_input_is_left_without_an_output() {
    // "no input that has no output": every shape renders, including the ones
    // that render to nothing.
    let empty: &[&str] = &[];
    let mut table = Table::new();
    assert_eq!(table.render(), "");
    table.push_row(empty);
    assert_eq!(table.render(), "");
    // The empty row pushed above is the header, so it widens to the body row.
    table.push_row(["\u{0}|\r\n"]);
    assert_eq!(table.render(), "|         |\n| ------- |\n| \u{0}\\|<br> |");
}
