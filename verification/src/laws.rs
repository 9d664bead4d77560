//! What holds of every rendered table, stated over the models that the
//! functions' own contracts use.

use vstd::prelude::*;

use crate::escape::{
    backslash_run, escaped_at, escaping_is_idempotent, is_cell_text, lemma_backslash_run_prefix,
};
use crate::render::{
    body_lines, cell_field, cell_text, left_fill, clamped, column_widths, delimiter_fields,
    delimiter_fields_len, delimiter_line, delimiter_text, grid_of, lemma_rows_fit, lines_through,
    row_fields, row_fits, row_line, same_shape, table_text, widest, Grid, fields_len, rows_len,
    text_len, lemma_text_len, lemma_body_len_as_rows_len,
};
use crate::table::{
    all_measured_by, measured_by, char_widths, column_count, escaped_cells, lemma_column_count_bounds, min_width, Alignment,
    AlignmentChoice, TableModel,
};
use crate::text::{
    is_ascii_char, lemma_utf8_len_ascii, lemma_utf8_len_at_least_chars, repeat_char, utf8_len,
};

verus! {

/// `lines` joined by `\n`, with no newline at the end.
pub open spec fn joined_lines(lines: Seq<Seq<char>>) -> Seq<char>
    decreases lines.len(),
{
    if lines.len() == 0 {
        Seq::empty()
    } else if lines.len() == 1 {
        lines[0]
    } else {
        joined_lines(lines.drop_last()) + seq!['\n'] + lines.last()
    }
}

/// The lines of a rendered table: the header, the delimiter row, then every
/// other row.
pub open spec fn table_lines(g: Grid) -> Seq<Seq<char>> {
    let widths = column_widths(g);
    Seq::new(
        g.rows + 1,
        |i: int|
            if i == 0 {
                row_line(g, widths, 0)
            } else if i == 1 {
                delimiter_line(g.aligns, widths)
            } else {
                row_line(g, widths, i - 1)
            },
    )
}

/// No character of `s` is a newline.
pub open spec fn single_line(s: Seq<char>) -> bool {
    forall|j: int| 0 <= j < s.len() ==> #[trigger] s[j] != '\n'
}

/// The lines of the table for rows `0..n`, joined.
proof fn lemma_lines_through_joined(g: Grid, n: int)
    requires
        1 <= n <= g.rows,
    ensures
        lines_through(g, column_widths(g), n) == joined_lines(table_lines(g).subrange(0, n + 1)),
    decreases n,
{
    let widths = column_widths(g);
    let lines = table_lines(g);
    if n == 1 {
        let two = lines.subrange(0, 2);
        assert(two.drop_last() =~= seq![lines[0]]);
        assert(joined_lines(two.drop_last()) == lines[0]);
        assert(lines_through(g, widths, 1) =~= joined_lines(two));
    } else {
        lemma_lines_through_joined(g, n - 1);
        let more = lines.subrange(0, n + 1);
        assert(more.drop_last() =~= lines.subrange(0, n));
        assert(more.last() == row_line(g, widths, n - 1));
        assert(body_lines(g, widths, n) == body_lines(g, widths, n - 1) + seq!['\n'] + row_line(
            g,
            widths,
            n - 1,
        ));
        assert(lines_through(g, widths, n) =~= lines_through(g, widths, n - 1) + seq!['\n']
            + row_line(g, widths, n - 1));
    }
}

proof fn lemma_row_fields_single_line(g: Grid, widths: Seq<nat>, r: int, k: int)
    requires
        0 <= k <= g.aligns.len(),
        forall|c: int| 0 <= c < k ==> single_line(#[trigger] (g.text)(r, c)),
    ensures
        single_line(row_fields(g, widths, r, k)),
    decreases k,
{
    if k > 0 {
        lemma_row_fields_single_line(g, widths, r, k - 1);
        let prev = row_fields(g, widths, r, k - 1);
        let text = (g.text)(r, k - 1);
        let field = cell_field(text, (g.measured)(r, k - 1), widths[k - 1], g.aligns[k - 1]);
        assert(single_line(text));
        assert forall|j: int| 0 <= j < field.len() implies #[trigger] field[j] != '\n' by {
            let fill: nat = if (g.measured)(r, k - 1) <= widths[k - 1] {
                (widths[k - 1] - (g.measured)(r, k - 1)) as nat
            } else {
                0
            };
            let left = crate::render::left_fill(g.aligns[k - 1], fill);
            let a = seq![' '] + repeat_char(' ', left);
            let b = a + text;
            let c = b + repeat_char(' ', (fill - left) as nat);
            if j < a.len() {
                if j > 0 {
                    assert(a[j] == repeat_char(' ', left)[j - 1]);
                }
            } else if j < b.len() {
                assert(field[j] == text[j - a.len()]);
            } else if j < c.len() {
                assert(field[j] == repeat_char(' ', (fill - left) as nat)[j - b.len()]);
            }
        }
        assert forall|j: int| 0 <= j < (prev + field).len() implies #[trigger] (prev + field)[j]
            != '\n' by {
            if j < prev.len() {
                assert((prev + field)[j] == prev[j]);
            } else {
                assert((prev + field)[j] == field[j - prev.len()]);
            }
        }
    }
}

proof fn lemma_delimiter_fields_single_line(aligns: Seq<Alignment>, widths: Seq<nat>, k: int)
    requires
        0 <= k <= widths.len() <= aligns.len(),
    ensures
        single_line(delimiter_fields(aligns, widths, k)),
    decreases k,
{
    if k > 0 {
        lemma_delimiter_fields_single_line(aligns, widths, k - 1);
        let prev = delimiter_fields(aligns, widths, k - 1);
        let d = delimiter_text(aligns[k - 1], widths[k - 1]);
        assert forall|j: int| 0 <= j < d.len() implies #[trigger] d[j] != '\n' by {
            match aligns[k - 1] {
                Alignment::Unaligned => {},
                Alignment::Left => {
                    if j > 0 {
                        assert(d[j] == repeat_char('-', (widths[k - 1] - 1) as nat)[j - 1]);
                    }
                },
                Alignment::Right => {
                    if j < d.len() - 1 {
                        assert(d[j] == repeat_char('-', (widths[k - 1] - 1) as nat)[j]);
                    }
                },
                Alignment::Center => {
                    if 0 < j < d.len() - 1 {
                        assert(d[j] == repeat_char('-', (widths[k - 1] - 2) as nat)[j - 1]);
                    }
                },
            }
        }
        let whole = prev + seq![' '] + d + seq![' ', '|'];
        assert forall|j: int| 0 <= j < whole.len() implies #[trigger] whole[j] != '\n' by {
            if j < prev.len() {
                assert(whole[j] == prev[j]);
            } else if j == prev.len() {
            } else if j < prev.len() + 1 + d.len() {
                assert(whole[j] == d[j - prev.len() - 1]);
            }
        }
    }
}

/// A row line, or the delimiter line, starts and ends with a pipe.
pub open spec fn pipe_delimited(line: Seq<char>) -> bool {
    line.len() >= 2 && line[0] == '|' && line.last() == '|'
}

/// How a rendered table is laid out in lines.
///
/// A table with columns renders as one line per row plus the delimiter row,
/// joined by `\n` with no newline at the end. Every line starts and ends with
/// a pipe. When every cell is safe cell text, as every cell of a [`Table`]
/// is, no line holds a newline, so splitting the output at `\n` gives back
/// exactly these lines.
///
/// [`Table`]: crate::Table
pub proof fn rendered_table_is_lines(g: Grid)
    requires
        g.aligns.len() > 0,
        g.rows > 0,
    ensures
        table_text(g) == joined_lines(table_lines(g)),
        table_lines(g).len() == g.rows + 1,
        forall|i: int| 0 <= i < table_lines(g).len() ==> pipe_delimited(#[trigger] table_lines(g)[i]),
        (forall|r: int, c: int|
            0 <= r < g.rows && 0 <= c < g.aligns.len() ==> !has_newline(#[trigger] (g.text)(r, c)))
            ==> forall|i: int| 0 <= i < table_lines(g).len() ==> single_line(
            #[trigger] table_lines(g)[i],
        ),
{
    let widths = column_widths(g);
    let lines = table_lines(g);
    lemma_lines_through_joined(g, g.rows as int);
    assert(lines.subrange(0, g.rows + 1 as int) =~= lines);
    assert forall|i: int| 0 <= i < lines.len() implies pipe_delimited(#[trigger] lines[i]) by {
        let k = widths.len() as int;
        if i == 1 {
            let fields = delimiter_fields(g.aligns, widths, k);
            assert(fields == delimiter_fields(g.aligns, widths, k - 1) + seq![' '] + delimiter_text(
                g.aligns[k - 1],
                widths[k - 1],
            ) + seq![' ', '|']);
            assert(lines[i] == seq!['|'] + fields);
        } else {
            let r = if i == 0 {
                0
            } else {
                i - 1
            };
            let fields = row_fields(g, widths, r, k);
            assert(fields == row_fields(g, widths, r, k - 1) + cell_field(
                (g.text)(r, k - 1),
                (g.measured)(r, k - 1),
                widths[k - 1],
                g.aligns[k - 1],
            ));
            assert(lines[i] == seq!['|'] + fields);
        }
    }
    if forall|r: int, c: int|
        0 <= r < g.rows && 0 <= c < g.aligns.len() ==> !has_newline(#[trigger] (g.text)(r, c)) {
        assert forall|i: int| 0 <= i < lines.len() implies single_line(#[trigger] lines[i]) by {
            let k = widths.len() as int;
            let body = if i == 1 {
                lemma_delimiter_fields_single_line(g.aligns, widths, k);
                delimiter_fields(g.aligns, widths, k)
            } else {
                let r = if i == 0 {
                    0
                } else {
                    i - 1
                };
                assert forall|c: int| 0 <= c < k implies single_line(#[trigger] (g.text)(r, c)) by {
                    assert(!has_newline((g.text)(r, c)));
                }
                lemma_row_fields_single_line(g, widths, r, k);
                row_fields(g, widths, r, k)
            };
            assert(lines[i] == seq!['|'] + body);
            assert forall|j: int| 0 <= j < lines[i].len() implies #[trigger] lines[i][j]
                != '\n' by {
                if j > 0 {
                    assert(lines[i][j] == body[j - 1]);
                }
            }
        }
    }
}

/// `s` holds a newline.
pub open spec fn has_newline(s: Seq<char>) -> bool {
    exists|j: int| 0 <= j < s.len() && s[j] == '\n'
}


proof fn lemma_row_fields_width(g: Grid, widths: Seq<nat>, r: int, k: int)
    requires
        0 <= k <= widths.len() <= g.aligns.len(),
        row_fits(g, widths, r),
        forall|c: int| 0 <= c < k ==> #[trigger] (g.measured)(r, c) == (g.text)(r, c).len(),
    ensures
        row_fields(g, widths, r, k).len() == delimiter_fields_len(widths, k),
    decreases k,
{
    if k > 0 {
        lemma_row_fields_width(g, widths, r, k - 1);
        assert((g.measured)(r, k - 1) <= widths[k - 1]);
        assert((g.measured)(r, k - 1) == (g.text)(r, k - 1).len());
    }
}

proof fn lemma_delimiter_fields_width(aligns: Seq<Alignment>, widths: Seq<nat>, k: int)
    requires
        0 <= k <= widths.len() <= aligns.len(),
        forall|c: int| 0 <= c < widths.len() ==> min_width(aligns[c]) <= #[trigger] widths[c],
    ensures
        delimiter_fields(aligns, widths, k).len() == delimiter_fields_len(widths, k),
    decreases k,
{
    if k > 0 {
        lemma_delimiter_fields_width(aligns, widths, k - 1);
        assert(min_width(aligns[k - 1]) <= widths[k - 1]);
        crate::render::lemma_delimiter_text(aligns[k - 1], widths[k - 1]);
    }
}

/// When every cell is measured by its count of characters, every line of the
/// rendered table, the delimiter row included, is the same number of
/// characters long: each column is padded to one width on every line.
pub proof fn lines_are_equally_long(g: Grid)
    requires
        g.aligns.len() > 0,
        g.rows > 0,
        forall|r: int, c: int| #[trigger] (g.measured)(r, c) == (g.text)(r, c).len(),
    ensures
        forall|i: int|
            0 <= i < table_lines(g).len() ==> (#[trigger] table_lines(g)[i]).len()
                == table_lines(g)[1].len(),
{
    let widths = column_widths(g);
    let k = widths.len() as int;
    let lines = table_lines(g);
    assert forall|c: int| 0 <= c < widths.len() implies min_width(g.aligns[c])
        <= #[trigger] widths[c] by {}
    lemma_delimiter_fields_width(g.aligns, widths, k);
    assert forall|i: int| 0 <= i < lines.len() implies (#[trigger] lines[i]).len()
        == lines[1].len() by {
        if i != 1 {
            let r = if i == 0 {
                0
            } else {
                i - 1
            };
            lemma_rows_fit(g, r);
            lemma_row_fields_width(g, widths, r, k);
        }
    }
}

/// A table renders as nothing exactly when it has no columns, whatever
/// measures its cells. Rows that are all empty do not make a table.
pub proof fn renders_nothing_exactly_without_columns(
    t: TableModel,
    measured: spec_fn(int, int) -> nat,
)
    ensures
        (t.rendered_with(measured).len() == 0) == (t.columns() == 0),
{
    let g = grid_of(t.rows, measured, t.fitted_alignments());
    if t.columns() > 0 {
        crate::table::lemma_column_count_bounds(t.rows);
        let r = choose|r: int| 0 <= r < t.rows.len() && t.rows[r].len() == t.columns();
        assert(g.rows > 0);
        lemma_lines_through_joined(g, g.rows as int);
        assert(table_text(g) == lines_through(g, column_widths(g), g.rows as int));
        assert(lines_through(g, column_widths(g), g.rows as int)[0] == '|');
    }
}


/// `rows` with every row filled out with empty cells to `columns` cells.
pub open spec fn padded_rows(rows: Seq<Seq<Seq<char>>>, columns: nat) -> Seq<Seq<Seq<char>>> {
    Seq::new(
        rows.len(),
        |r: int| rows[r] + Seq::new((columns - rows[r].len()) as nat, |i: int| Seq::<char>::empty()),
    )
}

proof fn lemma_column_count_uniform(rows: Seq<Seq<Seq<char>>>, columns: nat)
    requires
        rows.len() > 0,
        forall|r: int| 0 <= r < rows.len() ==> (#[trigger] rows[r]).len() == columns,
    ensures
        column_count(rows) == columns,
    decreases rows.len(),
{
    if rows.len() > 1 {
        assert forall|r: int| 0 <= r < rows.drop_last().len() implies (
        #[trigger] rows.drop_last()[r]).len() == columns by {
            assert(rows.drop_last()[r] == rows[r]);
        }
        lemma_column_count_uniform(rows.drop_last(), columns);
    } else {
        assert(column_count(rows.drop_last()) == 0);
    }
    assert(rows.last() == rows[rows.len() - 1]);
}

/// A ragged table renders the same as the table whose short rows are filled
/// out with empty cells to the column count.
pub proof fn ragged_rows_render_as_padded(t: TableModel)
    ensures
        t.rendered() == (TableModel {
            rows: padded_rows(t.rows, t.columns()),
            alignments: t.alignments,
        }).rendered(),
{
    let columns = t.columns();
    let padded = TableModel { rows: padded_rows(t.rows, columns), alignments: t.alignments };
    lemma_column_count_bounds(t.rows);
    assert forall|r: int| 0 <= r < padded.rows.len() implies (#[trigger] padded.rows[r]).len()
        == columns by {
        assert(t.rows[r].len() <= columns);
    }
    if t.rows.len() > 0 {
        lemma_column_count_uniform(padded.rows, columns);
    }
    assert(padded.columns() == columns);
    let g = t.grid();
    let h = padded.grid();
    assert forall|r: int, c: int| #[trigger] cell_text(t.rows, r, c) == cell_text(padded.rows, r, c) by {
        if 0 <= r < t.rows.len() && 0 <= c {
            assert(t.rows[r].len() <= columns);
            if c < t.rows[r].len() {
                assert(padded.rows[r][c] == t.rows[r][c]);
            } else if c < columns {
                assert(padded.rows[r][c] == Seq::<char>::empty());
            }
        }
    }
    assert(g.text =~= h.text);
    assert(g.measured =~= h.measured);
    assert(g.aligns =~= h.aligns);
    assert(g == h);
}

/// The per-column list `list` fitted to `columns`: cut off, or filled out with
/// `Unaligned`.
pub open spec fn fitted_list(list: Seq<Alignment>, columns: nat) -> Seq<Alignment> {
    Seq::new(columns, |c: int| if c < list.len() { list[c] } else { Alignment::Unaligned })
}

/// A per-column alignment list renders the same as the list fitted to the
/// column count: missing entries are `Unaligned` and extra entries are
/// ignored, whatever measures the cells.
pub proof fn fitting_an_alignment_list_changes_nothing(
    t: TableModel,
    list: Seq<Alignment>,
    measured: spec_fn(int, int) -> nat,
)
    ensures
        t.with_alignments(AlignmentChoice::PerColumn(list)).rendered_with(measured) == t.with_alignments(
            AlignmentChoice::PerColumn(fitted_list(list, t.columns())),
        ).rendered_with(measured),
{
    let a = t.with_alignments(AlignmentChoice::PerColumn(list));
    let b = t.with_alignments(AlignmentChoice::PerColumn(fitted_list(list, t.columns())));
    assert(a.fitted_alignments() =~= b.fitted_alignments());
}

/// One alignment for every column renders the same as listing that alignment
/// once per column.
pub proof fn one_alignment_is_the_same_in_every_column(
    t: TableModel,
    a: Alignment,
    measured: spec_fn(int, int) -> nat,
)
    ensures
        t.with_alignments(AlignmentChoice::Every(a)).rendered_with(measured) == t.with_alignments(
            AlignmentChoice::PerColumn(Seq::new(t.columns(), |c: int| a)),
        ).rendered_with(measured),
{
    let x = t.with_alignments(AlignmentChoice::Every(a));
    let y = t.with_alignments(AlignmentChoice::PerColumn(Seq::new(t.columns(), |c: int| a)));
    assert(x.fitted_alignments() =~= y.fitted_alignments());
}

/// The later alignment call replaces the earlier one.
pub proof fn a_later_alignment_replaces_an_earlier_one(
    t: TableModel,
    first: AlignmentChoice,
    second: AlignmentChoice,
)
    ensures
        t.with_alignments(first).with_alignments(second) == t.with_alignments(second),
{
}

/// Alignments set before rows are added still reach those rows: setting the
/// alignment and adding a row commute.
pub proof fn alignments_set_before_rows_still_reach_them(
    t: TableModel,
    choice: AlignmentChoice,
    cells: Seq<Seq<char>>,
)
    ensures
        t.with_alignments(choice).with_row(cells) == t.with_row(cells).with_alignments(choice),
{
}

/// Cells are escaped once: pushing text that was escaped already stores the
/// same cells as pushing the raw text.
pub proof fn pushing_escaped_cells_escapes_nothing_twice(t: TableModel, cells: Seq<Seq<char>>)
    ensures
        t.with_row(escaped_cells(cells)) == t.with_row(cells),
{
    assert forall|c: int| 0 <= c < cells.len() implies #[trigger] escaped_cells(escaped_cells(cells))[c]
        == escaped_cells(cells)[c] by {
        escaping_is_idempotent(cells[c]);
    }
    assert(escaped_cells(escaped_cells(cells)) =~= escaped_cells(cells));
}

proof fn lemma_widest_depends_on_rows_before(
    f: spec_fn(int, int) -> nat,
    g: spec_fn(int, int) -> nat,
    n: int,
    c: int,
)
    requires
        forall|r: int| 0 <= r < n ==> #[trigger] f(r, c) == g(r, c),
    ensures
        widest(f, n, c) == widest(g, n, c),
    decreases n,
{
    if n > 0 {
        lemma_widest_depends_on_rows_before(f, g, n - 1, c);
        assert(f(n - 1, c) == g(n - 1, c));
    }
}

/// Adding a row never narrows a column, and a column the new row does not
/// reach keeps its width exactly.
pub proof fn adding_a_row_never_narrows_a_column(t: TableModel, cells: Seq<Seq<char>>, c: int)
    requires
        0 <= c < t.columns(),
    ensures
        t.with_row(cells).column_width(c) >= t.column_width(c),
        c >= cells.len() ==> t.with_row(cells).column_width(c) == t.column_width(c),
{
    let after = t.with_row(cells);
    let n = t.rows.len() as int;
    let g = t.grid();
    let h = after.grid();
    lemma_column_count_bounds(after.rows);
    assert(after.rows.drop_last() =~= t.rows);
    assert(after.columns() >= t.columns());
    assert(h.aligns[c] == g.aligns[c]);
    assert forall|r: int| 0 <= r < n implies #[trigger] (g.measured)(r, c) == (h.measured)(r, c) by {
        assert(after.rows[r] == t.rows[r]);
    }
    lemma_widest_depends_on_rows_before(g.measured, h.measured, n, c);
    assert(widest(h.measured, n + 1, c) == crate::render::max_nat(
        widest(h.measured, n, c),
        (h.measured)(n, c),
    ));
    if c >= cells.len() {
        assert((h.measured)(n, c) == 0);
    }
}

/// When every cell is ASCII, measuring cells by their length in bytes renders
/// the same table as the default count of characters.
pub proof fn byte_lengths_measure_ascii_like_characters(t: TableModel, raw: Seq<Seq<usize>>)
    requires
        same_shape(t.rows, raw),
        forall|r: int, c: int|
            0 <= r < t.rows.len() && 0 <= c < t.rows[r].len() ==> raw[r][c] == utf8_len(
                #[trigger] t.rows[r][c],
            ),
        forall|r: int, c: int, i: int|
            0 <= r < t.rows.len() && 0 <= c < t.rows[r].len() && 0 <= i < t.rows[r][c].len()
                ==> is_ascii_char(#[trigger] t.rows[r][c][i]),
    ensures
        t.rendered_with(clamped(t.rows, raw)) == t.rendered(),
{
    assert forall|r: int, c: int| #[trigger] clamped(t.rows, raw)(r, c) == char_widths(t.rows)(r, c) by {
        if 0 <= r < t.rows.len() && 0 <= c < t.rows[r].len() {
            let cell = t.rows[r][c];
            assert forall|i: int| 0 <= i < cell.len() implies is_ascii_char(#[trigger] cell[i]) by {
                assert(is_ascii_char(t.rows[r][c][i]));
            }
            lemma_utf8_len_ascii(cell);
        }
    }
    assert(clamped(t.rows, raw) =~= char_widths(t.rows));
}


proof fn lemma_row_fields_agree(g: Grid, h: Grid, widths: Seq<nat>, r: int, k: int)
    requires
        0 <= k <= widths.len(),
        g.aligns == h.aligns,
        forall|c: int| 0 <= c < k ==> #[trigger] (g.text)(r, c) == (h.text)(r, c),
        forall|c: int| 0 <= c < k ==> #[trigger] (g.measured)(r, c) == (h.measured)(r, c),
    ensures
        row_fields(g, widths, r, k) == row_fields(h, widths, r, k),
    decreases k,
{
    if k > 0 {
        lemma_row_fields_agree(g, h, widths, r, k - 1);
        assert((g.text)(r, k - 1) == (h.text)(r, k - 1));
        assert((g.measured)(r, k - 1) == (h.measured)(r, k - 1));
    }
}

proof fn lemma_body_lines_agree(g: Grid, h: Grid, widths: Seq<nat>, n: int)
    requires
        g.aligns == h.aligns,
        forall|r: int| 0 <= r < n ==> #[trigger] row_line(g, widths, r) == row_line(h, widths, r),
    ensures
        body_lines(g, widths, n) == body_lines(h, widths, n),
    decreases n,
{
    if n > 1 {
        lemma_body_lines_agree(g, h, widths, n - 1);
        assert(row_line(g, widths, n - 1) == row_line(h, widths, n - 1));
    }
}

/// `a` is `b` or the start of it.
pub open spec fn is_start_of(a: Seq<char>, b: Seq<char>) -> bool {
    a.len() <= b.len() && b.subrange(0, a.len() as int) == a
}

proof fn lemma_row_line_len(t: TableModel, r: int)
    requires
        0 <= r < t.rows.len(),
    ensures
        row_line(t.grid(), column_widths(t.grid()), r).len() == 1 + delimiter_fields_len(
            column_widths(t.grid()),
            column_widths(t.grid()).len() as int,
        ),
{
    let g = t.grid();
    let widths = column_widths(g);
    lemma_rows_fit(g, r);
    lemma_row_fields_width(g, widths, r, widths.len() as int);
}

proof fn lemma_fields_len_grows(a: Seq<nat>, b: Seq<nat>, k: int)
    requires
        0 <= k <= a.len() == b.len(),
        forall|c: int| 0 <= c < a.len() ==> #[trigger] a[c] <= b[c],
    ensures
        delimiter_fields_len(a, k) <= delimiter_fields_len(b, k),
        (exists|c: int| 0 <= c < k && #[trigger] a[c] < b[c]) ==> delimiter_fields_len(a, k)
            < delimiter_fields_len(b, k),
    decreases k,
{
    if k > 0 {
        lemma_fields_len_grows(a, b, k - 1);
        assert(a[k - 1] <= b[k - 1]);
        if exists|c: int| 0 <= c < k && #[trigger] a[c] < b[c] {
            let c = choose|c: int| 0 <= c < k && #[trigger] a[c] < b[c];
            if c < k - 1 {
                assert(exists|c: int| 0 <= c < k - 1 && #[trigger] a[c] < b[c]);
            }
        }
    }
}

/// A new row leaves the rendered text of the rows before it in place exactly
/// when it widens no column. When it widens none, the new output is the old
/// one with one more line; when it widens one, every line changes.
#[verifier::rlimit(30)]
pub proof fn a_row_keeps_the_earlier_lines_exactly_when_it_widens_nothing(
    t: TableModel,
    cells: Seq<Seq<char>>,
)
    requires
        t.columns() > 0,
        t.with_row(cells).columns() == t.columns(),
        t.cells_are_escaped(),
    ensures
        (forall|c: int|
            0 <= c < t.columns() ==> #[trigger] t.with_row(cells).column_width(c) == t.column_width(
                c,
            )) ==> t.with_row(cells).rendered() == t.rendered() + seq!['\n'] + row_line(
            t.with_row(cells).grid(),
            column_widths(t.grid()),
            t.rows.len() as int,
        ),
        is_start_of(t.rendered(), t.with_row(cells).rendered()) == (forall|c: int|
            0 <= c < t.columns() ==> #[trigger] t.with_row(cells).column_width(c)
                == t.column_width(c)),
{
    let after = t.with_row(cells);
    let n = t.rows.len() as int;
    let g = t.grid();
    let h = after.grid();
    let columns = t.columns();
    lemma_column_count_bounds(t.rows);
    assert(n > 0);
    assert(after.rows.drop_last() =~= t.rows);
    assert(g.aligns =~= h.aligns);
    let wg = column_widths(g);
    let wh = column_widths(h);
    assert forall|r: int, c: int| 0 <= r < n implies #[trigger] (g.text)(r, c) == (h.text)(r, c)
        && (g.measured)(r, c) == (h.measured)(r, c) by {
        assert(after.rows[r] == t.rows[r]);
    }
    assert forall|c: int| 0 <= c < columns implies #[trigger] wg[c] <= wh[c] by {
        adding_a_row_never_narrows_a_column(t, cells, c);
    }
    lemma_lines_through_joined(g, n);
    lemma_lines_through_joined(h, n + 1);
    if forall|c: int| 0 <= c < columns ==> #[trigger] after.column_width(c) == t.column_width(c) {
        assert forall|c: int| 0 <= c < wg.len() implies wg[c] == wh[c] by {
            assert(after.column_width(c) == t.column_width(c));
        }
        assert(wg =~= wh);
        assert forall|r: int| 0 <= r < n implies #[trigger] row_line(g, wg, r) == row_line(
            h,
            wg,
            r,
        ) by {
            assert forall|c: int| 0 <= c < wg.len() implies #[trigger] (g.text)(r, c) == (h.text)(
                r,
                c,
            ) by {}
            assert forall|c: int| 0 <= c < wg.len() implies #[trigger] (g.measured)(r, c) == (
            h.measured)(r, c) by {}
            lemma_row_fields_agree(g, h, wg, r, wg.len() as int);
        }
        lemma_body_lines_agree(g, h, wg, n);
        assert(lines_through(g, wg, n) == lines_through(h, wg, n));
        assert(body_lines(h, wg, n + 1) == body_lines(h, wg, n) + seq!['\n'] + row_line(h, wg, n));
        assert(after.rendered() =~= t.rendered() + seq!['\n'] + row_line(h, wg, n));
        assert(after.rendered().subrange(0, t.rendered().len() as int) =~= t.rendered());
    } else {
        let c0 = choose|c: int| 0 <= c < columns && #[trigger] after.column_width(c) != t.column_width(c);
        assert(wg[c0] < wh[c0]);
        lemma_fields_len_grows(wg, wh, wg.len() as int);
        let head_g = row_line(g, wg, 0);
        let head_h = row_line(h, wh, 0);
        lemma_row_line_len(t, 0);
        lemma_row_line_len(after, 0);
        assert(head_g.len() < head_h.len());
        // The old output has a newline right after its header; the new one has
        // a character of its longer header there.
        let old_text = t.rendered();
        let new_text = after.rendered();
        assert(old_text == head_g + seq!['\n'] + delimiter_line(g.aligns, wg) + body_lines(g, wg, n));
        assert(new_text == head_h + seq!['\n'] + delimiter_line(h.aligns, wh) + body_lines(h, wh, n + 1));
        let at = head_g.len() as int;
        assert(old_text[at] == '\n');
        assert(new_text[at] == head_h[at]);
        assert(after.cells_are_escaped()) by {
            assert forall|r: int, c: int|
                0 <= r < after.rows.len() && 0 <= c < after.rows[r].len() implies crate::escape::is_cell_text(
                #[trigger] after.rows[r][c],
            ) by {
                if r < n {
                    assert(after.rows[r] == t.rows[r]);
                } else {
                    crate::escape::escaped_text_is_cell_text(cells[c]);
                }
            }
        }
        assert forall|c: int| 0 <= c < h.aligns.len() implies !has_newline(#[trigger] (h.text)(0, c)) by {
            lemma_cell_text_has_no_newline(after, 0, c);
        }
        rendered_table_is_lines(h);
        assert(table_lines(h)[0] == head_h);
        assert(single_line(head_h));
        if is_start_of(old_text, new_text) {
            assert(new_text.subrange(0, old_text.len() as int)[at] == old_text[at]);
        }
    }
}

/// A cell of a table whose cells are escaped holds no newline.
proof fn lemma_cell_text_has_no_newline(t: TableModel, r: int, c: int)
    requires
        t.cells_are_escaped(),
    ensures
        !has_newline(cell_text(t.rows, r, c)),
{
    if 0 <= r < t.rows.len() && 0 <= c < t.rows[r].len() {
        let cell = t.rows[r][c];
        assert(crate::escape::is_cell_text(cell));
        if has_newline(cell) {
            let j = choose|j: int| 0 <= j < cell.len() && cell[j] == '\n';
            assert(!crate::escape::is_line_break(cell[j]));
        }
    }
}


/// The fields of a line between its unescaped pipes, left to right. A pipe
/// separates fields unless an odd run of backslashes stands right before it,
/// which is how GFM reads a table row.
pub open spec fn fields_of(s: Seq<char>) -> Seq<Seq<char>>
    decreases s.len(),
{
    if s.len() == 0 {
        seq![Seq::empty()]
    } else {
        let rest = fields_of(s.drop_last());
        let c = s.last();
        if c == '|' && !escaped_at(s, s.len() - 1) {
            rest.push(Seq::empty())
        } else {
            rest.update(rest.len() - 1, rest.last().push(c))
        }
    }
}

proof fn lemma_fields_of_not_empty(s: Seq<char>)
    ensures
        fields_of(s).len() >= 1,
    decreases s.len(),
{
    if s.len() > 0 {
        lemma_fields_of_not_empty(s.drop_last());
    }
}

/// Appending text with no separating pipe in it extends the last field.
proof fn lemma_fields_extend(p: Seq<char>, x: Seq<char>)
    requires
        forall|j: int| 0 <= j < x.len() && #[trigger] x[j] == '|' ==> escaped_at(p + x, p.len() + j),
    ensures
        fields_of(p + x) == fields_of(p).update(
            fields_of(p).len() - 1,
            fields_of(p).last() + x,
        ),
    decreases x.len(),
{
    lemma_fields_of_not_empty(p);
    let f = fields_of(p);
    if x.len() == 0 {
        assert(p + x =~= p);
        assert(f.last() + x =~= f.last());
        assert(f.update(f.len() - 1, f.last()) =~= f);
    } else {
        let y = x.drop_last();
        let c = x.last();
        assert((p + x).drop_last() =~= p + y);
        assert forall|j: int| 0 <= j < y.len() && #[trigger] y[j] == '|' implies escaped_at(
            p + y,
            p.len() + j,
        ) by {
            assert(x[j] == y[j]);
            assert(p + x =~= (p + y) + seq![c]);
            lemma_backslash_run_prefix(p + y, seq![c], p.len() + j);
        }
        lemma_fields_extend(p, y);
        let g = fields_of(p + y);
        assert(g.len() == f.len());
        if c == '|' {
            assert(x[x.len() - 1] == '|');
            assert(escaped_at(p + x, p.len() + x.len() - 1));
        }
        assert((p + x).last() == c);
        assert(fields_of(p + x) == g.update(g.len() - 1, g.last().push(c)));
        assert(g.last() == f.last() + y);
        assert(fields_of(p + x) =~= f.update(f.len() - 1, f.last() + x)) by {
            assert((f.last() + y).push(c) =~= f.last() + x);
        }
    }
}

/// After a character that is not a backslash, runs are counted afresh.
proof fn lemma_backslash_run_after(a: Seq<char>, b: Seq<char>, j: int)
    requires
        a.len() > 0,
        a.last() != '\\',
        0 <= j <= b.len(),
    ensures
        backslash_run(a + b, a.len() + j) == backslash_run(b, j),
    decreases j,
{
    if j == 0 {
        assert((a + b)[a.len() - 1] == a.last());
    } else {
        assert((a + b)[a.len() + j - 1] == b[j - 1]);
        lemma_backslash_run_after(a, b, j - 1);
    }
}

/// What stands between two pipes for one cell of a row: a space, the padded
/// text, a space.
pub open spec fn field_between_pipes(text: Seq<char>, measured: nat, width: nat, a: Alignment) -> Seq<
    char,
> {
    let fill: nat = if measured <= width {
        (width - measured) as nat
    } else {
        0
    };
    let left = left_fill(a, fill);
    seq![' '] + repeat_char(' ', left) + text + repeat_char(' ', (fill - left) as nat) + seq![' ']
}

/// The fields of row `r` as written, one per column.
pub open spec fn row_fields_as_written(g: Grid, r: int) -> Seq<Seq<char>> {
    let widths = column_widths(g);
    Seq::new(
        widths.len(),
        |c: int| field_between_pipes((g.text)(r, c), (g.measured)(r, c), widths[c], g.aligns[c]),
    )
}

/// The fields of the delimiter row as written, one per column.
pub open spec fn delimiter_fields_as_written(g: Grid) -> Seq<Seq<char>> {
    let widths = column_widths(g);
    Seq::new(widths.len(), |c: int| seq![' '] + delimiter_text(g.aligns[c], widths[c]) + seq![' '])
}

proof fn lemma_fields_of_pipe()
    ensures
        fields_of(seq!['|']) == seq![Seq::<char>::empty(), Seq::<char>::empty()],
{
    let head = seq!['|'];
    assert(head.drop_last() =~= Seq::<char>::empty());
    assert(fields_of(Seq::<char>::empty()) == seq![Seq::<char>::empty()]);
    assert(backslash_run(head, 0) == 0);
    assert(fields_of(head) =~= seq![Seq::<char>::empty(), Seq::<char>::empty()]);
}

proof fn lemma_closing_pipe(p: Seq<char>)
    requires
        p.len() > 0,
        p.last() == ' ',
    ensures
        fields_of(p.push('|')) == fields_of(p).push(Seq::empty()),
{
    assert(p.push('|').drop_last() =~= p);
    assert(p.push('|')[p.len() - 1] == ' ');
}

proof fn lemma_row_splits(g: Grid, r: int, k: int)
    requires
        0 <= k <= g.aligns.len(),
        forall|c: int| 0 <= c < g.aligns.len() ==> is_cell_text(#[trigger] (g.text)(r, c)),
    ensures
        fields_of(seq!['|'] + row_fields(g, column_widths(g), r, k)) == seq![Seq::<char>::empty()]
            + row_fields_as_written(g, r).subrange(0, k) + seq![Seq::<char>::empty()],
    decreases k,
{
    let widths = column_widths(g);
    let head = seq!['|'];
    if k == 0 {
        assert(head + row_fields(g, widths, r, 0) =~= head);
        lemma_fields_of_pipe();
        assert(seq![Seq::<char>::empty()] + row_fields_as_written(g, r).subrange(0, 0) + seq![
            Seq::<char>::empty(),
        ] =~= seq![Seq::<char>::empty(), Seq::<char>::empty()]);
    } else {
        lemma_row_splits(g, r, k - 1);
        let p = head + row_fields(g, widths, r, k - 1);
        let text = (g.text)(r, k - 1);
        let inner = row_fields_as_written(g, r)[k - 1];
        let fill: nat = if (g.measured)(r, k - 1) <= widths[k - 1] {
            (widths[k - 1] - (g.measured)(r, k - 1)) as nat
        } else {
            0
        };
        let left = left_fill(g.aligns[k - 1], fill);
        let lead = seq![' '] + repeat_char(' ', left);
        let trail = repeat_char(' ', (fill - left) as nat) + seq![' '];
        assert(inner =~= lead + text + trail);
        assert(cell_field(text, (g.measured)(r, k - 1), widths[k - 1], g.aligns[k - 1])
            =~= inner.push('|'));
        assert(head + row_fields(g, widths, r, k) =~= (p + inner).push('|'));
        assert(is_cell_text(text));
        assert forall|j: int| 0 <= j < inner.len() && #[trigger] inner[j] == '|' implies escaped_at(
            p + inner,
            p.len() + j,
        ) by {
            if j < lead.len() {
                if j > 0 {
                    assert(lead[j] == repeat_char(' ', left)[j - 1]);
                }
                assert(inner[j] == lead[j]);
            } else if j < lead.len() + text.len() {
                let t = j - lead.len();
                assert(inner[j] == text[t]);
                assert(escaped_at(text, t));
                assert(p + inner =~= (p + lead) + (text + trail));
                assert((p + lead).last() == ' ');
                lemma_backslash_run_after(p + lead, text + trail, t);
                lemma_backslash_run_prefix(text, trail, t);
            } else {
                let t = j - lead.len() - text.len();
                assert(inner[j] == trail[t]);
                if t < fill - left {
                    assert(trail[t] == repeat_char(' ', (fill - left) as nat)[t]);
                }
            }
        }
        lemma_fields_extend(p, inner);
        lemma_fields_of_not_empty(p);
        assert(inner.last() == ' ');
        lemma_closing_pipe(p + inner);
        assert(row_fields_as_written(g, r).subrange(0, k) =~= row_fields_as_written(g, r).subrange(
            0,
            k - 1,
        ).push(inner));
    }
}

proof fn lemma_delimiter_splits(g: Grid, k: int)
    requires
        0 <= k <= g.aligns.len(),
    ensures
        fields_of(seq!['|'] + delimiter_fields(g.aligns, column_widths(g), k)) == seq![
            Seq::<char>::empty(),
        ] + delimiter_fields_as_written(g).subrange(0, k) + seq![Seq::<char>::empty()],
    decreases k,
{
    let widths = column_widths(g);
    let head = seq!['|'];
    if k == 0 {
        assert(head + delimiter_fields(g.aligns, widths, 0) =~= head);
        lemma_fields_of_pipe();
        assert(seq![Seq::<char>::empty()] + delimiter_fields_as_written(g).subrange(0, 0) + seq![
            Seq::<char>::empty(),
        ] =~= seq![Seq::<char>::empty(), Seq::<char>::empty()]);
    } else {
        lemma_delimiter_splits(g, k - 1);
        let p = head + delimiter_fields(g.aligns, widths, k - 1);
        let inner = delimiter_fields_as_written(g)[k - 1];
        let d = delimiter_text(g.aligns[k - 1], widths[k - 1]);
        assert(inner =~= seq![' '] + d + seq![' ']);
        assert(head + delimiter_fields(g.aligns, widths, k) =~= (p + inner).push('|'));
        assert forall|j: int| 0 <= j < inner.len() && #[trigger] inner[j] == '|' implies escaped_at(
            p + inner,
            p.len() + j,
        ) by {
            if 0 < j < inner.len() - 1 {
                assert(inner[j] == d[j - 1]);
                match g.aligns[k - 1] {
                    Alignment::Unaligned => {},
                    Alignment::Left => {
                        if j > 1 {
                            assert(d[j - 1] == repeat_char('-', (widths[k - 1] - 1) as nat)[j - 2]);
                        }
                    },
                    Alignment::Right => {
                        if j - 1 < d.len() - 1 {
                            assert(d[j - 1] == repeat_char('-', (widths[k - 1] - 1) as nat)[j - 1]);
                        }
                    },
                    Alignment::Center => {
                        if 0 < j - 1 < d.len() - 1 {
                            assert(d[j - 1] == repeat_char('-', (widths[k - 1] - 2) as nat)[j - 2]);
                        }
                    },
                }
            }
        }
        lemma_fields_extend(p, inner);
        lemma_fields_of_not_empty(p);
        assert(inner.last() == ' ');
        lemma_closing_pipe(p + inner);
        assert(delimiter_fields_as_written(g).subrange(0, k) =~= delimiter_fields_as_written(
            g,
        ).subrange(0, k - 1).push(inner));
    }
}

/// A pipe in a cell never splits it: when every cell is safe cell text, as
/// every cell of a [`Table`](crate::Table) is, each row line splits at its
/// unescaped pipes into exactly one field per column, between an empty field
/// before the first pipe and one after the last, and the field of each column
/// is its cell's text with its padding. The delimiter row splits the same way.
pub proof fn each_line_splits_into_its_cells(g: Grid)
    requires
        forall|r: int, c: int|
            0 <= r < g.rows && 0 <= c < g.aligns.len() ==> is_cell_text(#[trigger] (g.text)(r, c)),
    ensures
        forall|r: int|
            0 <= r < g.rows ==> fields_of(#[trigger] row_line(g, column_widths(g), r)) == seq![
                Seq::<char>::empty(),
            ] + row_fields_as_written(g, r) + seq![Seq::<char>::empty()],
        fields_of(delimiter_line(g.aligns, column_widths(g))) == seq![Seq::<char>::empty()]
            + delimiter_fields_as_written(g) + seq![Seq::<char>::empty()],
{
    let widths = column_widths(g);
    let k = widths.len() as int;
    assert forall|r: int| 0 <= r < g.rows implies fields_of(
        #[trigger] row_line(g, widths, r),
    ) == seq![Seq::<char>::empty()] + row_fields_as_written(g, r) + seq![Seq::<char>::empty()] by {
        assert forall|c: int| 0 <= c < g.aligns.len() implies is_cell_text(
            #[trigger] (g.text)(r, c),
        ) by {}
        lemma_row_splits(g, r, k);
        assert(row_fields_as_written(g, r).subrange(0, k) =~= row_fields_as_written(g, r));
    }
    lemma_delimiter_splits(g, k);
    assert(delimiter_fields_as_written(g).subrange(0, k) =~= delimiter_fields_as_written(g));
}


/// The line that holds row `r`: the header is line 0 and the delimiter row
/// line 1.
pub open spec fn line_of_row(r: int) -> int {
    if r == 0 {
        0
    } else {
        r + 1
    }
}

/// What the library is for, for a table built through its methods (whose
/// cells are always escaped): with the default measure, the output is one
/// line per row plus the delimiter row, joined by `\n`; no line holds a
/// newline; every line starts and ends with a pipe and is as long as every
/// other; and the line of each row splits at its unescaped pipes into exactly
/// one field per column, each holding that cell's text between its padding
/// and as long as the delimiter row's field for that column.
pub proof fn a_table_renders_as_lines_of_its_cells(t: TableModel)
    requires
        t.cells_are_escaped(),
        t.columns() > 0,
    ensures
        t.rendered() == joined_lines(table_lines(t.grid())),
        table_lines(t.grid()).len() == t.rows.len() + 1,
        forall|i: int|
            0 <= i < table_lines(t.grid()).len() ==> single_line(#[trigger] table_lines(t.grid())[i])
                && pipe_delimited(table_lines(t.grid())[i]) && table_lines(t.grid())[i].len()
                == table_lines(t.grid())[1].len(),
        forall|r: int|
            0 <= r < t.rows.len() ==> fields_of(table_lines(t.grid())[line_of_row(r)]) == seq![
                Seq::<char>::empty(),
            ] + #[trigger] row_fields_as_written(t.grid(), r) + seq![Seq::<char>::empty()],
        forall|r: int, c: int|
            0 <= r < t.rows.len() && 0 <= c < t.columns() ==> (#[trigger] row_fields_as_written(
                t.grid(),
                r,
            )[c]).len() == delimiter_fields_as_written(t.grid())[c].len(),
{
    let g = t.grid();
    lemma_column_count_bounds(t.rows);
    assert(g.rows > 0);
    assert forall|r: int, c: int|
        0 <= r < g.rows && 0 <= c < g.aligns.len() implies is_cell_text(#[trigger] (g.text)(r, c)) by {
        if c < t.rows[r].len() {
            assert(is_cell_text(t.rows[r][c]));
        } else {
            assert(cell_text(t.rows, r, c) =~= Seq::<char>::empty());
        }
    }
    assert forall|r: int, c: int|
        0 <= r < g.rows && 0 <= c < g.aligns.len() implies !has_newline(#[trigger] (g.text)(r, c)) by {
        lemma_cell_text_has_no_newline(t, r, c);
    }
    rendered_table_is_lines(g);
    lines_are_equally_long(g);
    each_line_splits_into_its_cells(g);
    let widths = column_widths(g);
    assert forall|r: int, c: int|
        0 <= r < t.rows.len() && 0 <= c < t.columns() implies (#[trigger] row_fields_as_written(
        g,
        r,
    )[c]).len() == delimiter_fields_as_written(g)[c].len() by {
        lemma_rows_fit(g, r);
        assert((g.measured)(r, c) <= widths[c]);
        assert(min_width(g.aligns[c]) <= widths[c]);
        crate::render::lemma_delimiter_text(g.aligns[c], widths[c]);
    }
    assert forall|r: int| 0 <= r < t.rows.len() implies fields_of(
        table_lines(g)[line_of_row(r)],
    ) == seq![Seq::<char>::empty()] + #[trigger] row_fields_as_written(g, r) + seq![
        Seq::<char>::empty(),
    ] by {
        assert(table_lines(g)[line_of_row(r)] == row_line(g, column_widths(g), r));
    }
}


/// A measure that gives one answer per cell text renders a table the same way
/// every time: two renders, each measuring every cell once, write the same
/// text. A measure that keeps state between calls is outside this law.
pub proof fn a_consistent_measure_renders_the_same_every_time<F: Fn(&str) -> usize>(
    t: TableModel,
    measure: F,
    first: Seq<Seq<usize>>,
    second: Seq<Seq<usize>>,
)
    requires
        forall|text: Seq<char>, a: usize, b: usize|
            measured_by(measure, text, a) && measured_by(measure, text, b) ==> a == b,
        same_shape(t.rows, first),
        same_shape(t.rows, second),
        all_measured_by(measure, t.rows, first),
        all_measured_by(measure, t.rows, second),
    ensures
        t.rendered_with(clamped(t.rows, first)) == t.rendered_with(clamped(t.rows, second)),
{
    assert forall|r: int, c: int| #[trigger] clamped(t.rows, first)(r, c) == clamped(t.rows, second)(r, c) by {
        if 0 <= r < t.rows.len() && 0 <= c < t.rows[r].len() {
            assert(measured_by(measure, t.rows[r][c], first[r][c]));
            assert(measured_by(measure, t.rows[r][c], second[r][c]));
        }
    }
    assert(clamped(t.rows, first) =~= clamped(t.rows, second));
}

/// When every cell is ASCII, any measure that gives the length of ASCII text
/// (its count of UTF-16 units, its length in bytes) renders the same table as
/// the default count of characters.
pub proof fn ascii_length_measures_render_like_characters<F: Fn(&str) -> usize>(
    t: TableModel,
    measure: F,
    measured: Seq<Seq<usize>>,
)
    requires
        forall|text: Seq<char>, w: usize|
            (forall|i: int| 0 <= i < text.len() ==> is_ascii_char(#[trigger] text[i])) && measured_by(
                measure,
                text,
                w,
            ) ==> w == text.len(),
        forall|r: int, c: int, i: int|
            0 <= r < t.rows.len() && 0 <= c < t.rows[r].len() && 0 <= i < t.rows[r][c].len()
                ==> is_ascii_char(#[trigger] t.rows[r][c][i]),
        same_shape(t.rows, measured),
        all_measured_by(measure, t.rows, measured),
    ensures
        t.rendered_with(clamped(t.rows, measured)) == t.rendered(),
{
    assert forall|r: int, c: int| #[trigger] clamped(t.rows, measured)(r, c) == char_widths(t.rows)(r, c) by {
        if 0 <= r < t.rows.len() && 0 <= c < t.rows[r].len() {
            let cell = t.rows[r][c];
            assert forall|i: int| 0 <= i < cell.len() implies is_ascii_char(#[trigger] cell[i]) by {
                assert(is_ascii_char(t.rows[r][c][i]));
            }
            assert(measured_by(measure, cell, measured[r][c]));
            lemma_utf8_len_at_least_chars(cell);
        }
    }
    assert(clamped(t.rows, measured) =~= char_widths(t.rows));
}

/// The text between the pipes around column `c` on the first line of the
/// rendered table: a space, the padded header cell, a space.
pub open spec fn header_field(t: TableModel, c: int) -> Seq<char> {
    let g = t.grid();
    cell_field((g.text)(0, c), (g.measured)(0, c), column_widths(g)[c], g.aligns[c]).drop_last()
}

/// The first line of the rendered table is a pipe, then each column's
/// header field followed by a pipe.
pub proof fn the_first_line_is_its_header_fields(t: TableModel)
    requires
        t.columns() > 0,
        t.rows.len() > 0,
    ensures
        table_lines(t.grid())[0] == seq!['|'] + row_fields(
            t.grid(),
            column_widths(t.grid()),
            0,
            t.columns() as int,
        ),
        forall|c: int|
            0 <= c < t.columns() ==> cell_field(
                (t.grid().text)(0, c),
                (t.grid().measured)(0, c),
                column_widths(t.grid())[c],
                t.grid().aligns[c],
            ) == #[trigger] header_field(t, c).push('|'),
{
    let g = t.grid();
    assert(column_widths(g).len() == t.columns());
    assert forall|c: int| 0 <= c < t.columns() implies cell_field(
        (g.text)(0, c),
        (g.measured)(0, c),
        column_widths(g)[c],
        g.aligns[c],
    ) == #[trigger] header_field(t, c).push('|') by {
        let f = cell_field((g.text)(0, c), (g.measured)(0, c), column_widths(g)[c], g.aligns[c]);
        assert(f[f.len() - 1] == '|');
        assert(f =~= f.drop_last().push('|'));
    }
}

/// A header field holds as many characters as its column is wide, plus the
/// two spaces around the cell.
pub proof fn a_header_field_is_as_wide_as_its_column(t: TableModel, c: int)
    requires
        0 <= c < t.columns(),
        t.rows.len() > 0,
    ensures
        header_field(t, c).len() == t.column_width(c) + 2,
{
    let g = t.grid();
    lemma_rows_fit(g, 0);
    assert((g.measured)(0, c) <= column_widths(g)[c]);
    let fill = (column_widths(g)[c] - (g.measured)(0, c)) as nat;
    let left = left_fill(g.aligns[c], fill);
    assert(left <= fill);
}

/// Adding a row never narrows a field of the first line, and the field of a
/// column the new row does not reach keeps its length exactly.
pub proof fn adding_a_row_never_narrows_a_header_field(t: TableModel, cells: Seq<Seq<char>>, c: int)
    requires
        0 <= c < t.columns(),
        t.rows.len() > 0,
    ensures
        header_field(t.with_row(cells), c).len() >= header_field(t, c).len(),
        c >= cells.len() ==> header_field(t.with_row(cells), c).len() == header_field(t, c).len(),
{
    let after = t.with_row(cells);
    adding_a_row_never_narrows_a_column(t, cells, c);
    lemma_column_count_bounds(after.rows);
    assert(after.rows.drop_last() =~= t.rows);
    assert(after.columns() >= t.columns());
    a_header_field_is_as_wide_as_its_column(t, c);
    a_header_field_is_as_wide_as_its_column(after, c);
}

/// The table after adding `rows` one after another, each as a new row.
pub open spec fn with_rows(t: TableModel, rows: Seq<Seq<Seq<char>>>) -> TableModel
    decreases rows.len(),
{
    if rows.len() == 0 {
        t
    } else {
        with_rows(t, rows.drop_last()).with_row(rows.last())
    }
}

/// Every added row counts, empty ones too: after `n` rows are added the table
/// has `n` more rows, header included.
pub proof fn every_added_row_counts(t: TableModel, rows: Seq<Seq<Seq<char>>>)
    ensures
        with_rows(t, rows).rows.len() == t.rows.len() + rows.len(),
    decreases rows.len(),
{
    if rows.len() > 0 {
        every_added_row_counts(t, rows.drop_last());
    }
}

/// Sum of the first `k` column widths.
pub open spec fn width_sum(widths: Seq<nat>, k: int) -> nat
    decreases k,
{
    if k <= 0 {
        0
    } else {
        width_sum(widths, k - 1) + widths[k - 1]
    }
}

/// Sum of `f` over the first `k` cells of row `r`.
pub open spec fn row_sum(f: spec_fn(int, int) -> nat, r: int, k: int) -> nat
    decreases k,
{
    if k <= 0 {
        0
    } else {
        row_sum(f, r, k - 1) + f(r, k - 1)
    }
}

/// Sum of `f` over the first `k` cells of the first `n` rows.
pub open spec fn grid_sum(f: spec_fn(int, int) -> nat, n: int, k: int) -> nat
    decreases n,
{
    if n <= 0 {
        0
    } else {
        grid_sum(f, n - 1, k) + row_sum(f, n - 1, k)
    }
}

/// Byte length of every cell of `g`.
pub open spec fn cell_bytes(g: Grid) -> spec_fn(int, int) -> nat {
    |r: int, c: int| utf8_len((g.text)(r, c))
}

proof fn lemma_fields_len_closed(g: Grid, widths: Seq<nat>, r: int, k: int)
    requires
        0 <= k <= widths.len(),
        row_fits(g, widths, r),
    ensures
        fields_len(g, widths, r, k) == 3 * k + width_sum(widths, k) + row_sum(cell_bytes(g), r, k)
            - row_sum(g.measured, r, k),
    decreases k,
{
    if k > 0 {
        lemma_fields_len_closed(g, widths, r, k - 1);
        assert((g.measured)(r, k - 1) <= widths[k - 1]);
    }
}

proof fn lemma_delimiter_fields_len_closed(widths: Seq<nat>, k: int)
    requires
        0 <= k,
    ensures
        delimiter_fields_len(widths, k) == 3 * k + width_sum(widths, k),
    decreases k,
{
    if k > 0 {
        lemma_delimiter_fields_len_closed(widths, k - 1);
    }
}

proof fn lemma_rows_len_closed(g: Grid, n: int)
    requires
        0 <= n <= g.rows,
    ensures
        rows_len(g, column_widths(g), n) == n * (1 + 3 * g.aligns.len() + width_sum(
            column_widths(g),
            g.aligns.len() as int,
        )) + grid_sum(cell_bytes(g), n, g.aligns.len() as int) - grid_sum(
            g.measured,
            n,
            g.aligns.len() as int,
        ),
    decreases n,
{
    let widths = column_widths(g);
    let k = g.aligns.len() as int;
    let x = 1 + 3 * k + width_sum(widths, k);
    if n > 0 {
        lemma_rows_len_closed(g, n - 1);
        lemma_rows_fit(g, n - 1);
        lemma_fields_len_closed(g, widths, n - 1, k);
        assert((n - 1) * x + x == n * x) by (nonlinear_arith);
    }
}

/// The rendered table's length in bytes, in closed form: with `k` columns of
/// widths summing to `W` and `n` rows, every line but the delimiter row holds
/// `3k + 1 + W` bytes of pipes, spaces and padding, less each cell's measured
/// width and plus its length in bytes, and `n` newlines join the `n + 1`
/// lines. A table with no columns or no rows is empty.
pub proof fn the_output_length_in_closed_form(g: Grid)
    ensures
        utf8_len(table_text(g)) == if g.aligns.len() == 0 || g.rows == 0 {
            0
        } else {
            (3 * g.aligns.len() + 1 + width_sum(column_widths(g), g.aligns.len() as int)) * (g.rows
                + 1) + grid_sum(cell_bytes(g), g.rows as int, g.aligns.len() as int) - grid_sum(
                g.measured,
                g.rows as int,
                g.aligns.len() as int,
            ) + g.rows
        },
{
    lemma_text_len(g);
    if g.aligns.len() > 0 && g.rows > 0 {
        let widths = column_widths(g);
        let k = g.aligns.len() as int;
        let n = g.rows as int;
        let x = 1 + 3 * k + width_sum(widths, k);
        lemma_body_len_as_rows_len(g, widths, n);
        lemma_rows_len_closed(g, n);
        lemma_delimiter_fields_len_closed(widths, k);
        assert(widths.len() == k);
        assert(text_len(g) == rows_len(g, widths, n) + n + 1 + delimiter_fields_len(widths, k));
        assert(n * x + x == x * (n + 1)) by (nonlinear_arith);
    }
}

/// The delimiter of a column carries the alignment asked for at every width
/// the column can have: it is as wide as the column, a colon opens it exactly
/// for a left or centred column, a colon closes it exactly for a right or
/// centred column, and every other character is a dash.
pub proof fn the_delimiter_carries_its_alignment(a: Alignment, width: nat)
    requires
        min_width(a) <= width,
    ensures
        delimiter_text(a, width).len() == width,
        (delimiter_text(a, width)[0] == ':') == (a == Alignment::Left || a == Alignment::Center),
        (delimiter_text(a, width)[width - 1] == ':') == (a == Alignment::Right || a
            == Alignment::Center),
        forall|i: int|
            0 <= i < width ==> (#[trigger] delimiter_text(a, width)[i] == ':' || delimiter_text(
                a,
                width,
            )[i] == '-'),
        forall|i: int| 0 < i < width - 1 ==> #[trigger] delimiter_text(a, width)[i] == '-',
{
    let d = delimiter_text(a, width);
    match a {
        Alignment::Unaligned => {},
        Alignment::Left => {
            assert forall|i: int| 0 < i < width implies #[trigger] d[i] == '-' by {
                assert(d[i] == repeat_char('-', (width - 1) as nat)[i - 1]);
            }
        },
        Alignment::Right => {
            assert forall|i: int| 0 <= i < width - 1 implies #[trigger] d[i] == '-' by {
                assert(d[i] == repeat_char('-', (width - 1) as nat)[i]);
            }
        },
        Alignment::Center => {
            assert forall|i: int| 0 < i < width - 1 implies #[trigger] d[i] == '-' by {
                assert(d[i] == repeat_char('-', (width - 2) as nat)[i - 1]);
            }
        },
    }
}

/// The width used for a cell is its measurement cut down to the cell's length
/// in bytes: never more than either, equal to one of them, and the measurement
/// itself whenever it does not exceed the byte length. A place past the end of
/// a row measures nothing.
pub proof fn a_measurement_is_cut_only_to_the_byte_length(
    rows: Seq<Seq<Seq<char>>>,
    raw: Seq<Seq<usize>>,
    r: int,
    c: int,
)
    ensures
        0 <= r < rows.len() && 0 <= c < rows[r].len() ==> {
            &&& clamped(rows, raw)(r, c) <= raw[r][c]
            &&& clamped(rows, raw)(r, c) <= utf8_len(rows[r][c])
            &&& (clamped(rows, raw)(r, c) == raw[r][c] || clamped(rows, raw)(r, c) == utf8_len(
                rows[r][c],
            ))
            &&& (raw[r][c] <= utf8_len(rows[r][c]) ==> clamped(rows, raw)(r, c) == raw[r][c])
        },
        !(0 <= r < rows.len() && 0 <= c < rows[r].len()) ==> clamped(rows, raw)(r, c) == 0,
{
}

/// Every column of a table gets the alignment asked for: one alignment for
/// every column reaches every column however wide the table grows, and a list
/// gives column `c` its entry `c`, or no alignment past the end of the list.
pub proof fn every_column_gets_the_alignment_asked_for(t: TableModel, c: int)
    requires
        0 <= c < t.columns(),
    ensures
        t.fitted_alignments().len() == t.columns(),
        t.grid().aligns == t.fitted_alignments(),
        t.alignments matches AlignmentChoice::Every(a) ==> t.fitted_alignments()[c] == a,
        t.alignments matches AlignmentChoice::PerColumn(list) ==> (c < list.len()
            ==> t.fitted_alignments()[c] == list[c]),
        t.alignments matches AlignmentChoice::PerColumn(list) ==> (c >= list.len()
            ==> t.fitted_alignments()[c] == Alignment::Unaligned),
{
}
} // verus!
