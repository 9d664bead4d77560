//! What a rendered table is, character by character, and the code that
//! measures and writes it.

use vstd::prelude::*;

use crate::table::{min_width, Alignment};
use crate::text::{
    lemma_utf8_len_concat, lemma_utf8_len_repeat, push_char, push_repeated, repeat_char, utf8_len,
};
use vstd::string::StringExecFns;

verus! {

/// Everything the text of a table depends on: how many rows there are, the
/// text and the measured width of each cell, and one alignment per column.
/// A cell beyond the end of its row reads as empty text of width 0.
#[verifier::ext_equal]
pub struct Grid {
    pub rows: nat,
    pub text: spec_fn(int, int) -> Seq<char>,
    pub measured: spec_fn(int, int) -> nat,
    pub aligns: Seq<Alignment>,
}

pub open spec fn max_nat(a: nat, b: nat) -> nat {
    if a >= b {
        a
    } else {
        b
    }
}

/// Widest measurement in column `c` over the first `n` rows.
pub open spec fn widest(measured: spec_fn(int, int) -> nat, n: int, c: int) -> nat
    decreases n,
{
    if n <= 0 {
        0
    } else {
        max_nat(widest(measured, n - 1, c), measured(n - 1, c))
    }
}

/// Rendered width of column `c`: its widest cell, and never narrower than the
/// delimiter its alignment needs.
pub open spec fn column_width(g: Grid, c: int) -> nat {
    max_nat(min_width(g.aligns[c]), widest(g.measured, g.rows as int, c))
}

/// Rendered width of every column.
pub open spec fn column_widths(g: Grid) -> Seq<nat> {
    Seq::new(g.aligns.len(), |c: int| column_width(g, c))
}

/// Spaces that go on the left of a cell. An odd space goes on the left of a
/// centred cell.
pub open spec fn left_fill(a: Alignment, fill: nat) -> nat {
    match a {
        Alignment::Right => fill,
        Alignment::Center => fill / 2 + fill % 2,
        _ => 0,
    }
}

/// One cell of a row as written, with the pipe that closes it: a space, the
/// padded text, a space, a pipe.
pub open spec fn cell_field(text: Seq<char>, measured: nat, width: nat, a: Alignment) -> Seq<char> {
    let fill: nat = if measured <= width {
        (width - measured) as nat
    } else {
        0
    };
    let left = left_fill(a, fill);
    seq![' '] + repeat_char(' ', left) + text + repeat_char(' ', (fill - left) as nat) + seq![
        ' ',
        '|',
    ]
}

/// The first `k` cells of row `r`.
pub open spec fn row_fields(g: Grid, widths: Seq<nat>, r: int, k: int) -> Seq<char>
    decreases k,
{
    if k <= 0 {
        Seq::empty()
    } else {
        row_fields(g, widths, r, k - 1) + cell_field(
            (g.text)(r, k - 1),
            (g.measured)(r, k - 1),
            widths[k - 1],
            g.aligns[k - 1],
        )
    }
}

/// The line of row `r`.
pub open spec fn row_line(g: Grid, widths: Seq<nat>, r: int) -> Seq<char> {
    seq!['|'] + row_fields(g, widths, r, widths.len() as int)
}

/// The dashes and colons of one delimiter cell, `width` characters wide.
pub open spec fn delimiter_text(a: Alignment, width: nat) -> Seq<char> {
    match a {
        Alignment::Unaligned => repeat_char('-', width),
        Alignment::Left => seq![':'] + repeat_char('-', (width - 1) as nat),
        Alignment::Right => repeat_char('-', (width - 1) as nat) + seq![':'],
        Alignment::Center => seq![':'] + repeat_char('-', (width - 2) as nat) + seq![':'],
    }
}

/// The first `k` cells of the delimiter row.
pub open spec fn delimiter_fields(aligns: Seq<Alignment>, widths: Seq<nat>, k: int) -> Seq<char>
    decreases k,
{
    if k <= 0 {
        Seq::empty()
    } else {
        delimiter_fields(aligns, widths, k - 1) + seq![' '] + delimiter_text(
            aligns[k - 1],
            widths[k - 1],
        ) + seq![' ', '|']
    }
}

/// The delimiter row.
pub open spec fn delimiter_line(aligns: Seq<Alignment>, widths: Seq<nat>) -> Seq<char> {
    seq!['|'] + delimiter_fields(aligns, widths, widths.len() as int)
}

/// Rows 1 to `n - 1`, each after a newline.
pub open spec fn body_lines(g: Grid, widths: Seq<nat>, n: int) -> Seq<char>
    decreases n,
{
    if n <= 1 {
        Seq::empty()
    } else {
        body_lines(g, widths, n - 1) + seq!['\n'] + row_line(g, widths, n - 1)
    }
}

/// The first `n` lines after the header: the header and the delimiter row
/// when `n` is 1, and so on.
pub open spec fn lines_through(g: Grid, widths: Seq<nat>, n: int) -> Seq<char> {
    if n <= 0 {
        Seq::empty()
    } else {
        row_line(g, widths, 0) + seq!['\n'] + delimiter_line(g.aligns, widths) + body_lines(
            g,
            widths,
            n,
        )
    }
}

/// The rendered table: nothing when there are no columns; otherwise the header
/// line, the delimiter line, and one line per further row, joined by `\n`
/// with no newline at the end.
pub open spec fn table_text(g: Grid) -> Seq<char> {
    if g.aligns.len() == 0 {
        Seq::empty()
    } else {
        lines_through(g, column_widths(g), g.rows as int)
    }
}


/// Byte length of the first `k` cells of row `r`, counted field by field.
pub open spec fn fields_len(g: Grid, widths: Seq<nat>, r: int, k: int) -> nat
    decreases k,
{
    if k <= 0 {
        0
    } else {
        fields_len(g, widths, r, k - 1) + 3 + (widths[k - 1] - (g.measured)(r, k - 1)) as nat
            + utf8_len((g.text)(r, k - 1))
    }
}

/// Byte length of the line of row `r`.
pub open spec fn line_len(g: Grid, widths: Seq<nat>, r: int) -> nat {
    1 + fields_len(g, widths, r, widths.len() as int)
}

/// Byte length of the first `k` cells of the delimiter row, after its pipe.
pub open spec fn delimiter_fields_len(widths: Seq<nat>, k: int) -> nat
    decreases k,
{
    if k <= 0 {
        0
    } else {
        delimiter_fields_len(widths, k - 1) + 3 + widths[k - 1]
    }
}

/// Byte length of rows 1 to `n - 1`, each with the newline before it.
pub open spec fn body_len(g: Grid, widths: Seq<nat>, n: int) -> nat
    decreases n,
{
    if n <= 1 {
        0
    } else {
        body_len(g, widths, n - 1) + 1 + line_len(g, widths, n - 1)
    }
}

/// Byte length of the rendered table, counted line by line.
pub open spec fn text_len(g: Grid) -> nat {
    let widths = column_widths(g);
    if g.aligns.len() == 0 || g.rows == 0 {
        0
    } else {
        line_len(g, widths, 0) + 1 + 1 + delimiter_fields_len(widths, widths.len() as int)
            + body_len(g, widths, g.rows as int)
    }
}

/// Every measurement in row `r` fits its column.
pub open spec fn row_fits(g: Grid, widths: Seq<nat>, r: int) -> bool {
    forall|c: int| 0 <= c < widths.len() ==> (g.measured)(r, c) <= #[trigger] widths[c]
}

proof fn lemma_ascii_len(s: Seq<char>)
    requires
        forall|i: int| 0 <= i < s.len() ==> crate::text::is_ascii_char(#[trigger] s[i]),
    ensures
        utf8_len(s) == s.len(),
{
    crate::text::lemma_utf8_len_ascii(s);
}

proof fn lemma_cell_field_len(text: Seq<char>, measured: nat, width: nat, a: Alignment)
    requires
        measured <= width,
    ensures
        utf8_len(cell_field(text, measured, width, a)) == 3 + (width - measured) as nat + utf8_len(
            text,
        ),
{
    let fill = (width - measured) as nat;
    let left = left_fill(a, fill);
    let right = (fill - left) as nat;
    let p1 = seq![' '];
    let p2 = repeat_char(' ', left);
    let p4 = repeat_char(' ', right);
    let p5 = seq![' ', '|'];
    lemma_ascii_len(p1);
    lemma_ascii_len(p5);
    lemma_utf8_len_repeat(' ', left);
    lemma_utf8_len_repeat(' ', right);
    lemma_utf8_len_concat(p1, p2);
    lemma_utf8_len_concat(p1 + p2, text);
    lemma_utf8_len_concat(p1 + p2 + text, p4);
    lemma_utf8_len_concat(p1 + p2 + text + p4, p5);
}

proof fn lemma_row_fields_len(g: Grid, widths: Seq<nat>, r: int, k: int)
    requires
        0 <= k <= widths.len(),
        row_fits(g, widths, r),
    ensures
        utf8_len(row_fields(g, widths, r, k)) == fields_len(g, widths, r, k),
    decreases k,
{
    if k > 0 {
        lemma_row_fields_len(g, widths, r, k - 1);
        assert((g.measured)(r, k - 1) <= widths[k - 1]);
        lemma_cell_field_len((g.text)(r, k - 1), (g.measured)(r, k - 1), widths[k - 1], g.aligns[k - 1]);
        lemma_utf8_len_concat(
            row_fields(g, widths, r, k - 1),
            cell_field((g.text)(r, k - 1), (g.measured)(r, k - 1), widths[k - 1], g.aligns[k - 1]),
        );
    }
}

proof fn lemma_row_line_len(g: Grid, widths: Seq<nat>, r: int)
    requires
        row_fits(g, widths, r),
    ensures
        utf8_len(row_line(g, widths, r)) == line_len(g, widths, r),
{
    lemma_row_fields_len(g, widths, r, widths.len() as int);
    lemma_ascii_len(seq!['|']);
    lemma_utf8_len_concat(seq!['|'], row_fields(g, widths, r, widths.len() as int));
}

/// Delimiter text is exactly as wide as its column.
pub proof fn lemma_delimiter_text(a: Alignment, width: nat)
    requires
        min_width(a) <= width,
    ensures
        delimiter_text(a, width).len() == width,
        utf8_len(delimiter_text(a, width)) == width,
{
    let t = delimiter_text(a, width);
    assert forall|i: int| 0 <= i < t.len() implies crate::text::is_ascii_char(#[trigger] t[i]) by {
        match a {
            Alignment::Unaligned => {},
            Alignment::Left => {
                if i > 0 {
                    assert(t[i] == repeat_char('-', (width - 1) as nat)[i - 1]);
                }
            },
            Alignment::Right => {
                if i < width - 1 {
                    assert(t[i] == repeat_char('-', (width - 1) as nat)[i]);
                }
            },
            Alignment::Center => {
                if 0 < i < width - 1 {
                    assert(t[i] == repeat_char('-', (width - 2) as nat)[i - 1]);
                }
            },
        }
    }
    lemma_ascii_len(t);
}

proof fn lemma_delimiter_fields_len(aligns: Seq<Alignment>, widths: Seq<nat>, k: int)
    requires
        0 <= k <= widths.len() <= aligns.len(),
        forall|c: int| 0 <= c < widths.len() ==> min_width(aligns[c]) <= #[trigger] widths[c],
    ensures
        utf8_len(delimiter_fields(aligns, widths, k)) == delimiter_fields_len(widths, k),
    decreases k,
{
    if k > 0 {
        lemma_delimiter_fields_len(aligns, widths, k - 1);
        let prev = delimiter_fields(aligns, widths, k - 1);
        let d = delimiter_text(aligns[k - 1], widths[k - 1]);
        assert(min_width(aligns[k - 1]) <= widths[k - 1]);
        lemma_delimiter_text(aligns[k - 1], widths[k - 1]);
        lemma_ascii_len(seq![' ']);
        lemma_ascii_len(seq![' ', '|']);
        lemma_utf8_len_concat(prev, seq![' ']);
        lemma_utf8_len_concat(prev + seq![' '], d);
        lemma_utf8_len_concat(prev + seq![' '] + d, seq![' ', '|']);
    }
}

proof fn lemma_body_len(g: Grid, widths: Seq<nat>, n: int)
    requires
        forall|r: int| 0 <= r < n ==> row_fits(g, widths, r),
    ensures
        utf8_len(body_lines(g, widths, n)) == body_len(g, widths, n),
    decreases n,
{
    if n > 1 {
        lemma_body_len(g, widths, n - 1);
        lemma_row_line_len(g, widths, n - 1);
        lemma_ascii_len(seq!['\n']);
        lemma_utf8_len_concat(body_lines(g, widths, n - 1), seq!['\n']);
        lemma_utf8_len_concat(body_lines(g, widths, n - 1) + seq!['\n'], row_line(g, widths, n - 1));
    }
}

/// No measurement exceeds the widest one in its column.
pub proof fn lemma_widest_bounds(measured: spec_fn(int, int) -> nat, n: int, r: int, c: int)
    requires
        0 <= r < n,
    ensures
        measured(r, c) <= widest(measured, n, c),
    decreases n,
{
    if r < n - 1 {
        lemma_widest_bounds(measured, n - 1, r, c);
    }
}

/// Every measurement fits its column.
pub proof fn lemma_rows_fit(g: Grid, r: int)
    requires
        0 <= r < g.rows,
    ensures
        row_fits(g, column_widths(g), r),
{
    assert forall|c: int| 0 <= c < column_widths(g).len() implies (g.measured)(r, c)
        <= #[trigger] column_widths(g)[c] by {
        lemma_widest_bounds(g.measured, g.rows as int, r, c);
    }
}

/// The line-by-line count is the byte length of the rendered table.
pub proof fn lemma_text_len(g: Grid)
    ensures
        utf8_len(table_text(g)) == text_len(g),
{
    let widths = column_widths(g);
    if g.aligns.len() > 0 && g.rows > 0 {
        assert forall|r: int| 0 <= r < g.rows implies row_fits(g, widths, r) by {
            lemma_rows_fit(g, r);
        }
        lemma_row_line_len(g, widths, 0);
        lemma_delimiter_fields_len(g.aligns, widths, widths.len() as int);
        lemma_body_len(g, widths, g.rows as int);
        let l0 = row_line(g, widths, 0);
        let d = delimiter_line(g.aligns, widths);
        let b = body_lines(g, widths, g.rows as int);
        lemma_ascii_len(seq!['\n']);
        lemma_ascii_len(seq!['|']);
        lemma_utf8_len_concat(seq!['|'], delimiter_fields(g.aligns, widths, widths.len() as int));
        lemma_utf8_len_concat(l0, seq!['\n']);
        lemma_utf8_len_concat(l0 + seq!['\n'], d);
        lemma_utf8_len_concat(l0 + seq!['\n'] + d, b);
    }
}


/// Byte length of the first `n` row lines, newlines left out.
pub open spec fn rows_len(g: Grid, widths: Seq<nat>, n: int) -> nat
    decreases n,
{
    if n <= 0 {
        0
    } else {
        rows_len(g, widths, n - 1) + line_len(g, widths, n - 1)
    }
}

/// Adding rows never shortens the count.
proof fn lemma_rows_len_grows(g: Grid, widths: Seq<nat>, m: int, n: int)
    requires
        0 <= m <= n,
    ensures
        rows_len(g, widths, m) <= rows_len(g, widths, n),
    decreases n - m,
{
    if m < n {
        lemma_rows_len_grows(g, widths, m, n - 1);
    }
}

/// Adding cells never shortens a row's count.
proof fn lemma_fields_len_grows(g: Grid, widths: Seq<nat>, r: int, c: int, k: int)
    requires
        0 <= c <= k,
    ensures
        fields_len(g, widths, r, c) <= fields_len(g, widths, r, k),
    decreases k - c,
{
    if c < k {
        lemma_fields_len_grows(g, widths, r, c, k - 1);
    }
}

/// Adding columns never shortens the delimiter row's count.
proof fn lemma_delimiter_fields_len_grows(widths: Seq<nat>, c: int, k: int)
    requires
        0 <= c <= k,
    ensures
        delimiter_fields_len(widths, c) <= delimiter_fields_len(widths, k),
    decreases k - c,
{
    if c < k {
        lemma_delimiter_fields_len_grows(widths, c, k - 1);
    }
}

pub(crate) proof fn lemma_body_len_as_rows_len(g: Grid, widths: Seq<nat>, n: int)
    requires
        n >= 1,
    ensures
        line_len(g, widths, 0) + body_len(g, widths, n) == rows_len(g, widths, n) + n - 1,
    decreases n,
{
    if n > 1 {
        lemma_body_len_as_rows_len(g, widths, n - 1);
    } else {
        assert(rows_len(g, widths, 0) == 0);
    }
}

/// Text of the cell in row `r`, column `c`, or the empty text past the end of
/// a row.
pub open spec fn cell_text(rows: Seq<Seq<Seq<char>>>, r: int, c: int) -> Seq<char> {
    if 0 <= r < rows.len() && 0 <= c < rows[r].len() {
        rows[r][c]
    } else {
        Seq::empty()
    }
}

/// The measurement `raw` gives a cell, clamped to the cell's length in bytes;
/// 0 past the end of a row.
pub open spec fn clamped_width(rows: Seq<Seq<Seq<char>>>, raw: Seq<Seq<usize>>, r: int, c: int) -> nat {
    if 0 <= r < rows.len() && 0 <= c < rows[r].len() {
        let bytes = utf8_len(rows[r][c]);
        let m = raw[r][c] as nat;
        if m <= bytes {
            m
        } else {
            bytes
        }
    } else {
        0
    }
}

/// Every cell's clamped measurement.
pub open spec fn clamped(rows: Seq<Seq<Seq<char>>>, raw: Seq<Seq<usize>>) -> spec_fn(int, int) -> nat {
    |r: int, c: int| clamped_width(rows, raw, r, c)
}

/// The grid of `rows` with the given measurements and per-column alignments.
pub open spec fn grid_of(
    rows: Seq<Seq<Seq<char>>>,
    measured: spec_fn(int, int) -> nat,
    aligns: Seq<Alignment>,
) -> Grid {
    Grid { rows: rows.len(), text: |r: int, c: int| cell_text(rows, r, c), measured, aligns }
}

/// `raw` holds one measurement per cell of `rows`.
pub open spec fn same_shape(rows: Seq<Seq<Seq<char>>>, raw: Seq<Seq<usize>>) -> bool {
    &&& raw.len() == rows.len()
    &&& forall|r: int| 0 <= r < rows.len() ==> (#[trigger] raw[r]).len() == rows[r].len()
}

/// No row is longer than `columns`.
pub open spec fn rows_within(rows: Seq<Seq<Seq<char>>>, columns: nat) -> bool {
    forall|r: int| 0 <= r < rows.len() ==> (#[trigger] rows[r]).len() <= columns
}

/// Everything the writer needs that the table does not already hold.
pub(crate) struct Layout {
    /// Rendered width of each column.
    pub(crate) widths: Vec<usize>,
    /// Alignment of each column, already fitted to the column count.
    pub(crate) aligns: Vec<Alignment>,
    /// Measured width of every cell, one entry per column in every row.
    pub(crate) cells: Vec<Vec<usize>>,
    /// Exact length of the rendered table in bytes, when it fits a `usize`.
    pub(crate) output_len: Option<usize>,
}

impl Layout {
    /// This layout holds the widths, alignments and measurements of `g`.
    pub(crate) open spec fn describes(&self, g: Grid) -> bool {
        &&& self.aligns@ == g.aligns
        &&& self.widths@.len() == g.aligns.len()
        &&& forall|c: int| 0 <= c < g.aligns.len() ==> self.widths@[c] == column_width(g, c)
        &&& self.cells@.len() == g.rows
        &&& forall|r: int| 0 <= r < g.rows ==> (#[trigger] self.cells@[r])@.len() == g.aligns.len()
        &&& forall|r: int, c: int|
            0 <= r < g.rows && 0 <= c < g.aligns.len() ==> #[trigger] self.cells@[r]@[c]
                == (g.measured)(r, c)
        &&& (self.output_len matches Some(n) ==> n == utf8_len(table_text(g)))
        &&& (self.output_len is None ==> utf8_len(table_text(g)) > usize::MAX)
    }

    /// Measures every cell, folds the column widths and counts the bytes the
    /// table will take.
    pub(crate) fn of(rows: &Vec<Vec<String>>, aligns: Vec<Alignment>, raw: &Vec<Vec<usize>>) -> (layout:
        Layout)
        requires
            same_shape(rows.deep_view(), raw.deep_view()),
            rows_within(rows.deep_view(), aligns@.len()),
        ensures
            layout.describes(grid_of(rows.deep_view(), clamped(rows.deep_view(), raw.deep_view()), aligns@)),
    {
        let ghost texts = rows.deep_view();
        let ghost g = grid_of(texts, clamped(texts, raw.deep_view()), aligns@);
        let columns = aligns.len();
        let mut widths: Vec<usize> = Vec::with_capacity(columns);
        for c in 0..columns
            invariant
                columns == aligns@.len(),
                widths@.len() == c,
                forall|cc: int| 0 <= cc < c ==> widths@[cc] == min_width(aligns@[cc]),
        {
            // A column starts at the narrowest delimiter its alignment can
            // write, so the delimiter never runs short of room.
            widths.push(aligns[c].min_width());
        }
        let row_count = rows.len();
        let mut cells: Vec<Vec<usize>> = Vec::with_capacity(row_count);
        for r in 0..row_count
            invariant
                row_count == rows@.len() == texts.len(),
                texts == rows.deep_view(),
                g == grid_of(texts, clamped(texts, raw.deep_view()), aligns@),
                same_shape(texts, raw.deep_view()),
                rows_within(texts, columns as nat),
                columns == aligns@.len(),
                widths@.len() == columns,
                forall|cc: int| 0 <= cc < columns ==> widths@[cc] == max_nat(
                    min_width(aligns@[cc]),
                    widest(g.measured, r as int, cc),
                ),
                cells@.len() == r,
                forall|rr: int| 0 <= rr < r ==> (#[trigger] cells@[rr])@.len() == columns,
                forall|rr: int, cc: int|
                    0 <= rr < r && 0 <= cc < columns ==> #[trigger] cells@[rr]@[cc]
                        == (g.measured)(rr, cc),
        {
            let row = &rows[r];
            let raw_row = &raw[r];
            assert(texts[r as int] == row.deep_view());
            assert(raw.deep_view()[r as int] == raw_row@);
            let mut slots: Vec<usize> = Vec::with_capacity(columns);
            for c in 0..columns
                invariant
                    row_count == rows@.len() == texts.len(),
                    0 <= r < row_count,
                    texts == rows.deep_view(),
                    texts[r as int] == row.deep_view(),
                    raw.deep_view()[r as int] == raw_row@,
                    g == grid_of(texts, clamped(texts, raw.deep_view()), aligns@),
                    same_shape(texts, raw.deep_view()),
                    rows_within(texts, columns as nat),
                    columns == aligns@.len(),
                    widths@.len() == columns,
                    forall|cc: int| 0 <= cc < columns ==> widths@[cc] == max_nat(
                        min_width(aligns@[cc]),
                        widest(g.measured, if cc < c { r + 1 } else { r as int }, cc),
                    ),
                    slots@.len() == c,
                    forall|cc: int| 0 <= cc < c ==> slots@[cc] == (g.measured)(r as int, cc),
            {
                // The measure is caller code. A value above the byte length
                // would let one small cell demand an unbounded run of spaces,
                // and no honest metric exceeds it.
                let width = if c < row.len() {
                    let bytes = row[c].as_str().as_bytes().len();
                    let measured = raw_row[c];
                    assert(texts[r as int][c as int] == row[c as int]@);
                    if measured <= bytes {
                        measured
                    } else {
                        bytes
                    }
                } else {
                    0
                };
                assert(width == (g.measured)(r as int, c as int));
                slots.push(width);
                if width > widths[c] {
                    widths.set(c, width);
                }
            }
            cells.push(slots);
        }
        let output_len = Self::count_bytes(rows, &widths, &cells, Ghost(g));
        Layout { widths, aligns, cells, output_len }
    }

    /// Adds the byte length of every line: the rows, the delimiter row, and the
    /// newlines between them.
    fn count_bytes(
        rows: &Vec<Vec<String>>,
        widths: &Vec<usize>,
        cells: &Vec<Vec<usize>>,
        Ghost(g): Ghost<Grid>,
    ) -> (total: Option<usize>)
        requires
            g.rows == rows@.len() == cells@.len(),
            g.text == (|r: int, c: int| cell_text(rows.deep_view(), r, c)),
            widths@.len() == g.aligns.len(),
            forall|c: int| 0 <= c < g.aligns.len() ==> widths@[c] == column_width(g, c),
            forall|r: int| 0 <= r < g.rows ==> (#[trigger] cells@[r])@.len() == g.aligns.len(),
            forall|r: int, c: int|
                0 <= r < g.rows && 0 <= c < g.aligns.len() ==> #[trigger] cells@[r]@[c]
                    == (g.measured)(r, c),
        ensures
            match total {
                Some(n) => n == utf8_len(table_text(g)),
                None => utf8_len(table_text(g)) > usize::MAX,
            },
    {
        let columns = widths.len();
        let row_count = rows.len();
        proof {
            lemma_text_len(g);
        }
        if columns == 0 || row_count == 0 {
            return Some(0);
        }
        let ghost cw = column_widths(g);
        proof {
            lemma_body_len_as_rows_len(g, cw, row_count as int);
        }
        let mut total: Option<usize> = Some(0);
        for r in 0..row_count
            invariant
                row_count == rows@.len() == cells@.len() == g.rows,
                columns == widths@.len() == g.aligns.len(),
                cw == column_widths(g),
                text_len(g) == rows_len(g, cw, row_count as int) + row_count + 1
                    + delimiter_fields_len(cw, columns as int),
                total is None ==> text_len(g) > usize::MAX,
                g.text == (|r: int, c: int| cell_text(rows.deep_view(), r, c)),
                forall|c: int| 0 <= c < columns ==> widths@[c] == cw[c],
                forall|r: int| 0 <= r < g.rows ==> (#[trigger] cells@[r])@.len() == columns,
                forall|r: int, c: int|
                    0 <= r < g.rows && 0 <= c < columns ==> #[trigger] cells@[r]@[c]
                        == (g.measured)(r, c),
                total matches Some(t) ==> t == rows_len(g, cw, r as int),
        {
            let row = &rows[r];
            let slots = &cells[r];
            proof {
                lemma_rows_fit(g, r as int);
                lemma_rows_len_grows(g, cw, r as int + 1, row_count as int);
            }
            let mut line: Option<usize> = Some(1);
            for c in 0..columns
                invariant
                    row_count == rows@.len() == cells@.len() == g.rows,
                    0 <= r < row_count,
                    columns == widths@.len() == g.aligns.len(),
                    cw == column_widths(g),
                    g.text == (|r: int, c: int| cell_text(rows.deep_view(), r, c)),
                    forall|c: int| 0 <= c < columns ==> widths@[c] == cw[c],
                    slots@ == cells@[r as int]@,
                    slots@.len() == columns,
                    row@ == rows@[r as int]@,
                    forall|c: int| 0 <= c < columns ==> slots@[c] == (g.measured)(r as int, c),
                    row_fits(g, cw, r as int),
                    line matches Some(t) ==> t == 1 + fields_len(g, cw, r as int, c as int),
                    line_len(g, cw, r as int) <= text_len(g),
                    line is None ==> text_len(g) > usize::MAX,
            {
                let bytes = if c < row.len() {
                    row[c].as_str().as_bytes().len()
                } else {
                    0
                };
                assert(bytes == utf8_len((g.text)(r as int, c as int))) by {
                    assert(rows.deep_view()[r as int] == row.deep_view());
                    if c < row.len() {
                        assert(rows.deep_view()[r as int][c as int] == row[c as int]@);
                    } else {
                        assert(utf8_len(Seq::<char>::empty()) == 0);
                    }
                }
                assert(slots@[c as int] <= widths@[c as int]) by {
                    assert(row_fits(g, cw, r as int));
                    assert((g.measured)(r as int, c as int) <= cw[c as int]);
                }
                let pad = widths[c] - slots[c];
                proof {
                    lemma_fields_len_grows(g, cw, r as int, c as int + 1, columns as int);
                }
                line = add_checked(line, 3);
                line = add_checked(line, pad);
                line = add_checked(line, bytes);
            }
            match line {
                Some(n) => {
                    total = add_checked(total, n);
                },
                None => {
                    total = None;
                },
            }
        }
        // Each line after the first is preceded by a newline; the delimiter
        // row is a pipe and one field per column.
        let mut delimiter: Option<usize> = Some(1);
        for c in 0..columns
            invariant
                columns == widths@.len() == g.aligns.len(),
                cw == column_widths(g),
                forall|c: int| 0 <= c < columns ==> widths@[c] == cw[c],
                delimiter matches Some(t) ==> t == 1 + delimiter_fields_len(cw, c as int),
                text_len(g) == rows_len(g, cw, g.rows as int) + g.rows + 1
                    + delimiter_fields_len(cw, columns as int),
                delimiter is None ==> text_len(g) > usize::MAX,
        {
            proof {
                lemma_delimiter_fields_len_grows(cw, c as int + 1, columns as int);
            }
            delimiter = add_checked(delimiter, 3);
            delimiter = add_checked(delimiter, widths[c]);
        }
        total = add_checked(total, row_count);
        match delimiter {
            Some(n) => add_checked(total, n),
            None => None,
        }
    }
}

/// `total + n`, or `None` when either is missing or the sum overflows.
fn add_checked(total: Option<usize>, n: usize) -> (sum: Option<usize>)
    ensures
        sum == (match total {
            Some(t) => if t + n <= usize::MAX {
                Some((t + n) as usize)
            } else {
                None
            },
            None => None,
        }),
{
    match total {
        Some(t) => t.checked_add(n),
        None => None,
    }
}


/// Writes the whole table: the header, the delimiter row, then every other
/// row, one per line, with no newline at the end.
#[verifier::rlimit(30)]
pub(crate) fn write_table(rows: &Vec<Vec<String>>, layout: &Layout, out: &mut String, Ghost(g): Ghost<Grid>)
    requires
        layout.describes(g),
        g.rows == rows@.len(),
        g.text == (|r: int, c: int| cell_text(rows.deep_view(), r, c)),
    ensures
        final(out)@ == old(out)@ + table_text(g),
{
    // No columns means no table. A run of empty lines is not something a
    // caller can paste into a document.
    if layout.aligns.len() == 0 {
        assert(old(out)@ + table_text(g) =~= old(out)@);
        return;
    }
    let ghost cw = column_widths(g);
    assert forall|c: int| 0 <= c < cw.len() implies layout.widths@[c] == #[trigger] cw[c] by {}
    let row_count = rows.len();
    for index in 0..row_count
        invariant
            row_count == rows@.len() == g.rows,
            layout.describes(g),
            layout.aligns@.len() > 0,
            g.text == (|r: int, c: int| cell_text(rows.deep_view(), r, c)),
            cw == column_widths(g),
            forall|c: int| 0 <= c < cw.len() ==> layout.widths@[c] == #[trigger] cw[c],
            out@ == old(out)@ + lines_through(g, cw, index as int),
    {
        if index > 0 {
            push_char(out, '\n');
        }
        write_row(
            &rows[index],
            layout,
            &layout.cells[index],
            out,
            Ghost(g),
            Ghost(rows.deep_view()),
            Ghost(index as int),
        );
        if index == 0 {
            push_char(out, '\n');
            write_delimiter(layout, out, Ghost(g));
            assert(out@ =~= old(out)@ + lines_through(g, cw, 1));
        } else {
            assert(out@ =~= old(out)@ + lines_through(g, cw, index + 1));
        }
    }
}

#[verifier::rlimit(30)]
fn write_row(
    row: &Vec<String>,
    layout: &Layout,
    measured: &Vec<usize>,
    out: &mut String,
    Ghost(g): Ghost<Grid>,
    Ghost(texts): Ghost<Seq<Seq<Seq<char>>>>,
    Ghost(r): Ghost<int>,
)
    requires
        layout.describes(g),
        0 <= r < g.rows,
        measured@ == layout.cells@[r]@,
        g.text == (|r: int, c: int| cell_text(texts, r, c)),
        0 <= r < texts.len(),
        texts[r] == row.deep_view(),
    ensures
        final(out)@ == old(out)@ + row_line(g, column_widths(g), r),
{
    let ghost cw = column_widths(g);
    proof {
        lemma_rows_fit(g, r);
    }
    push_char(out, '|');
    let columns = layout.widths.len();
    assert forall|c: int| 0 <= c < columns implies #[trigger] measured@[c] == (g.measured)(r, c)
        && (g.measured)(r, c) <= cw[c] && layout.widths@[c] == cw[c] by {
        assert(row_fits(g, cw, r));
    }
    for column in 0..columns
        invariant
            columns == layout.widths@.len() == g.aligns.len() == cw.len() == measured@.len(),
            layout.aligns@ == g.aligns,
            cw == column_widths(g),
            forall|c: int|
                0 <= c < columns ==> #[trigger] measured@[c] == (g.measured)(r, c) && (g.measured)(
                    r,
                    c,
                ) <= cw[c] && layout.widths@[c] == cw[c],
            g.text == (|r: int, c: int| cell_text(texts, r, c)),
            0 <= r < texts.len(),
            texts[r] == row.deep_view(),
            out@ == old(out)@ + seq!['|'] + row_fields(g, cw, r, column as int),
    {
        let width = layout.widths[column];
        let alignment = layout.aligns[column];
        let cell_width = measured[column];
        let ghost text = (g.text)(r, column as int);
        proof {
            assert(text == cell_text(texts, r, column as int));
            if column as int >= row@.len() {
                assert(texts[r].len() == row@.len());
            } else {
                assert(texts[r][column as int] == row@[column as int]@);
            }
        }
        write_row_cell(row, out, column, width, cell_width, alignment, Ghost(text));
        proof {
            let field = cell_field(text, cell_width as nat, width as nat, alignment);
            assert(row_fields(g, cw, r, column + 1) == row_fields(g, cw, r, column as int) + field);
            assert(out@ =~= old(out)@ + seq!['|'] + row_fields(g, cw, r, column + 1));
        }
    }
    assert(out@ =~= old(out)@ + row_line(g, cw, r));
}

/// Writes the cell in column `column` of `row`, or an empty cell past the end
/// of the row, padded to `width`.
fn write_row_cell(
    row: &Vec<String>,
    out: &mut String,
    column: usize,
    width: usize,
    cell_width: usize,
    alignment: Alignment,
    Ghost(text): Ghost<Seq<char>>,
)
    requires
        cell_width <= width,
        text == (if column < row@.len() {
            row@[column as int]@
        } else {
            Seq::<char>::empty()
        }),
    ensures
        final(out)@ == old(out)@ + cell_field(text, cell_width as nat, width as nat, alignment),
{
    let fill = width - cell_width;
    let left = left_padding(alignment, fill);
    // A row shorter than the table is a row padded with empty cells.
    if column < row.len() {
        write_field(out, row[column].as_str(), left, fill - left);
    } else {
        let empty = String::new();
        write_field(out, empty.as_str(), left, fill - left);
    }
    proof {
        lemma_field_is_cell_field(
            text,
            cell_width as nat,
            width as nat,
            alignment,
            left as nat,
            (fill - left) as nat,
        );
    }
}

/// Spaces on the left of a cell whose padding is `fill` spaces.
fn left_padding(alignment: Alignment, fill: usize) -> (left: usize)
    ensures
        left == left_fill(alignment, fill as nat),
        left <= fill,
{
    match alignment {
        Alignment::Right => fill,
        // An odd space goes on the left of a centred cell.
        Alignment::Center => fill / 2 + fill % 2,
        Alignment::Unaligned | Alignment::Left => 0,
    }
}

proof fn lemma_field_is_cell_field(
    text: Seq<char>,
    measured: nat,
    width: nat,
    a: Alignment,
    left: nat,
    right: nat,
)
    requires
        measured <= width,
        left == left_fill(a, (width - measured) as nat),
        right == (width - measured) - left,
    ensures
        seq![' '] + repeat_char(' ', left) + text + repeat_char(' ', right) + seq![' ', '|']
            == cell_field(text, measured, width, a),
{
}

/// Writes one cell: a space, `left` spaces, the text, `right` spaces, a space
/// and the closing pipe.
fn write_field(out: &mut String, cell: &str, left: usize, right: usize)
    ensures
        final(out)@ == old(out)@ + seq![' '] + repeat_char(' ', left as nat) + cell@ + repeat_char(
            ' ',
            right as nat,
        ) + seq![' ', '|'],
{
    push_char(out, ' ');
    push_repeated(out, ' ', left);
    out.append(cell);
    push_repeated(out, ' ', right);
    push_char(out, ' ');
    push_char(out, '|');
    assert(out@ =~= old(out)@ + seq![' '] + repeat_char(' ', left as nat) + cell@ + repeat_char(
        ' ',
        right as nat,
    ) + seq![' ', '|']);
}

#[verifier::rlimit(30)]
fn write_delimiter(layout: &Layout, out: &mut String, Ghost(g): Ghost<Grid>)
    requires
        layout.describes(g),
    ensures
        final(out)@ == old(out)@ + delimiter_line(g.aligns, column_widths(g)),
{
    let ghost cw = column_widths(g);
    push_char(out, '|');
    let columns = layout.widths.len();
    for column in 0..columns
        invariant
            layout.describes(g),
            columns == layout.widths@.len() == g.aligns.len(),
            cw == column_widths(g),
            out@ == old(out)@ + seq!['|'] + delimiter_fields(g.aligns, cw, column as int),
    {
        let ghost before = out@;
        let width = layout.widths[column];
        let alignment = layout.aligns[column];
        assert(width == cw[column as int]);
        assert(min_width(alignment) <= width);
        push_char(out, ' ');
        match alignment {
            Alignment::Unaligned => push_repeated(out, '-', width),
            Alignment::Left => {
                push_char(out, ':');
                push_repeated(out, '-', width - 1);
            },
            Alignment::Right => {
                push_repeated(out, '-', width - 1);
                push_char(out, ':');
            },
            Alignment::Center => {
                push_char(out, ':');
                push_repeated(out, '-', width - 2);
                push_char(out, ':');
            },
        }
        push_char(out, ' ');
        push_char(out, '|');
        assert(out@ =~= before + seq![' '] + delimiter_text(alignment, width as nat) + seq![' ', '|']);
    }
    assert(out@ =~= old(out)@ + delimiter_line(g.aligns, cw));
}

} // verus!
