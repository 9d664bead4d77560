//! The table itself: rows, alignments, and the entry points that render.

use std::borrow::Cow;
use vstd::prelude::*;

use crate::debug::{append_every_debug, append_per_column_debug, append_rows_debug, table_debug};
use crate::escape::{escape_cell, escape_text, escaped_text_is_cell_text, is_cell_text};
use crate::render::{
    cell_text, clamped, grid_of, rows_within, same_shape, table_text, write_table, Grid, Layout,
};
use crate::text::{lemma_utf8_len_at_least_chars, string_with_capacity};
use vstd::string::{StrSliceExecFns, StringExecFns};

verus! {

/// Column alignment.
///
/// The variant decides the delimiter row for the column and the side the
/// padding goes on. [`Alignment::Unaligned`] omits the colon, which leaves the choice
/// to whatever reads the table.
#[derive(Clone, Copy, Debug, PartialEq, Eq, Structural, Hash, PartialOrd, Ord)]
pub enum Alignment {
    /// No colon. The column is padded on the right, like [`Alignment::Left`],
    /// and the reader applies its own default.
    Unaligned,
    /// A colon on the left of the delimiter. Padding goes on the right.
    Left,
    /// A colon on each end of the delimiter. Padding is split, and an odd space
    /// goes on the left of the cell.
    Center,
    /// A colon on the right of the delimiter. Padding goes on the left.
    Right,
}

/// Narrowest delimiter that still carries an alignment.
pub open spec fn min_width(a: Alignment) -> nat {
    match a {
        Alignment::Unaligned => 1,
        Alignment::Left => 2,
        Alignment::Right => 2,
        Alignment::Center => 3,
    }
}

impl Alignment {
    /// Narrowest delimiter that still carries this alignment.
    pub(crate) fn min_width(self) -> (w: usize)
        ensures
            w == min_width(self),
    {
        match self {
            Alignment::Unaligned => 1,
            Alignment::Left | Alignment::Right => 2,
            Alignment::Center => 3,
        }
    }
}

/// [`Alignment::Unaligned`], which is the delimiter row with no colon in it.
impl Default for Alignment {
    fn default() -> (a: Self)
        ensures
            a == Alignment::Unaligned,
    {
        Alignment::Unaligned
    }
}


/// How the caller asked for columns to be aligned, as a value: one alignment
/// for every column, or one per column with `Unaligned` past the end.
pub enum AlignmentChoice {
    /// The same alignment for every column, however many there are.
    Every(Alignment),
    /// One alignment per column, first column first.
    PerColumn(Seq<Alignment>),
}

/// Alignment of column `c` under `choice`.
pub open spec fn alignment_at(choice: AlignmentChoice, c: int) -> Alignment {
    match choice {
        AlignmentChoice::Every(a) => a,
        AlignmentChoice::PerColumn(list) => if 0 <= c < list.len() {
            list[c]
        } else {
            Alignment::Unaligned
        },
    }
}

/// The alignments of the first `columns` columns.
pub open spec fn fitted(choice: AlignmentChoice, columns: nat) -> Seq<Alignment> {
    Seq::new(columns, |c: int| alignment_at(choice, c))
}

/// Cell count of the widest row.
pub open spec fn column_count(rows: Seq<Seq<Seq<char>>>) -> nat
    decreases rows.len(),
{
    if rows.len() == 0 {
        0
    } else {
        let rest = column_count(rows.drop_last());
        if rest >= rows.last().len() {
            rest
        } else {
            rows.last().len()
        }
    }
}

/// The default measure: a cell is as wide as it has `char` values, and a
/// missing cell is 0 wide.
pub open spec fn char_widths(rows: Seq<Seq<Seq<char>>>) -> spec_fn(int, int) -> nat {
    |r: int, c: int| cell_text(rows, r, c).len()
}

/// What a table holds: its rows of escaped cells, header first, and the
/// alignment the caller asked for.
pub struct TableModel {
    /// The rows, header first; each row is its cells' escaped text.
    pub rows: Seq<Seq<Seq<char>>>,
    /// The alignment last set.
    pub alignments: AlignmentChoice,
}

impl TableModel {
    /// Column count of the rendered table.
    pub open spec fn columns(self) -> nat {
        column_count(self.rows)
    }

    /// One alignment per column, fitted to the column count.
    pub open spec fn fitted_alignments(self) -> Seq<Alignment> {
        fitted(self.alignments, self.columns())
    }

    /// The rendered table with cells measured by `measured`.
    pub open spec fn rendered_with(self, measured: spec_fn(int, int) -> nat) -> Seq<char> {
        table_text(grid_of(self.rows, measured, self.fitted_alignments()))
    }

    /// The rendered table with the default measure.
    pub open spec fn rendered(self) -> Seq<char> {
        self.rendered_with(char_widths(self.rows))
    }

    /// The grid the default measure renders.
    pub open spec fn grid(self) -> Grid {
        grid_of(self.rows, char_widths(self.rows), self.fitted_alignments())
    }

    /// Width of column `c` under the default measure.
    pub open spec fn column_width(self, c: int) -> nat {
        crate::render::column_width(self.grid(), c)
    }

    /// The same table with one more row, whose cells are escaped.
    pub open spec fn with_row(self, cells: Seq<Seq<char>>) -> TableModel {
        TableModel { rows: self.rows.push(escaped_cells(cells)), alignments: self.alignments }
    }

    /// Every stored cell is safe cell text: no line break, no unescaped pipe.
    pub open spec fn cells_are_escaped(self) -> bool {
        forall|r: int, c: int|
            0 <= r < self.rows.len() && 0 <= c < self.rows[r].len() ==> is_cell_text(
                #[trigger] self.rows[r][c],
            )
    }

    /// The same rows with other alignments.
    pub open spec fn with_alignments(self, alignments: AlignmentChoice) -> TableModel {
        TableModel { rows: self.rows, alignments }
    }
}

/// Values that can be pushed as one row: a list of cell texts.
pub trait RowCells: crate::sealed::Sealed {
    /// The texts of the cells, in order.
    spec fn cell_texts(&self) -> Seq<Seq<char>>;

    /// Number of cells.
    fn cell_count(&self) -> (n: usize)
        ensures
            n == self.cell_texts().len(),
    ;

    /// Text of cell `i`.
    fn cell(&self, i: usize) -> (text: &str)
        requires
            i < self.cell_texts().len(),
        ensures
            text@ == self.cell_texts()[i as int],
    ;
}

impl<'a, const N: usize> RowCells for [&'a str; N] {
    open spec fn cell_texts(&self) -> Seq<Seq<char>> {
        self@.map_values(|s: &str| s@)
    }

    fn cell_count(&self) -> (n: usize) {
        N
    }

    fn cell(&self, i: usize) -> (text: &str) {
        self[i]
    }
}

impl<const N: usize> RowCells for [String; N] {
    open spec fn cell_texts(&self) -> Seq<Seq<char>> {
        self@.map_values(|s: String| s@)
    }

    fn cell_count(&self) -> (n: usize) {
        N
    }

    fn cell(&self, i: usize) -> (text: &str) {
        self[i].as_str()
    }
}

impl<'a, 'b> RowCells for &'a [&'b str] {
    open spec fn cell_texts(&self) -> Seq<Seq<char>> {
        self@.map_values(|s: &str| s@)
    }

    fn cell_count(&self) -> (n: usize) {
        self.len()
    }

    fn cell(&self, i: usize) -> (text: &str) {
        self[i]
    }
}

impl<'a> RowCells for &'a [String] {
    open spec fn cell_texts(&self) -> Seq<Seq<char>> {
        self@.map_values(|s: String| s@)
    }

    fn cell_count(&self) -> (n: usize) {
        self.len()
    }

    fn cell(&self, i: usize) -> (text: &str) {
        self[i].as_str()
    }
}

impl<'a> RowCells for Vec<&'a str> {
    open spec fn cell_texts(&self) -> Seq<Seq<char>> {
        self@.map_values(|s: &str| s@)
    }

    fn cell_count(&self) -> (n: usize) {
        self.len()
    }

    fn cell(&self, i: usize) -> (text: &str) {
        self[i]
    }
}

impl RowCells for Vec<String> {
    open spec fn cell_texts(&self) -> Seq<Seq<char>> {
        self@.map_values(|s: String| s@)
    }

    fn cell_count(&self) -> (n: usize) {
        self.len()
    }

    fn cell(&self, i: usize) -> (text: &str) {
        self[i].as_str()
    }
}

impl<'a, R: RowCells> RowCells for &'a R {
    open spec fn cell_texts(&self) -> Seq<Seq<char>> {
        (**self).cell_texts()
    }

    fn cell_count(&self) -> (n: usize) {
        (**self).cell_count()
    }

    fn cell(&self, i: usize) -> (text: &str) {
        (**self).cell(i)
    }
}

/// Values that can be set as per-column alignments: a list of alignments.
pub trait AlignmentList: crate::sealed::Sealed {
    /// The alignments, first column first.
    spec fn alignment_seq(&self) -> Seq<Alignment>;

    /// The alignments as a vector.
    fn into_alignments(self) -> (v: Vec<Alignment>)
        ensures
            v@ == self.alignment_seq(),
    ;
}

impl<const N: usize> AlignmentList for [Alignment; N] {
    open spec fn alignment_seq(&self) -> Seq<Alignment> {
        self@
    }

    fn into_alignments(self) -> (v: Vec<Alignment>) {
        let mut v: Vec<Alignment> = Vec::with_capacity(N);
        for i in 0..N
            invariant
                v@ == self@.subrange(0, i as int),
        {
            v.push(self[i]);
            assert(v@ =~= self@.subrange(0, i + 1));
        }
        assert(self@.subrange(0, N as int) =~= self@);
        v
    }
}

impl AlignmentList for Vec<Alignment> {
    open spec fn alignment_seq(&self) -> Seq<Alignment> {
        self@
    }

    fn into_alignments(self) -> (v: Vec<Alignment>) {
        self
    }
}

impl<'a> AlignmentList for &'a [Alignment] {
    open spec fn alignment_seq(&self) -> Seq<Alignment> {
        self@
    }

    fn into_alignments(self) -> (v: Vec<Alignment>) {
        let mut v: Vec<Alignment> = Vec::with_capacity(self.len());
        for i in 0..self.len()
            invariant
                v@ == self@.subrange(0, i as int),
        {
            v.push(self[i]);
            assert(v@ =~= self@.subrange(0, i + 1));
        }
        assert(self@.subrange(0, self@.len() as int) =~= self@);
        v
    }
}

/// How the caller set alignments. Fitting to the column count happens at
/// render time, so rows added later still get the alignment the caller asked
/// for.
enum Alignments {
    Every(Alignment),
    PerColumn(Vec<Alignment>),
}

impl View for Alignments {
    type V = AlignmentChoice;

    closed spec fn view(&self) -> AlignmentChoice {
        match self {
            Alignments::Every(a) => AlignmentChoice::Every(*a),
            Alignments::PerColumn(list) => AlignmentChoice::PerColumn(list@),
        }
    }
}

/// The default width measure: a cell is as wide as its count of `char`
/// values.
#[derive(Clone, Copy, Debug, Default)]
pub struct CharCount;

/// Rows of cells that render as one GitHub Flavored Markdown table.
///
/// The first row pushed is the header. Cells are escaped once, when their row
/// is added, so rendering twice does not escape twice.
pub struct Table<F = CharCount> {
    rows: Vec<Vec<String>>,
    alignments: Alignments,
    measure: F,
}

impl<F> Table<F> {
    /// Cells are escaped on the way in, so the table only ever holds safe cell
    /// text.
    #[verifier::type_invariant]
    spec fn holds_escaped_cells(self) -> bool {
        self@.cells_are_escaped()
    }

    /// The function that measures a cell for padding.
    pub closed spec fn measure(&self) -> F {
        self.measure
    }
}

/// `width` is what `measure` returned when it was called on a cell whose text
/// is `text`.
pub open spec fn measured_by<F: Fn(&str) -> usize>(measure: F, text: Seq<char>, width: usize) -> bool {
    exists|cell: &str| cell@ == text && call_ensures(measure, (cell,), width)
}

/// Every entry of `measured` is what `measure` returned on the cell in the
/// same place.
pub open spec fn all_measured_by<F: Fn(&str) -> usize>(
    measure: F,
    rows: Seq<Seq<Seq<char>>>,
    measured: Seq<Seq<usize>>,
) -> bool {
    forall|r: int, c: int|
        0 <= r < rows.len() && 0 <= c < rows[r].len() ==> measured_by(
            measure,
            rows[r][c],
            #[trigger] measured[r][c],
        )
}

impl<F> View for Table<F> {
    type V = TableModel;

    closed spec fn view(&self) -> TableModel {
        TableModel { rows: self.rows.deep_view(), alignments: self.alignments@ }
    }
}

/// The escaped form of every cell in `cells`.
pub open spec fn escaped_cells(cells: Seq<Seq<char>>) -> Seq<Seq<char>> {
    cells.map_values(|cell: Seq<char>| escape_text(cell))
}

/// A copy of every row.
fn copy_rows(rows: &Vec<Vec<String>>) -> (copy: Vec<Vec<String>>)
    ensures
        copy.deep_view() == rows.deep_view(),
{
    let mut copy: Vec<Vec<String>> = Vec::with_capacity(rows.len());
    for r in 0..rows.len()
        invariant
            copy@.len() == r,
            forall|rr: int| 0 <= rr < r ==> (#[trigger] copy@[rr]).deep_view() == rows@[rr].deep_view(),
    {
        let row = &rows[r];
        let mut cells: Vec<String> = Vec::with_capacity(row.len());
        for c in 0..row.len()
            invariant
                cells@.len() == c,
                forall|cc: int| 0 <= cc < c ==> (#[trigger] cells@[cc])@ == row@[cc]@,
        {
            cells.push(row[c].clone());
        }
        assert(cells.deep_view() =~= row.deep_view());
        copy.push(cells);
    }
    assert(copy.deep_view() =~= rows.deep_view());
    copy
}

/// A copy of the alignment choice.
fn copy_alignments(alignments: &Alignments) -> (copy: Alignments)
    ensures
        copy@ == alignments@,
{
    match alignments {
        Alignments::Every(a) => Alignments::Every(*a),
        Alignments::PerColumn(list) => {
            let mut copy: Vec<Alignment> = Vec::with_capacity(list.len());
            for i in 0..list.len()
                invariant
                    copy@ == list@.subrange(0, i as int),
            {
                copy.push(list[i]);
                assert(copy@ =~= list@.subrange(0, i + 1));
            }
            assert(list@.subrange(0, list.len() as int) =~= list@);
            Alignments::PerColumn(copy)
        },
    }
}

/// A copy of the table: the same rows, the same alignments, and a clone of
/// the width function.
impl<F: Clone> Clone for Table<F> {
    fn clone(&self) -> (copy: Self)
        ensures
            copy@.cells_are_escaped(),
            copy@ == self@,
            cloned(self.measure(), copy.measure()),
    {
        proof {
            use_type_invariant(self);
        }
        Table {
            rows: copy_rows(&self.rows),
            alignments: copy_alignments(&self.alignments),
            measure: self.measure.clone(),
        }
    }
}

/// Every escaped cell is safe cell text.
proof fn escaped_cells_are_cell_text(cells: Seq<Seq<char>>)
    ensures
        forall|c: int| 0 <= c < cells.len() ==> is_cell_text(#[trigger] escaped_cells(cells)[c]),
{
    assert forall|c: int| 0 <= c < cells.len() implies is_cell_text(
        #[trigger] escaped_cells(cells)[c],
    ) by {
        escaped_text_is_cell_text(cells[c]);
    }
}

/// Escapes one cell and owns the result.
fn escaped_string(cell: &str) -> (s: String)
    ensures
        s@ == escape_text(cell@),
{
    match escape_cell(cell) {
        Cow::Borrowed(text) => text.to_owned(),
        Cow::Owned(text) => text,
    }
}

/// Every row fits the column count, and some row reaches it.
pub proof fn lemma_column_count_bounds(rows: Seq<Seq<Seq<char>>>)
    ensures
        rows_within(rows, column_count(rows)),
        rows.len() > 0 ==> exists|r: int| 0 <= r < rows.len() && rows[r].len() == column_count(rows),
    decreases rows.len(),
{
    if rows.len() > 0 {
        lemma_column_count_bounds(rows.drop_last());
        assert forall|r: int| 0 <= r < rows.len() implies (#[trigger] rows[r]).len() <= column_count(rows) by {
            if r < rows.len() - 1 {
                assert(rows[r] == rows.drop_last()[r]);
            }
        }
        if column_count(rows.drop_last()) >= rows.last().len() && rows.len() > 1 {
            let r = choose|r: int| 0 <= r < rows.drop_last().len() && rows.drop_last()[r].len() == column_count(rows.drop_last());
            assert(rows[r] == rows.drop_last()[r]);
        } else {
            assert(rows[rows.len() - 1] == rows.last());
        }
    }
}

impl Table<CharCount> {
    /// Creates a table with no rows, no alignment, and character counting as
    /// the width measure.
    #[must_use]
    pub fn new() -> (table: Self)
        ensures
            table@.cells_are_escaped(),
            table@.rows == Seq::<Seq<Seq<char>>>::empty(),
            table@.alignments == AlignmentChoice::Every(Alignment::Unaligned),
    {
        let table = Table {
            rows: Vec::new(),
            alignments: Alignments::Every(Alignment::Unaligned),
            measure: CharCount,
        };
        assert(table@.rows =~= Seq::<Seq<Seq<char>>>::empty());
        table
    }

    /// Renders the table as Markdown, measuring each cell by its count of
    /// `char` values.
    ///
    /// Lines are joined with `\n` and there is no trailing newline.
    #[must_use]
    pub fn render(&self) -> (out: String)
        ensures
            out@ == self@.rendered(),
    {
        let raw = char_counts(&self.rows);
        let out = self.render_measured(&raw);
        proof {
            let rows = self@.rows;
            assert forall|r: int, c: int| #[trigger] clamped(rows, raw.deep_view())(r, c) == char_widths(rows)(r, c) by {
                if 0 <= r < rows.len() && 0 <= c < rows[r].len() {
                    lemma_utf8_len_at_least_chars(rows[r][c]);
                }
            }
            assert(clamped(rows, raw.deep_view()) =~= char_widths(rows));
        }
        out
    }
}

/// An empty table, the same as [`Table::new`].
impl Default for Table<CharCount> {
    fn default() -> (table: Self)
        ensures
            table@.cells_are_escaped(),
            table@.rows == Seq::<Seq<Seq<char>>>::empty(),
            table@.alignments == AlignmentChoice::Every(Alignment::Unaligned),
    {
        Table::new()
    }
}

impl Table<CharCount> {
    /// Collects rows straight into a table, header first: the same table as
    /// [`Table::new`] followed by [`Table::push_row`] for each row in turn.
    pub fn from_rows<R: RowCells>(rows: &[R]) -> (table: Self)
        ensures
            table@.cells_are_escaped(),
            table@.rows == rows@.map_values(|row: R| escaped_cells(row.cell_texts())),
            table@.alignments == AlignmentChoice::Every(Alignment::Unaligned),
    {
        let mut table = Table::new();
        table.extend_rows(rows);
        assert(table@.rows =~= rows@.map_values(|row: R| escaped_cells(row.cell_texts())));
        table
    }
}

impl<F> Table<F> {
    /// Appends rows to a table that may already have some, pushing each with
    /// [`Table::push_row`].
    pub fn extend_rows<R: RowCells>(&mut self, rows: &[R])
        ensures
            final(self)@.cells_are_escaped(),
            final(self)@.rows == old(self)@.rows + rows@.map_values(
                |row: R| escaped_cells(row.cell_texts()),
            ),
            final(self)@.alignments == old(self)@.alignments,
            final(self).measure() == old(self).measure(),
    {
        for i in 0..rows.len()
            invariant
                self.measure() == old(self).measure(),
                self@.rows == old(self)@.rows + rows@.subrange(0, i as int).map_values(
                    |row: R| escaped_cells(row.cell_texts()),
                ),
                self@.alignments == old(self)@.alignments,
        {
            self.push_row(&rows[i]);
            assert(rows@.subrange(0, i + 1).map_values(|row: R| escaped_cells(row.cell_texts()))
                =~= rows@.subrange(0, i as int).map_values(
                |row: R| escaped_cells(row.cell_texts()),
            ).push(escaped_cells(rows@[i as int].cell_texts())));
            assert(self@.rows =~= old(self)@.rows + rows@.subrange(0, i + 1).map_values(
                |row: R| escaped_cells(row.cell_texts()),
            ));
        }
        assert(rows@.subrange(0, rows@.len() as int) =~= rows@);
        proof {
            use_type_invariant(&*self);
        }
    }

    /// Adds one row. The first row added is the header. Every cell is escaped
    /// with [`escape_cell`](crate::escape_cell) on the way in.
    ///
    /// Rows may differ in length. The table is as wide as its widest row and
    /// short rows render with empty cells at the end.
    pub fn push_row<R: RowCells>(&mut self, cells: R) -> (table: &mut Self)
        ensures
            table@.cells_are_escaped(),
            table@ == old(self)@.with_row(cells.cell_texts()),
            table.measure() == old(self).measure(),
            *final(table) == *final(self),
    {
        let count = cells.cell_count();
        let mut row: Vec<String> = Vec::with_capacity(count);
        for i in 0..count
            invariant
                count == cells.cell_texts().len(),
                row.deep_view() == escaped_cells(cells.cell_texts().subrange(0, i as int)),
                row@.map_values(|s: String| s@) == row.deep_view(),
                row@.len() == i,
        {
            let escaped = escaped_string(cells.cell(i));
            let ghost before = row@;
            row.push(escaped);
            assert forall|j: int| 0 <= j <= i implies #[trigger] row.deep_view()[j] == escaped_cells(
                cells.cell_texts().subrange(0, i + 1),
            )[j] by {
                if j < i {
                    assert(row@[j] == before[j]);
                    assert(before.map_values(|s: String| s@)[j] == escaped_cells(
                        cells.cell_texts().subrange(0, i as int),
                    )[j]);
                }
            }
            assert(row.deep_view() =~= escaped_cells(cells.cell_texts().subrange(0, i + 1)));
        }
        assert(cells.cell_texts().subrange(0, count as int) =~= cells.cell_texts());
        proof {
            use_type_invariant(&*self);
            escaped_cells_are_cell_text(cells.cell_texts());
        }
        let mut rows: Vec<Vec<String>> = Vec::new();
        std::mem::swap(&mut rows, &mut self.rows);
        let ghost old_rows = rows.deep_view();
        rows.push(row);
        assert(rows.deep_view() =~= old_rows.push(escaped_cells(cells.cell_texts())));
        self.rows = rows;
        self
    }

    /// Sets one alignment per column, replacing whatever was set before.
    ///
    /// A list shorter than the table is filled out with
    /// [`Alignment::Unaligned`]; extra entries of a longer list are ignored.
    pub fn set_alignments<A: AlignmentList>(&mut self, alignments: A) -> (table: &mut Self)
        ensures
            table@.cells_are_escaped(),
            table@ == old(self)@.with_alignments(
                AlignmentChoice::PerColumn(alignments.alignment_seq()),
            ),
            table.measure() == old(self).measure(),
            *final(table) == *final(self),
    {
        proof {
            use_type_invariant(&*self);
        }
        self.alignments = Alignments::PerColumn(alignments.into_alignments());
        self
    }

    /// Sets one alignment for every column, replacing whatever was set before.
    pub fn set_alignment(&mut self, alignment: Alignment) -> (table: &mut Self)
        ensures
            table@.cells_are_escaped(),
            table@ == old(self)@.with_alignments(AlignmentChoice::Every(alignment)),
            table.measure() == old(self).measure(),
            *final(table) == *final(self),
    {
        proof {
            use_type_invariant(&*self);
        }
        self.alignments = Alignments::Every(alignment);
        self
    }

    /// Replaces the function that measures a cell for padding with another of
    /// the same type. The rows and alignments stay as they are.
    pub fn set_cell_width(&mut self, measure: F) -> (table: &mut Self)
        ensures
            table@.cells_are_escaped(),
            table@ == old(self)@,
            table.measure() == measure,
            *final(table) == *final(self),
    {
        proof {
            use_type_invariant(&*self);
        }
        self.measure = measure;
        self
    }

    /// The same table measured by `measure`, which may be any
    /// `Fn(&str) -> usize`: a closure carrying a width table, or a display
    /// width function from a crate of your choice.
    ///
    /// A measurement larger than the cell's length in bytes is clamped to that
    /// length.
    pub fn with_cell_width<G: Fn(&str) -> usize>(self, measure: G) -> (table: Table<G>)
        ensures
            table@.cells_are_escaped(),
            table@ == self@,
            table.measure() == measure,
    {
        proof {
            use_type_invariant(&self);
        }
        Table { rows: self.rows, alignments: self.alignments, measure }
    }

    /// Number of rows, header included.
    #[must_use]
    pub fn len(&self) -> (n: usize)
        ensures
            n == self@.rows.len(),
    {
        self.rows.len()
    }

    /// Reports whether any row has been added.
    ///
    /// A table of rows that are all empty is not empty by this test, and it
    /// still renders as the empty string.
    #[must_use]
    pub fn is_empty(&self) -> (empty: bool)
        ensures
            empty == (self@.rows.len() == 0),
    {
        self.rows.len() == 0
    }

    /// Cell count of the widest row: the column count of the rendered table.
    #[must_use]
    pub fn columns(&self) -> (n: usize)
        ensures
            n == self@.columns(),
    {
        let mut widest: usize = 0;
        let ghost rows = self.rows.deep_view();
        for r in 0..self.rows.len()
            invariant
                rows == self.rows.deep_view(),
                widest == column_count(rows.subrange(0, r as int)),
        {
            let n = self.rows[r].len();
            assert(rows.subrange(0, r + 1).drop_last() =~= rows.subrange(0, r as int));
            assert(rows.subrange(0, r + 1).last() == rows[r as int]);
            if n > widest {
                widest = n;
            }
        }
        assert(rows.subrange(0, rows.len() as int) =~= rows);
        widest
    }

    /// The rows and the alignments as `Debug` would print them. The width
    /// function is left out because its printed form would differ between
    /// runs.
    #[must_use]
    pub fn debug_text(&self) -> (text: String)
        ensures
            text@ == table_debug(self@.rows, self@.alignments),
    {
        let mut out = String::new();
        out.append("Table { rows: ");
        append_rows_debug(&mut out, &self.rows);
        out.append(", alignments: ");
        match &self.alignments {
            Alignments::Every(a) => append_every_debug(&mut out, *a),
            Alignments::PerColumn(list) => append_per_column_debug(&mut out, list),
        }
        out.append(", .. }");
        assert(out@ =~= table_debug(self@.rows, self@.alignments));
        out
    }

    /// Alignment for one column, after fitting to the column count.
    pub(crate) fn alignment_at(&self, column: usize) -> (a: Alignment)
        ensures
            a == alignment_at(self@.alignments, column as int),
    {
        match &self.alignments {
            Alignments::Every(alignment) => *alignment,
            Alignments::PerColumn(list) => if column < list.len() {
                list[column]
            } else {
                Alignment::Unaligned
            },
        }
    }

    /// Renders the table with the given measurement of every cell, one per
    /// cell in the shape of the rows. Each measurement larger than its cell's
    /// length in bytes is clamped to that length.
    #[must_use]
    pub fn render_measured(&self, measured: &Vec<Vec<usize>>) -> (out: String)
        requires
            same_shape(self@.rows, measured.deep_view()),
        ensures
            out@ == self@.rendered_with(clamped(self@.rows, measured.deep_view())),
    {
        let columns = self.columns();
        let mut aligns: Vec<Alignment> = Vec::with_capacity(columns);
        for c in 0..columns
            invariant
                aligns@ == fitted(self@.alignments, c as nat),
        {
            aligns.push(self.alignment_at(c));
            assert(aligns@ =~= fitted(self@.alignments, (c + 1) as nat));
        }
        proof {
            lemma_column_count_bounds(self@.rows);
        }
        let ghost g = grid_of(self@.rows, clamped(self@.rows, measured.deep_view()), aligns@);
        let layout = Layout::of(&self.rows, aligns, measured);
        let capacity = match layout.output_len {
            Some(n) => if n <= isize::MAX as usize {
                n
            } else {
                0
            },
            None => 0,
        };
        let mut out = string_with_capacity(capacity);
        write_table(&self.rows, &layout, &mut out, Ghost(g));
        assert(out@ =~= table_text(g));
        out
    }
}

impl<F: Fn(&str) -> usize> Table<F> {
    /// Renders the table as Markdown, measuring each cell with the function
    /// set by [`Table::with_cell_width`]. The function runs once per cell.
    ///
    /// Each cell is measured by calling the function on its escaped text, and
    /// the output is the table rendered with those measurements, each clamped
    /// to its cell's length in bytes.
    #[must_use]
    pub fn render(&self) -> (out: String)
        requires
            forall|cell: &str| call_requires(self.measure(), (cell,)),
        ensures
            exists|measured: Seq<Seq<usize>>|
                same_shape(self@.rows, measured) && all_measured_by(
                    self.measure(),
                    self@.rows,
                    measured,
                ) && out@ == self@.rendered_with(clamped(self@.rows, measured)),
    {
        assert(self.measure() == self.measure);
        let measured = measure_cells(&self.rows, &self.measure);
        self.render_measured(&measured)
    }
}

/// Calls the caller's width function on one cell.
///
/// The function must accept `cell`, as checked where it was written. The one
/// claim is that the number is what the function returned when called on
/// `cell`. Nothing is claimed of its value: the function is caller code, may
/// keep state between calls, and may return anything.
#[verifier::external_body]
fn call_measure<F: Fn(&str) -> usize>(measure: &F, cell: &str) -> (width: usize)
    requires
        call_requires(*measure, (cell,)),
    ensures
        call_ensures(*measure, (cell,), width),
{
    measure(cell)
}

/// The caller's measurement of every cell, in the shape of the rows.
fn measure_cells<F: Fn(&str) -> usize>(rows: &Vec<Vec<String>>, measure: &F) -> (measured: Vec<
    Vec<usize>,
>)
    requires
        forall|cell: &str| call_requires(*measure, (cell,)),
    ensures
        same_shape(rows.deep_view(), measured.deep_view()),
        all_measured_by(*measure, rows.deep_view(), measured.deep_view()),
{
    let mut measured: Vec<Vec<usize>> = Vec::with_capacity(rows.len());
    for r in 0..rows.len()
        invariant
            forall|cell: &str| call_requires(*measure, (cell,)),
            measured@.len() == r,
            forall|rr: int| 0 <= rr < r ==> (#[trigger] measured@[rr])@.len() == rows@[rr]@.len(),
            forall|rr: int, c: int|
                0 <= rr < r && 0 <= c < rows@[rr]@.len() ==> measured_by(
                    *measure,
                    rows@[rr]@[c]@,
                    #[trigger] measured@[rr]@[c],
                ),
    {
        let row = &rows[r];
        let mut widths: Vec<usize> = Vec::with_capacity(row.len());
        for c in 0..row.len()
            invariant
                forall|cell: &str| call_requires(*measure, (cell,)),
                widths@.len() == c,
                forall|cc: int| 0 <= cc < c ==> measured_by(*measure, row@[cc]@, #[trigger] widths@[cc]),
        {
            let cell = row[c].as_str();
            let width = call_measure(measure, cell);
            assert(measured_by(*measure, row@[c as int]@, width));
            widths.push(width);
        }
        measured.push(widths);
    }
    assert forall|r: int, c: int|
        0 <= r < rows.deep_view().len() && 0 <= c < rows.deep_view()[r].len() implies measured_by(
            *measure,
            rows.deep_view()[r][c],
            #[trigger] measured.deep_view()[r][c],
        ) by {
        assert(rows.deep_view()[r][c] == rows@[r]@[c]@);
        assert(measured.deep_view()[r][c] == measured@[r]@[c]);
    }
    measured
}

/// The `char` count of every cell.
fn char_counts(rows: &Vec<Vec<String>>) -> (raw: Vec<Vec<usize>>)
    ensures
        same_shape(rows.deep_view(), raw.deep_view()),
        forall|r: int, c: int|
            0 <= r < rows@.len() && 0 <= c < rows@[r]@.len() ==> #[trigger] raw.deep_view()[r][c]
                == rows.deep_view()[r][c].len(),
{
    let mut raw: Vec<Vec<usize>> = Vec::with_capacity(rows.len());
    for r in 0..rows.len()
        invariant
            raw@.len() == r,
            forall|rr: int| 0 <= rr < r ==> (#[trigger] raw@[rr])@.len() == rows@[rr]@.len(),
            forall|rr: int, c: int|
                0 <= rr < r && 0 <= c < rows@[rr]@.len() ==> #[trigger] raw@[rr]@[c]
                    == rows@[rr]@[c]@.len(),
    {
        let row = &rows[r];
        let mut counts: Vec<usize> = Vec::with_capacity(row.len());
        for c in 0..row.len()
            invariant
                counts@.len() == c,
                forall|cc: int| 0 <= cc < c ==> #[trigger] counts@[cc] == row@[cc]@.len(),
        {
            counts.push(row[c].as_str().unicode_len());
        }
        raw.push(counts);
    }
    raw
}

} // verus!
