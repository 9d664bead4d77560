//! The one transformation this crate applies to cell text.

use std::borrow::Cow;
use vstd::prelude::*;

use crate::text::{push_char, string_with_capacity};

verus! {

broadcast use vstd::string::group_string_axioms;

/// Length of the run of backslashes that ends just before position `i`.
pub open spec fn backslash_run(s: Seq<char>, i: int) -> nat
    decreases i,
{
    if i <= 0 || i > s.len() || s[i - 1] != '\\' {
        0
    } else {
        1 + backslash_run(s, i - 1)
    }
}

/// The character at position `i` follows an odd run of backslashes.
pub open spec fn escaped_at(s: Seq<char>, i: int) -> bool {
    backslash_run(s, i) % 2 == 1
}

/// The character before position `i` is a carriage return.
pub open spec fn follows_carriage_return(s: Seq<char>, i: int) -> bool {
    0 < i <= s.len() && s[i - 1] == '\r'
}

/// `\r` or `\n`.
pub open spec fn is_line_break(c: char) -> bool {
    c == '\r' || c == '\n'
}

/// A character that escaping may rewrite: a pipe or a line break.
pub open spec fn is_special(c: char) -> bool {
    c == '|' || is_line_break(c)
}

/// What one line break turns into: `<br>`, with one backslash in front when
/// the break closes an odd run of backslashes.
pub open spec fn break_text(closes_run: bool) -> Seq<char> {
    if closes_run {
        seq!['\\', '<', 'b', 'r', '>']
    } else {
        seq!['<', 'b', 'r', '>']
    }
}

/// What the character at position `i` of `s` becomes.
///
/// An unescaped pipe gains a backslash, an escaped one stays. `\r` and `\n`
/// each become one `<br>`, except that the `\n` of a `\r\n` pair becomes
/// nothing. Every other character stays as it is.
pub open spec fn escape_piece(s: Seq<char>, i: int) -> Seq<char> {
    let c = s[i];
    if c == '|' {
        if escaped_at(s, i) {
            seq!['|']
        } else {
            seq!['\\', '|']
        }
    } else if c == '\r' {
        break_text(escaped_at(s, i))
    } else if c == '\n' {
        if follows_carriage_return(s, i) {
            Seq::empty()
        } else {
            break_text(escaped_at(s, i))
        }
    } else {
        seq![c]
    }
}

/// The escaped form of the first `n` characters of `s`.
pub open spec fn escape_prefix(s: Seq<char>, n: int) -> Seq<char>
    decreases n,
{
    if n <= 0 {
        Seq::empty()
    } else {
        escape_prefix(s, n - 1) + escape_piece(s, n - 1)
    }
}

/// The escaped form of a whole cell.
pub open spec fn escape_text(s: Seq<char>) -> Seq<char> {
    escape_prefix(s, s.len() as int)
}

/// `s` holds a pipe or a line break.
pub open spec fn needs_rewrite(s: Seq<char>) -> bool {
    exists|i: int| 0 <= i < s.len() && is_special(#[trigger] s[i])
}

/// Text that is safe inside a table cell: it holds no line break, and every
/// pipe in it follows an odd run of backslashes.
pub open spec fn is_cell_text(t: Seq<char>) -> bool {
    forall|j: int|
        0 <= j < t.len() ==> !is_line_break(#[trigger] t[j]) && (t[j] == '|' ==> escaped_at(t, j))
}

/// The run before position `j` only looks at the first `j` characters.
pub proof fn lemma_backslash_run_prefix(a: Seq<char>, b: Seq<char>, j: int)
    requires
        0 <= j <= a.len(),
    ensures
        backslash_run(a + b, j) == backslash_run(a, j),
    decreases j,
{
    if j > 0 {
        assert((a + b)[j - 1] == a[j - 1]);
        lemma_backslash_run_prefix(a, b, j - 1);
    }
}

/// The run of backslashes at the end of an escaped prefix is the run at the
/// same point of the input.
pub proof fn lemma_escape_prefix_trailing_run(s: Seq<char>, n: int)
    requires
        0 <= n <= s.len(),
    ensures
        backslash_run(escape_prefix(s, n), escape_prefix(s, n).len() as int) == backslash_run(
            s,
            n,
        ),
    decreases n,
{
    if n > 0 {
        let p = escape_prefix(s, n - 1);
        let piece = escape_piece(s, n - 1);
        let q = escape_prefix(s, n);
        assert(q == p + piece);
        lemma_escape_prefix_trailing_run(s, n - 1);
        lemma_backslash_run_prefix(p, piece, p.len() as int);
        if s[n - 1] == '\\' {
            assert(q[q.len() - 1] == '\\');
        } else if piece.len() == 0 {
            assert(s[n - 1] == '\n' && follows_carriage_return(s, n - 1));
            assert(q =~= p);
        } else {
            assert(q[q.len() - 1] == piece[piece.len() - 1]);
            assert(piece[piece.len() - 1] != '\\');
        }
    }
}

/// Every prefix of an escaped cell is safe cell text.
pub proof fn lemma_escape_prefix_is_cell_text(s: Seq<char>, n: int)
    requires
        0 <= n <= s.len(),
    ensures
        is_cell_text(escape_prefix(s, n)),
    decreases n,
{
    if n > 0 {
        let p = escape_prefix(s, n - 1);
        let piece = escape_piece(s, n - 1);
        let q = escape_prefix(s, n);
        assert(q == p + piece);
        lemma_escape_prefix_is_cell_text(s, n - 1);
        lemma_escape_prefix_trailing_run(s, n - 1);
        assert forall|j: int| 0 <= j < q.len() implies !is_line_break(#[trigger] q[j]) && (q[j]
            == '|' ==> escaped_at(q, j)) by {
            if j < p.len() {
                assert(q[j] == p[j]);
                lemma_backslash_run_prefix(p, piece, j);
            } else {
                lemma_backslash_run_prefix(p, piece, p.len() as int);
                assert(q[j] == piece[j - p.len()]);
                if s[n - 1] == '|' && !escaped_at(s, n - 1) && j == p.len() + 1 {
                    assert(q[j - 1] == '\\');
                }
            }
        }
    }
}

/// Escaping leaves safe cell text alone.
pub proof fn lemma_escape_prefix_of_cell_text(t: Seq<char>, n: int)
    requires
        is_cell_text(t),
        0 <= n <= t.len(),
    ensures
        escape_prefix(t, n) == t.subrange(0, n),
    decreases n,
{
    if n > 0 {
        lemma_escape_prefix_of_cell_text(t, n - 1);
        let c = t[n - 1];
        assert(!is_line_break(c));
        assert(escape_piece(t, n - 1) == seq![c]);
        assert(t.subrange(0, n) =~= t.subrange(0, n - 1).push(c));
    }
}

/// Safe cell text escapes to itself.
pub proof fn lemma_escape_text_of_cell_text(t: Seq<char>)
    requires
        is_cell_text(t),
    ensures
        escape_text(t) == t,
{
    lemma_escape_prefix_of_cell_text(t, t.len() as int);
    assert(t.subrange(0, t.len() as int) =~= t);
}

/// Escaped text is safe inside a cell: no line break survives, and every pipe
/// is preceded by an odd run of backslashes, so no pipe reads as a column
/// separator.
pub proof fn escaped_text_is_cell_text(s: Seq<char>)
    ensures
        is_cell_text(escape_text(s)),
{
    lemma_escape_prefix_is_cell_text(s, s.len() as int);
}

/// Escaping twice gives the same text as escaping once.
pub proof fn escaping_is_idempotent(s: Seq<char>)
    ensures
        escape_text(escape_text(s)) == escape_text(s),
{
    escaped_text_is_cell_text(s);
    lemma_escape_text_of_cell_text(escape_text(s));
}

/// Text without a pipe or a line break is its own escaped form.
pub proof fn plain_text_is_unchanged(s: Seq<char>)
    requires
        !needs_rewrite(s),
    ensures
        escape_text(s) == s,
{
    assert forall|j: int| 0 <= j < s.len() implies !is_line_break(#[trigger] s[j]) && (s[j]
        == '|' ==> escaped_at(s, j)) by {
        if is_special(s[j]) {
            assert(needs_rewrite(s));
        }
    }
    lemma_escape_text_of_cell_text(s);
}

/// Escaping the first `k` characters of a longer text looks at nothing past
/// them.
proof fn lemma_escape_prefix_of_take(s: Seq<char>, n: int, k: int)
    requires
        0 <= k <= n <= s.len(),
    ensures
        escape_prefix(s.take(n), k) == escape_prefix(s, k),
    decreases k,
{
    if k > 0 {
        lemma_escape_prefix_of_take(s, n, k - 1);
        let a = s.take(n);
        assert(a + s.skip(n) =~= s);
        lemma_backslash_run_prefix(a, s.skip(n), k - 1);
        assert(a[k - 1] == s[k - 1]);
        if k > 1 {
            assert(a[k - 2] == s[k - 2]);
        }
        assert(escape_piece(a, k - 1) == escape_piece(s, k - 1));
    }
}

/// The run before position `i` is every backslash that ends just before it:
/// all of those characters are backslashes, and the one before the run, if
/// any, is not. A character is escaped exactly when that run is odd.
pub proof fn the_run_is_every_backslash_just_before(s: Seq<char>, i: int)
    requires
        0 <= i <= s.len(),
    ensures
        backslash_run(s, i) <= i,
        forall|j: int| i - backslash_run(s, i) <= j < i ==> #[trigger] s[j] == '\\',
        backslash_run(s, i) < i ==> s[i - backslash_run(s, i) - 1] != '\\',
        escaped_at(s, i) == (backslash_run(s, i) % 2 == 1),
    decreases i,
{
    if i > 0 && s[i - 1] == '\\' {
        the_run_is_every_backslash_just_before(s, i - 1);
    }
}

/// Escaping works one character at a time, left to right. Adding character
/// `i` to the text adds to the escaped form exactly:
/// - the character itself, when it is not a pipe or a line break;
/// - the pipe, with one backslash in front unless an odd run of backslashes
///   already escapes it;
/// - `<br>` for a line break, with one backslash in front when it closes an
///   odd run of backslashes; the `\n` of a `\r\n` pair adds nothing.
///
/// So escaping only inserts backslashes and turns breaks into `<br>`: every
/// other character is kept, in order, and nothing is dropped.
pub proof fn escaping_extends_one_character_at_a_time(s: Seq<char>, i: int)
    requires
        0 <= i < s.len(),
    ensures
        !is_special(s[i]) ==> escape_text(s.take(i + 1)) == escape_text(s.take(i)).push(s[i]),
        s[i] == '|' && escaped_at(s, i) ==> escape_text(s.take(i + 1)) == escape_text(
            s.take(i),
        ).push('|'),
        s[i] == '|' && !escaped_at(s, i) ==> escape_text(s.take(i + 1)) == escape_text(s.take(i))
            + seq!['\\', '|'],
        s[i] == '\r' || (s[i] == '\n' && !(i > 0 && s[i - 1] == '\r')) ==> escape_text(
            s.take(i + 1),
        ) == escape_text(s.take(i)) + (if escaped_at(s, i) {
            seq!['\\']
        } else {
            Seq::empty()
        }) + seq!['<', 'b', 'r', '>'],
        s[i] == '\n' && i > 0 && s[i - 1] == '\r' ==> escape_text(s.take(i + 1)) == escape_text(
            s.take(i),
        ),
{
    lemma_escape_prefix_of_take(s, i + 1, i + 1);
    lemma_escape_prefix_of_take(s, i, i);
    lemma_escape_prefix_of_take(s, i + 1, i);
    assert(s.take(i + 1).len() == i + 1);
    assert(s.take(i).len() == i);
    assert(seq!['\\'] + seq!['<', 'b', 'r', '>'] =~= seq!['\\', '<', 'b', 'r', '>']);
    assert(Seq::<char>::empty() + seq!['<', 'b', 'r', '>'] =~= seq!['<', 'b', 'r', '>']);
    assert(escape_text(s.take(i)) + Seq::<char>::empty() =~= escape_text(s.take(i)));
    assert(escape_text(s.take(i)) + seq![s[i]] =~= escape_text(s.take(i)).push(s[i]));
    assert(escape_text(s.take(i)) + seq!['|'] =~= escape_text(s.take(i)).push('|'));
}

/// Escapes one cell for use inside a GitHub Flavored Markdown table row.
///
/// An unescaped `|` gains a backslash; a pipe preceded by an odd run of
/// backslashes is already escaped and is left alone. `\r\n`, `\n` and a lone
/// `\r` each become one `<br>`, and a break that follows an odd run of
/// backslashes takes one more backslash with it. Nothing else changes.
///
/// The result borrows the input exactly when it holds no `|`, no `\r` and no
/// `\n`.
#[must_use]
pub fn escape_cell(cell: &str) -> (res: Cow<'_, str>)
    ensures
        res@ == escape_text(cell@),
        res is Borrowed <==> !needs_rewrite(cell@),
{
    let ghost s = cell@;
    // One scan decides whether the input can be borrowed and, if not, how much
    // room the rewrite needs. A pipe grows by one byte, or by none when it is
    // already escaped, and counts either way because the borrow decision is
    // the presence of a pipe. A break grows by three, or by four when it also
    // closes an odd run of backslashes. The `\n` of a `\r\n` pair writes
    // nothing of its own, so it gives one byte back.
    let mut extra: usize = 0;
    let mut escaped = false;
    let mut after_carriage_return = false;
    for character in it: cell.chars()
        invariant
            it.seq() == s,
            0 <= it.index() <= s.len(),
            (extra == 0) <==> (forall|j: int| 0 <= j < it.index() ==> !is_special(#[trigger] s[j])),
            after_carriage_return == follows_carriage_return(s, it.index()),
            after_carriage_return ==> extra >= 2,
    {
        let ghost i = it.index();
        assert(character == s[i]);
        if character == '|' {
            extra = extra.saturating_add(1);
            escaped = false;
        } else if character == '\r' {
            extra = extra.saturating_add(if escaped { 4 } else { 3 });
            escaped = false;
        } else if character == '\n' {
            if after_carriage_return {
                extra = extra.saturating_sub(1);
            } else {
                extra = extra.saturating_add(if escaped { 4 } else { 3 });
            }
            escaped = false;
        } else if character == '\\' {
            escaped = !escaped;
        } else {
            escaped = false;
        }
        after_carriage_return = character == '\r';
        assert(is_special(s[i]) ==> extra != 0);
    }
    if extra == 0 {
        proof {
            if needs_rewrite(s) {
                let j = choose|j: int| 0 <= j < s.len() && is_special(#[trigger] s[j]);
                assert(!is_special(s[j]));
            }
            plain_text_is_unchanged(s);
        }
        return Cow::Borrowed(cell);
    }
    let bytes = cell.as_bytes().len();
    let wanted = bytes.saturating_add(extra);
    let capacity = if wanted <= isize::MAX as usize {
        wanted
    } else {
        0
    };
    let mut out = string_with_capacity(capacity);
    // Parity of the backslash run ending at the current character.
    let mut escaped = false;
    // Set by `\r` so the `\n` of a `\r\n` pair does not emit a second `<br>`.
    let mut after_carriage_return = false;
    for character in it: cell.chars()
        invariant
            it.seq() == s,
            0 <= it.index() <= s.len(),
            out@ == escape_prefix(s, it.index()),
            escaped == escaped_at(s, it.index()),
            after_carriage_return == follows_carriage_return(s, it.index()),
    {
        let ghost i = it.index();
        let ghost before = out@;
        assert(character == s[i]);
        let carriage_return = character == '\r';
        if character == '\\' {
            escaped = !escaped;
            push_char(&mut out, '\\');
        } else if character == '|' {
            if !escaped {
                push_char(&mut out, '\\');
            }
            escaped = false;
            push_char(&mut out, '|');
        } else if character == '\r' {
            if escaped {
                push_char(&mut out, '\\');
            }
            escaped = false;
            push_break(&mut out);
        } else if character == '\n' {
            if !after_carriage_return {
                if escaped {
                    push_char(&mut out, '\\');
                }
                push_break(&mut out);
            }
            escaped = false;
        } else {
            escaped = false;
            push_char(&mut out, character);
        }
        after_carriage_return = carriage_return;
        assert(out@ =~= before + escape_piece(s, i));
    }
    proof {
        if !needs_rewrite(s) {
            assert(forall|j: int| 0 <= j < s.len() ==> !is_special(#[trigger] s[j]));
        }
    }
    Cow::Owned(out)
}

/// Appends `<br>`.
fn push_break(out: &mut String)
    ensures
        final(out)@ == old(out)@ + seq!['<', 'b', 'r', '>'],
{
    push_char(out, '<');
    push_char(out, 'b');
    push_char(out, 'r');
    push_char(out, '>');
    assert(out@ =~= old(out)@ + seq!['<', 'b', 'r', '>']);
}

} // verus!
