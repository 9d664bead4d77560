# gfm-table

Render rows of strings as a GitHub Flavored Markdown table. The logic is
proved by Verus against a character-level model of the output.

```rust
use gfm_table::{Alignment, Table};

let mut table = Table::new();
table.push_row(["package", "downloads"]);
table.push_row(["gfm-table", "1|2"]);
table.set_alignments([Alignment::Left, Alignment::Right]);

println!("{}", table.render());
```

```text
| package   | downloads |
| :-------- | --------: |
| gfm-table |      1\|2 |
```

A pipe in a cell becomes `\|` and a line break becomes `<br>`; nothing else
changes. Rendering cannot fail, and there is no trailing newline.

Layout:

- `src/escape.rs`: the escaping rule for one cell (`|` becomes `\|`, each line
  break becomes `<br>`), `escape_cell`, and the proofs that escaping is
  idempotent and leaves no line break and no unescaped pipe.
- `src/render.rs`: the text of a table as a function of its cells, their
  measured widths and the column alignments; the layout pass that folds the
  column widths and counts the output bytes exactly; the writer.
- `src/table.rs`: `Table`, `Alignment`, the model every contract speaks of,
  and the entry points.
- `src/laws.rs`: what holds of every rendered table: its line structure,
  equal line lengths, padding of ragged rows, alignment fitting, column
  widths and header fields that never shrink, when a new row leaves earlier
  lines in place, repeatable renders under a measure that gives one answer per
  cell, measures that agree with the character count on ASCII, and the output
  length in closed form.
- `src/debug.rs`: the debug text of a table.
- `src/text.rs`: runs of characters, UTF-8 byte lengths, and the two `String`
  operations used through trusted wrappers.

The tests under `tests/` check rendered output against an independent GFM
parser (`pulldown-cmark`).
