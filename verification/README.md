# impp

Multiple-choice exam questions kept in a published spreadsheet.

- `src/lib_impp.rs` reads the HTML of a published Google Sheet into a
  question database (title, cell values, rows), and picks questions,
  categories and distractors from it.
- `src/sheet_cells.rs` reads questions cell by cell from HTML whose cells
  carry the classes `s1` to `s9` (merged cells included), and draws
  multiple-choice questions and random orders.
- `src/picking.rs` holds the picking rules that both formats share, through
  the `HasCard` trait: the positions of a category, a random question of it,
  and questions drawn one by one among those of a category whose text was not
  drawn before.
- `src/quiz.rs` holds the decisions of an interactive session: menu
  commands, the `-t "topic"` option, the answers offered and the verdict on
  a chosen letter.
- `src/text.rs` holds byte-level text primitives; `src/pattern.rs` and
  `src/random.rs` reach the `regex` and `rand` crates.
- `app/` is the terminal program: reading and writing the database file,
  fetching the sheet, preferences, and the input/output loop.

Every position in the readers is a byte offset into the UTF-8 text, and the
contracts speak of those bytes (`utf8(s@)`).
