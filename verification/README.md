# rsheet

A terminal spreadsheet. The library (`src/`) holds the sheet and its dependency graph,
the formula lexer and parser, the Vim-style normal-mode key parser and the interactive
session (modes, cursor, viewport, edit buffer), each verified with Verus against its
contract. The program (`app/`) draws the session with ratatui, reads keys and the mouse
with crossterm, reads and writes the bytes of CSV files, and evaluates formulas on `f64`
numbers.

- `src/graph.rs`: the dependency graph, kept free of cycles; reachability and
  topological order.
- `src/sheet.rs`: the grid of raw cell texts, writing a cell, rebuilding the graph, and
  the records that a CSV file holds.
- `src/storage.rs`: a sheet read from the bytes of a CSV file, and the bytes that saving
  writes (the csv crate reads and writes them).
- `src/lexer.rs`, `src/formula.rs`, `src/address.rs`: formula tokens, formulas (with
  function calls) compiled to postfix programs, and column letters.
- `src/normal_mode.rs`: the `[count] operator [count] motion` key parser. The session
  feeds it the character keys of Normal mode and carries out the counted moves (`h`, `j`,
  `k`, `l`, `w`, `b`), `0`, `$`, the mode changes, save, quit and the deletes (`d` and
  `gd` with their motions, `dd`, `gdd`), which empty a block of cells; the keys of a
  pending command show in the status bar. Yank, paste and undo are parsed but not carried
  out.
- `src/app.rs`, `src/view.rs`, `src/layout.rs`: the session, the text of the headers and
  of the status bar, and the placement of the edit overlay.
