# umya_excel

The verified library behind a spreadsheet viewer: searching and filtering a
sheet, conversion rules that copy cells into a new workbook, alert rules,
table editing (keyboard moves, copy and paste), and an offline licence with
a trial kept in several encrypted places. The library's own functions carry
contracts that Verus proves. Calls into outside code (cryptography, Base64,
YAML, the clock, lower- and upper-casing) go through small trusted wrappers
marked `#[verifier::external_body]`: Verus believes their contracts without
proof, and each one's doc comment says what it claims.

## Layout

- `src/text.rs`, `src/cellref.rs`: text and cell-reference helpers (trimming,
  splitting, decimal numbers, column letters, the name box).
- `src/sheet.rs`: the sheet model (cells by position, extent, merged ranges).
- `src/search.rs`, `src/matching.rs`, `src/scan.rs`, `src/column_search.rs`,
  `src/row_search.rs`, `src/search_window.rs`: search ranges, comparisons,
  sorted scans, column and row filters and the search window's controls.
- `src/convert.rs`, `src/convert_plan.rs`: the conversion-rule grammar, rule
  expansion, formula rewriting and the conversion plan.
- `src/alerts.rs`, `src/visibility.rs`: alert rules and how merged ranges
  follow hidden rows and columns.
- `src/table_input.rs`: what the keys do to the selection, editing, copy
  and paste.
- `src/ui_state.rs`, `src/dates.rs`: window states and dates (with the law
  that day numbers run through the calendar).
- `src/config.rs`: the configuration file's insert, search and
  conditional-format blocks, read and written with the other blocks kept.
- `src/license/`: signed licence codes, the trial state, storage format,
  loading and saving, and the licence manager.
- `app/main.rs`: the command-line program around the library (files,
  registry-free stores, environment, processes, float comparisons).
- `tests/`: the tests, run against the compiled library.
