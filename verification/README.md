# auto_excel

A verified library for building Excel reports from source spreadsheets: a pipeline of
steps (filter, pivot, sort, dedupe, calculate, lookup-subtract, side-by-side, lookup)
runs on source tables and writes the marked results, or exports a workbook of formulas
that recompute them.

- `src/` is the library, written in Verus. Every function states what it returns in its
  contract and is proved against it. Reading and writing files, the clock, and
  arithmetic on binary floating point are passed in as closures (see `numbers.rs` for
  the float operations), so the library states what it does with whatever they return.
- `tests/` runs the library on concrete tables.
- `app/` is a command-line program around the library: it reads workbooks with
  calamine, writes them with rust_xlsxwriter, keeps schemes as JSON files, and supplies
  the floating-point operations.
