# Pathy

A visual command-line explorer for the `PATH` environment variable: a
table of its entries in order, whether each exists, how many executables it
holds, its size and age, and an interactive editor for reordering and
cleaning the entries.

The library in `src/` is written in Verus and proved against its contracts:

- `text` — characters, decimal numbers, UTF-8 lengths and white space.
- `path` — the entries of `PATH`, built from what the file system shows of
  each; sizes (`1.5 MB`) and ages (`2 hours ago`).
- `terminal` — what the environment says about the terminal: Unicode,
  colors, width; the color styles.
- `layout` — cell alignment, truncation, wrapping paths at folder
  boundaries, the framed lines and rules of bordered tables.
- `display` — the configuration, the Unicode table, the three ASCII formats
  (compact, narrow, minimal) and the summary.
- `tui` — the editor's state and how each key changes it.

Each module ends with its laws: proof functions that state what holds of
every input (for example, that moving a row up and back down restores the
rows, or that every line of the Unicode table has the table's width).

`app/` is the program around the library: command-line parsing, reading the
environment and the file system, printing, and the terminal user interface.
