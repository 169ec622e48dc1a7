# pdf_oxide (table structure core)

The verified core of a PDF toolkit's table handling and command line:

- `structure::table_extractor`: tables read from the structure tree of a
  tagged PDF (`Table`, `THead`/`TBody`/`TFoot`, `TR`, `TH`/`TD`), with cell
  text matched through marked-content identifiers.
- `structure::grid`, `structure::spatial_table_detector`: tables found from
  the alignment of text spans (column and row clustering, cell assignment,
  shape checks, merged cells from text extents).
- `structure::line_clusters`, `structure::ruled_tables`,
  `structure::visual_merge`: tables bounded by ruling lines (grouping of
  lines into regions, grid bands from rule positions, merged cells where a
  rule is missing, header rows marked by wide rules).
- `pipeline::converters::plain_text`: spans and tables rendered as plain text.
- `cli`: the decisions of the command line and of the interactive mode
  (page ranges, command words, session state, messages).

Every function in `src/` carries a contract. Verus proves each of them
but two: `lowercase_text` and `file_name_text` in `cli::repl` are thin
wrappers around std (`str::to_lowercase`, `Path::file_name`) whose
contracts are trusted, not proved. The public proof functions state the
laws the library keeps. `app/` holds the
command-line program around the library (argument parsing with clap, the
interactive loop, file and terminal output).

Coordinates and font sizes are fixed-point integers in thousandths of a PDF
point; tolerances use the same unit and ratios are given in thousandths.
Means and centres are rounded down to the nearest thousandth, so a value that
lies exactly on a tolerance boundary may be grouped differently than with
floating-point arithmetic.

Plain text is written without rejoining words hyphenated at a line end.
