# xls

The library behind `xls`, a colored directory listing: sorting entries by a
listing header, measuring column widths and rendering header and entry lines,
all verified with Verus. `app/` holds the program around it (command line,
reading the file system, printing).

Layout of `src/`:

- `entry.rs` — the metadata of one entry as plain values, its mode string, and
  the flags and numbers derived from raw file metadata.
- `columns.rs` — the columns, their header labels and the listing modes.
- `order.rs` — three-way comparison and the lexicographic orders used for sorting.
- `sort.rs` — sort keys (parsing header names and aliases) and the stable,
  descending sort of a listing, with its laws (total order, uniqueness of the
  result, idempotence).
- `calendar.rs` — the Gregorian calendar counted from 1970-01-01 and the proof
  that the era-based day decomposition finds the right date and counts back to it.
- `format.rs` — colors, human-readable sizes, dates, column widths and the
  rendered cells and lines, with their laws (widths independent of entry order,
  cells that line up once colors are removed, sizes that read in order).
- `listing.rs` — a whole listing: the sort, then the header and one line per entry.
- `cli.rs` — command-line arguments.
- `text.rs` — string building, joining, trimming and case folding.
