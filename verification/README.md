# csv-tsv-converter, verified

A command-line converter between CSV and a backslash-escaped TSV dialect,
with its conversion logic written and proved in Verus.

- `src/` is the library, verified by Verus:
  - `csv_format.rs`: what a byte stream means as CSV records (`scan`,
    `first_record`, `parse_all`), the streaming `CsvReader`, which takes the
    input one byte at a time so that only the current record is ever held,
    and the record writer. The proofs show that streaming reads exactly the
    records of the whole input and that a written record reads back as the
    fields it was written from.
  - `tsv_format.rs`: field escaping and unescaping, the TSV line reader and
    writer; a written record is one line and reads back as its fields.
  - `convert.rs`: the delimiter argument, the column-count check, the
    row-at-a-time `Conversion` (row counting, header check, output of each
    record) and, on top of it, the conversion of whole inputs in both
    directions, with the proofs that a conversion keeps every record.
  - `text.rs`: the calls into std's string handling that the rest uses.
- `app/main.rs` is the command line: arguments, files and standard streams,
  feeding `CsvReader` and `Conversion` one byte (CSV) or one line (TSV) at a
  time.
- `tests/` runs the library on concrete inputs.
