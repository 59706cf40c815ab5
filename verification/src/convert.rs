//! The command line's delimiter argument, the check that every row has as
//! many columns as the first one, and the conversions of a whole input held
//! in memory, CSV to TSV and TSV to CSV.
use vstd::prelude::*;
use vstd::string::{StrSliceExecFns, StringExecFns};
use vstd::utf8::*;
use crate::text::string_push;
use crate::csv_format::{
    CsvReader, ReadStatus, first_record, lemma_csv_round_trip, lemma_parse_all_at_end,
    lemma_parse_all_decided, lemma_parse_all_len, lemma_records_have_fields, parse_all, plain_delimiter, record_bytes,
    records_text,
};
use crate::text::lemma_encode_concat;
use crate::tsv_format::{
    lemma_lines_concat, lemma_lines_len, lemma_split_tabs_nonempty, lemma_tsv_round_trip, lines, parse_tsv_line, tsv_line,
    tsv_line_fields,
};
use vstd::std_specs::iter::IteratorSpec;

verus! {

broadcast use vstd::string::group_string_axioms;

/// The message of a refused delimiter argument.
pub open spec fn delimiter_error_text(value: Seq<char>) -> Seq<char> {
    "delimiter must be a single ASCII character, got '"@ + value + "'"@
}

/// A UTF-8 text of one byte is one ASCII character.
proof fn lemma_single_byte_text(s: Seq<char>)
    requires
        encode_utf8(s).len() == 1,
    ensures
        s.len() == 1,
        (s[0] as u32) < 0x80,
        encode_utf8(s)[0] == s[0] as u32 as u8,
{
    assert(s.len() != 0);
    let v = s[0] as u32;
    char_is_scalar(s[0]);
    assert(encode_utf8(s) == encode_scalar(v) + encode_utf8(s.drop_first()));
    assert(encode_scalar(v).len() >= 1);
    assert(encode_scalar(v).len() == 1);
    assert(has_width_1_encoding(v));
    assert(v & 0x7F == v) by (bit_vector)
        requires
            v <= 0x7F,
    ;
    if s.len() > 1 {
        let t = s.drop_first();
        char_is_scalar(t[0]);
        assert(encode_utf8(t) == encode_scalar(t[0] as u32) + encode_utf8(t.drop_first()));
    }
}

/// Parses the delimiter argument of the command line: `\t` (backslash,
/// `t`) stands for a tab; otherwise the argument must be exactly one byte,
/// which makes it one ASCII character.
pub fn parse_delimiter(value: &str) -> (r: Result<u8, String>)
    ensures
        value@ == seq!['\\', 't'] ==> r == Ok::<u8, String>(9u8),
        value@ != seq!['\\', 't'] && encode_utf8(value@).len() == 1 ==> r == Ok::<u8, String>(
            encode_utf8(value@)[0],
        ),
        value@ != seq!['\\', 't'] && encode_utf8(value@).len() != 1 ==> (r matches Err(e) && e@
            == delimiter_error_text(value@)),
        r matches Ok(b) ==> b < 0x80,
{
    let n = value.unicode_len();
    if n == 2 && value.get_char(0) == '\\' && value.get_char(1) == 't' {
        assert(value@ =~= seq!['\\', 't']);
        return Ok(9u8);
    }
    let bytes = value.as_bytes();
    if bytes.len() != 1 {
        let mut e = String::from_str("delimiter must be a single ASCII character, got '");
        e.append(value);
        e.append("'");
        return Err(e);
    }
    proof {
        lemma_single_byte_text(value@);
    }
    Ok(bytes[0])
}

/// The decimal digit character of `d` (below ten).
pub open spec fn digit_char(d: nat) -> char {
    ((d + 48) as u8) as char
}

/// The decimal numeral of `n`, without leading zeros.
pub open spec fn decimal(n: nat) -> Seq<char>
    decreases n,
{
    if n < 10 {
        seq![digit_char(n)]
    } else {
        decimal(n / 10).push(digit_char(n % 10))
    }
}

/// Appends the decimal numeral of `n`.
fn push_decimal(out: &mut String, n: u64)
    ensures
        final(out)@ == old(out)@ + decimal(n as nat),
{
    let mut q = n;
    let mut tail: Vec<char> = Vec::new();
    while q >= 10
        invariant
            decimal(n as nat) == decimal(q as nat) + tail@,
        decreases q,
    {
        let c = ((q % 10) as u8 + 48u8) as char;
        assert(c == digit_char((q % 10) as nat));
        tail.insert(0, c);
        proof {
            assert(decimal(q as nat) == decimal((q / 10) as nat).push(c));
            assert(decimal((q / 10) as nat).push(c) + tail@.drop_first() =~= decimal(
                (q / 10) as nat,
            ) + tail@);
        }
        q = q / 10;
    }
    let c = (q as u8 + 48u8) as char;
    assert(c == digit_char(q as nat));
    string_push(out, c);
    let k = tail.len();
    for i in 0..k
        invariant
            k == tail@.len(),
            out@ == old(out)@ + decimal(q as nat) + tail@.take(i as int),
    {
        string_push(out, tail[i]);
        assert(tail@.take(i + 1) =~= tail@.take(i as int).push(tail@[i as int]));
    }
    assert(tail@.take(k as int) =~= tail@);
}

/// A row whose column count differs from the first row's.
#[derive(Clone, Copy, PartialEq, Eq, Debug)]
pub struct ColumnCountError {
    /// The row's number, counting from 1.
    pub row: u64,
    /// How many columns the row has.
    pub found: usize,
    /// How many columns the first row has.
    pub expected: usize,
}

/// The message of a column count error.
pub open spec fn column_error_text(row: nat, found: nat, expected: nat) -> Seq<char> {
    "row "@ + decimal(row) + " has "@ + decimal(found) + " column(s), expected "@ + decimal(
        expected,
    ) + " (from header row)"@
}

impl ColumnCountError {
    /// The error's message, such as `row 2 has 2 column(s), expected 3 (from
    /// header row)`.
    pub fn message(&self) -> (m: String)
        ensures
            m@ == column_error_text(self.row as nat, self.found as nat, self.expected as nat),
    {
        let mut m = String::from_str("row ");
        push_decimal(&mut m, self.row);
        m.append(" has ");
        push_decimal(&mut m, self.found as u64);
        m.append(" column(s), expected ");
        push_decimal(&mut m, self.expected as u64);
        m.append(" (from header row)");
        m
    }
}

/// With a header check, the first row seen sets the expected column count
/// and every later row must have exactly that many columns.
pub fn check_column_count(
    fields: &[String],
    expected_columns: &mut Option<usize>,
    row_number: u64,
) -> (r: Result<(), ColumnCountError>)
    ensures
        match *old(expected_columns) {
            None => r == Ok::<(), ColumnCountError>(()) && *final(expected_columns) == Some(
                fields@.len() as usize,
            ),
            Some(x) => *final(expected_columns) == Some(x) && (x == fields@.len() ==> r == Ok::<
                (),
                ColumnCountError,
            >(())) && (x != fields@.len() ==> r == Err::<(), ColumnCountError>(
                (ColumnCountError { row: row_number, found: fields@.len() as usize, expected: x }),
            )),
        },
{
    match *expected_columns {
        None => {
            *expected_columns = Some(fields.len());
            Ok(())
        },
        Some(expected) => {
            if expected != fields.len() {
                Err(ColumnCountError { row: row_number, found: fields.len(), expected })
            } else {
                Ok(())
            }
        },
    }
}

/// The index of the first record, after the first one, whose column count
/// differs from the first record's, looking from index `k` on.
pub open spec fn first_ragged_from(records: Seq<Seq<Seq<char>>>, k: int) -> Option<int>
    decreases records.len() - k,
{
    if k >= records.len() {
        None
    } else if records[k].len() != records[0].len() {
        Some(k)
    } else {
        first_ragged_from(records, k + 1)
    }
}

/// Where a conversion stops for a row with the wrong column count: only
/// with the header check, at the first such row.
pub open spec fn ragged_row(records: Seq<Seq<Seq<char>>>, validate_header: bool) -> Option<int> {
    if validate_header {
        first_ragged_from(records, 1)
    } else {
        None
    }
}

/// The error a conversion stops with at record index `k`.
pub open spec fn ragged_error(records: Seq<Seq<Seq<char>>>, k: int) -> ColumnCountError {
    ColumnCountError {
        row: (k + 1) as u64,
        found: records[k].len() as usize,
        expected: records[0].len() as usize,
    }
}

/// The TSV lines of the records, as UTF-8.
pub open spec fn tsv_output(records: Seq<Seq<Seq<char>>>) -> Seq<u8>
    decreases records.len(),
{
    if records.len() == 0 {
        seq![]
    } else {
        tsv_output(records.drop_last()) + encode_utf8(tsv_line(records.last()))
    }
}

/// The CSV records written for the records with delimiter `d`.
pub open spec fn csv_output(records: Seq<Seq<Seq<char>>>, d: u8) -> Seq<u8>
    decreases records.len(),
{
    if records.len() == 0 {
        seq![]
    } else {
        csv_output(records.drop_last(), d) + crate::csv_format::record_bytes(records.last(), d)
    }
}

proof fn lemma_first_ragged_skip(records: Seq<Seq<Seq<char>>>, a: int, b: int)
    requires
        1 <= a <= b <= records.len(),
        forall|k: int| a <= k < b ==> (#[trigger] records[k]).len() == records[0].len(),
    ensures
        first_ragged_from(records, a) == first_ragged_from(records, b),
    decreases b - a,
{
    if a < b {
        lemma_first_ragged_skip(records, a + 1, b);
    }
}

/// The rows converted so far, `done`, all have the first row's column
/// count where the header is checked, and `expected` holds that count.
pub open spec fn rows_consistent(
    done: Seq<Seq<Seq<char>>>,
    expected: Option<usize>,
    validate_header: bool,
) -> bool {
    validate_header ==> {
        &&& done.len() == 0 ==> expected is None
        &&& done.len() > 0 ==> (expected matches Some(x) && x == done[0].len())
        &&& forall|k: int| 0 <= k < done.len() ==> (#[trigger] done[k]).len() == done[0].len()
    }
}

/// A row whose column count differs from the first row's is where a
/// header-checked conversion stops.
proof fn lemma_ragged_here(
    records: Seq<Seq<Seq<char>>>,
    done: Seq<Seq<Seq<char>>>,
    row: Seq<Seq<char>>,
)
    requires
        done.len() > 0,
        forall|k: int| 0 <= k < done.len() ==> (#[trigger] done[k]).len() == done[0].len(),
        records.len() > done.len(),
        records.take(done.len() as int) == done,
        records[done.len() as int] == row,
        row.len() != done[0].len(),
    ensures
        ragged_row(records, true) == Some(done.len() as int),
{
    let k = done.len() as int;
    assert(records[0] == done[0]);
    assert forall|j: int| 1 <= j < k implies (#[trigger] records[j]).len() == records[0].len() by {
        assert(records[j] == done[j]);
    }
    lemma_first_ragged_skip(records, 1, k);
}

/// The rows stay consistent when the next row passes the header check.
proof fn lemma_row_passes(
    done: Seq<Seq<Seq<char>>>,
    row: Seq<Seq<char>>,
    before: Option<usize>,
    after: Option<usize>,
    validate_header: bool,
)
    requires
        rows_consistent(done, before, validate_header),
        validate_header ==> (after matches Some(x) && x == row.len()),
        validate_header && done.len() > 0 ==> row.len() == done[0].len(),
    ensures
        rows_consistent(done.push(row), after, validate_header),
{
    let done2 = done.push(row);
    if validate_header {
        assert forall|j: int| 0 <= j < done2.len() implies (#[trigger] done2[j]).len()
            == done2[0].len() by {
            if j < done.len() {
                assert(done2[j] == done[j]);
            }
        }
    }
}

/// Whether the header check turns away `row` after the rows `rows`: it is
/// on, there is a first row, and `row` has another column count.
pub open spec fn rejects(rows: Seq<Seq<Seq<char>>>, row: Seq<Seq<char>>, validate_header: bool) -> bool {
    validate_header && rows.len() > 0 && row.len() != rows[0].len()
}

/// What a conversion does with its next row: with the rows before it
/// `rows`, it returns `r` and has converted `after`.
pub open spec fn row_outcome(
    rows: Seq<Seq<Seq<char>>>,
    row: Seq<Seq<char>>,
    validate_header: bool,
    r: Result<(), ColumnCountError>,
    after: Seq<Seq<Seq<char>>>,
) -> bool {
    if rejects(rows, row, validate_header) {
        &&& r == Err::<(), ColumnCountError>(
            (ColumnCountError {
                row: (rows.len() + 1) as u64,
                found: row.len() as usize,
                expected: rows[0].len() as usize,
            }),
        )
        &&& after == rows
    } else {
        &&& r == Ok::<(), ColumnCountError>(())
        &&& after == rows.push(row)
    }
}

/// A conversion in progress, one row at a time: whether rows are checked
/// against the first row's column count, and the rows converted so far.
pub struct Conversion {
    validate_header: bool,
    expected_columns: Option<usize>,
    row_number: u64,
    rows: Ghost<Seq<Seq<Seq<char>>>>,
}

impl Conversion {
    /// The row counter counts the rows converted, and the expected column
    /// count is the first row's.
    #[verifier::type_invariant]
    spec fn counts_rows(self) -> bool {
        &&& rows_consistent(self.rows@, self.expected_columns, self.validate_header)
        &&& self.row_number == self.rows@.len()
    }

    /// Whether rows are checked against the first row's column count.
    pub closed spec fn validate_header(&self) -> bool {
        self.validate_header
    }

    /// The rows converted so far, each as its fields.
    pub closed spec fn rows(&self) -> Seq<Seq<Seq<char>>> {
        self.rows@
    }

    /// A conversion with no row converted yet.
    pub fn new(validate_header: bool) -> (c: Self)
        ensures
            c.validate_header() == validate_header,
            c.rows() == Seq::<Seq<Seq<char>>>::empty(),
    {
        Conversion {
            validate_header,
            expected_columns: None,
            row_number: 0,
            rows: Ghost(Seq::empty()),
        }
    }

    /// How many rows have been converted.
    pub fn rows_converted(&self) -> (n: u64)
        ensures
            n == self.rows().len(),
    {
        proof {
            use_type_invariant(self);
        }
        self.row_number
    }

    /// Counts the next row and checks its column count where asked.
    fn next_row(&mut self, fields: &[String]) -> (r: Result<(), ColumnCountError>)
        requires
            old(self).rows().len() < u64::MAX,
        ensures
            final(self).validate_header() == old(self).validate_header(),
            row_outcome(
                old(self).rows(),
                fields.deep_view(),
                old(self).validate_header(),
                r,
                final(self).rows(),
            ),
            final(self).validate_header() ==> forall|k: int|
                0 <= k < final(self).rows().len() ==> (#[trigger] final(self).rows()[k]).len()
                    == final(self).rows()[0].len(),
    {
        proof {
            use_type_invariant(&*self);
        }
        let ghost row = fields.deep_view();
        let nf = fields.len();
        assert(row.len() == nf);
        let row_number = self.row_number + 1;
        let mut expected = self.expected_columns;
        if self.validate_header {
            match check_column_count(fields, &mut expected, row_number) {
                Err(e) => {
                    return Err(e);
                },
                Ok(()) => {},
            }
        }
        proof {
            lemma_row_passes(self.rows@, row, self.expected_columns, expected, self.validate_header);
        }
        *self = Conversion {
            validate_header: self.validate_header,
            expected_columns: expected,
            row_number,
            rows: Ghost(self.rows@.push(row)),
        };
        Ok(())
    }

    /// Converts the next CSV record, given as its fields, to a TSV line
    /// appended to `out`; with the header check on, a record whose column
    /// count differs from the first record's is turned away and nothing is
    /// written.
    pub fn on_csv_record(&mut self, fields: &[String], out: &mut Vec<u8>) -> (r: Result<
        (),
        ColumnCountError,
    >)
        requires
            old(self).rows().len() < u64::MAX,
        ensures
            final(self).validate_header() == old(self).validate_header(),
            row_outcome(
                old(self).rows(),
                fields.deep_view(),
                old(self).validate_header(),
                r,
                final(self).rows(),
            ),
            final(self).validate_header() ==> forall|k: int|
                0 <= k < final(self).rows().len() ==> (#[trigger] final(self).rows()[k]).len()
                    == final(self).rows()[0].len(),
            r is Ok ==> final(out)@ == old(out)@ + encode_utf8(tsv_line(fields.deep_view())),
            r is Err ==> final(out)@ == old(out)@,
    {
        let r = self.next_row(fields);
        match r {
            Ok(()) => {
                crate::tsv_format::write_record(out, fields);
            },
            Err(_) => {},
        }
        r
    }

    /// Converts the next TSV line (with or without its line end) to a CSV
    /// record with delimiter `delimiter` appended to `out`; with the header
    /// check on, a line whose column count differs from the first line's is
    /// turned away and nothing is written.
    pub fn on_tsv_line(&mut self, line: &str, out: &mut Vec<u8>, delimiter: u8) -> (r: Result<
        (),
        ColumnCountError,
    >)
        requires
            old(self).rows().len() < u64::MAX,
        ensures
            final(self).validate_header() == old(self).validate_header(),
            row_outcome(
                old(self).rows(),
                tsv_line_fields(line@),
                old(self).validate_header(),
                r,
                final(self).rows(),
            ),
            final(self).validate_header() ==> forall|k: int|
                0 <= k < final(self).rows().len() ==> (#[trigger] final(self).rows()[k]).len()
                    == final(self).rows()[0].len(),
            r is Ok ==> final(out)@ == old(out)@ + record_bytes(tsv_line_fields(line@), delimiter),
            r is Err ==> final(out)@ == old(out)@,
    {
        let fields = parse_tsv_line(line);
        let r = self.next_row(fields.as_slice());
        match r {
            Ok(()) => {
                crate::csv_format::write_record(out, fields.as_slice(), delimiter);
            },
            Err(_) => {},
        }
        r
    }
}

/// Converts a whole CSV input to TSV, appending the TSV lines to `out`.
/// With `validate_header`, it stops at the first record whose column count
/// differs from the first record's, having written the records before it.
pub fn convert_csv_to_tsv(
    input: &[u8],
    out: &mut Vec<u8>,
    delimiter: u8,
    validate_header: bool,
) -> (r: Result<(), ColumnCountError>)
    ensures
        ({
            let records = records_text(parse_all(input@, delimiter));
            match ragged_row(records, validate_header) {
                Some(k) => r == Err::<(), ColumnCountError>(ragged_error(records, k))
                    && final(out)@ == old(out)@ + tsv_output(records.take(k)),
                None => r == Ok::<(), ColumnCountError>(()) && final(out)@ == old(out)@
                    + tsv_output(records),
            }
        }),
{
    let ghost all = parse_all(input@, delimiter);
    let ghost records = records_text(all);
    let mut reader = CsvReader::new(delimiter);
    let mut fields: Vec<String> = Vec::new();
    let mut conversion = Conversion::new(validate_header);
    let ghost mut done: Seq<Seq<Seq<u8>>> = Seq::empty();
    let n = input.len();
    proof {
        assert(reader.pending() + input@.skip(0) =~= input@);
        assert(done + all =~= all);
        lemma_parse_all_len(input@, delimiter);
        assert(records_text(done) =~= Seq::<Seq<Seq<char>>>::empty());
    }
    let mut i: usize = 0;
    loop
        invariant
            n == input@.len(),
            i <= n,
            all == parse_all(input@, delimiter),
            records == records_text(all),
            records.len() <= n,
            reader.delimiter() == delimiter,
            first_record(reader.pending(), delimiter, false) is None,
            done + parse_all(reader.pending() + input@.skip(i as int), delimiter) == all,
            conversion.validate_header() == validate_header,
            conversion.rows() == records_text(done),
            done.len() + (if reader.pending().len() > 0 {
                1int
            } else {
                0int
            }) <= i,
            validate_header ==> forall|k: int|
                0 <= k < done.len() ==> (#[trigger] records_text(done)[k]).len()
                    == records_text(done)[0].len(),
            out@ == old(out)@ + tsv_output(records_text(done)),
        decreases 2 * (n - i) + (if reader.pending().len() > 0 {
            1int
        } else {
            0int
        }),
    {
        let ghost p = reader.pending();
        let ghost rest = input@.skip(i as int);
        let next = if i < n {
            Some(input[i])
        } else {
            None
        };
        let status = reader.read_record(next, &mut fields);
        let ghost mut rec: Seq<Seq<u8>> = Seq::empty();
        match status {
            ReadStatus::Record => {
                proof {
                    if i < n {
                        let b = input@[i as int];
                        assert(p + rest =~= p.push(b) + input@.skip(i + 1));
                        lemma_parse_all_decided(p.push(b), input@.skip(i + 1), delimiter);
                        let (r0, e) = first_record(p.push(b), delimiter, false).unwrap();
                        rec = r0;
                        assert(fields.deep_view() == crate::csv_format::record_text(rec));
                        assert(done.push(rec) + parse_all(reader.pending() + input@.skip(i + 1), delimiter)
                            =~= done + (seq![rec] + parse_all(reader.pending() + input@.skip(i + 1), delimiter)));
                    } else {
                        assert(rest =~= Seq::<u8>::empty());
                        assert(p + rest =~= p);
                        lemma_parse_all_at_end(p, delimiter);
                        let (r0, e) = first_record(p, delimiter, true).unwrap();
                        rec = r0;
                        assert(fields.deep_view() == crate::csv_format::record_text(rec));
                        assert(done.push(rec) =~= done + seq![rec]);
                        assert(reader.pending() + input@.skip(i as int) =~= Seq::<u8>::empty());
                        assert(parse_all(Seq::<u8>::empty(), delimiter) =~= Seq::<Seq<Seq<u8>>>::empty());
                        assert(done.push(rec) + Seq::<Seq<Seq<u8>>>::empty() =~= done.push(rec));
                    }
                    assert(all.take(done.len() as int) =~= done);
                    assert(all[done.len() as int] == rec);
                    assert(records.take(done.len() as int) =~= records_text(done));
                    assert(records[done.len() as int] == crate::csv_format::record_text(rec));
                }
                let ghost row = crate::csv_format::record_text(rec);
                match conversion.on_csv_record(fields.as_slice(), out) {
                    Err(e) => {
                        proof {
                            lemma_ragged_here(records, records_text(done), row);
                        }
                        return Err(e);
                    },
                    Ok(()) => {},
                }
                proof {
                    let old_done = done;
                    done = done.push(rec);
                    assert(records_text(done) =~= records_text(old_done).push(row));
                    assert(records_text(done).drop_last() =~= records_text(old_done));
                }
            },
            ReadStatus::Exhausted => {
                proof {
                    assert(rest =~= Seq::<u8>::empty());
                    assert(p + rest =~= Seq::<u8>::empty());
                    assert(parse_all(Seq::<u8>::empty(), delimiter) =~= Seq::<Seq<Seq<u8>>>::empty());
                    assert(done + Seq::<Seq<Seq<u8>>>::empty() =~= done);
                    assert(records =~= records_text(done));
                    if validate_header && records.len() > 0 {
                        lemma_first_ragged_skip(records, 1, records.len() as int);
                    }
                }
                return Ok(());
            },
            ReadStatus::NeedInput => {
                proof {
                    let b = input@[i as int];
                    assert(p + rest =~= p.push(b) + input@.skip(i + 1));
                }
            },
        }
        if i < n {
            i = i + 1;
        }
    }
}

/// Taking one more character of a text into the line being read.
proof fn lemma_lines_next(s: Seq<char>, k: int, done: Seq<Seq<char>>, cur: Seq<char>)
    requires
        0 <= k < s.len(),
        lines(s.take(k)) == (if cur.len() == 0 {
            done
        } else {
            done.push(cur)
        }),
        done.len() == 0 || done.last().last() == '\n',
        cur.len() > 0 ==> cur.last() != '\n',
    ensures
        lines(s.take(k + 1)) == done.push(cur.push(s[k])),
{
    let c = s[k];
    assert(s.take(k + 1).drop_last() =~= s.take(k));
    assert(s.take(k + 1).last() == c);
    let init = lines(s.take(k));
    if cur.len() == 0 {
        assert(cur.push(c) =~= seq![c]);
    } else {
        assert(init.last() == cur);
        assert(init.update(init.len() - 1, cur.push(c)) =~= done.push(cur.push(c)));
    }
}

/// A line completed in a prefix of a text is a line of the whole text.
proof fn lemma_line_complete(s: Seq<char>, m: int, done: Seq<Seq<char>>, line: Seq<char>)
    requires
        0 <= m <= s.len(),
        lines(s.take(m)) == done.push(line),
        line.len() > 0,
        line.last() == '\n',
    ensures
        lines(s).len() > done.len(),
        lines(s).take(done.len() as int) == done,
        lines(s)[done.len() as int] == line,
{
    assert(s.take(m) + s.skip(m) =~= s);
    lemma_lines_concat(s.take(m), s.skip(m));
    assert(lines(s).take(done.len() as int) =~= done);
}

/// Converts a whole TSV input to CSV with delimiter `delimiter`, appending
/// the CSV records to `out`, one per line of the input. With
/// `validate_header`, it stops at the first line whose column count differs
/// from the first line's, having written the records before it.
pub fn convert_tsv_to_csv(
    input: &str,
    out: &mut Vec<u8>,
    delimiter: u8,
    validate_header: bool,
) -> (r: Result<(), ColumnCountError>)
    ensures
        ({
            let records = lines(input@).map_values(|l: Seq<char>| tsv_line_fields(l));
            match ragged_row(records, validate_header) {
                Some(k) => r == Err::<(), ColumnCountError>(ragged_error(records, k))
                    && final(out)@ == old(out)@ + csv_output(records.take(k), delimiter),
                None => r == Ok::<(), ColumnCountError>(()) && final(out)@ == old(out)@
                    + csv_output(records, delimiter),
            }
        }),
{
    let ghost all = input@;
    let ghost records = lines(all).map_values(|l: Seq<char>| tsv_line_fields(l));
    let total = input.unicode_len();
    let mut conversion = Conversion::new(validate_header);
    let ghost mut done: Seq<Seq<char>> = Seq::empty();
    let mut cur = String::new();
    let mut it = input.chars();
    let ghost mut k: int = 0;
    proof {
        lemma_lines_len(all);
        assert(all.skip(0) =~= all);
        assert(all.take(0) =~= Seq::<char>::empty());
        assert(done.map_values(|l: Seq<char>| tsv_line_fields(l)) =~= Seq::<Seq<Seq<char>>>::empty());
    }
    loop
        invariant
            all == input@,
            total == all.len(),
            records == lines(all).map_values(|l: Seq<char>| tsv_line_fields(l)),
            0 <= k <= all.len(),
            lines(all).len() <= all.len(),
            it.remaining() == all.skip(k),
            lines(all.take(k)) == (if cur@.len() == 0 {
                done
            } else {
                done.push(cur@)
            }),
            done.len() == 0 || done.last().last() == '\n',
            cur@.len() > 0 ==> cur@.last() != '\n',
            done.len() <= k,
            conversion.validate_header() == validate_header,
            conversion.rows() == done.map_values(|l: Seq<char>| tsv_line_fields(l)),
            validate_header ==> forall|j: int|
                0 <= j < done.len() ==> (#[trigger] conversion.rows()[j]).len()
                    == conversion.rows()[0].len(),
            out@ == old(out)@ + csv_output(
                done.map_values(|l: Seq<char>| tsv_line_fields(l)),
                delimiter,
            ),
        decreases all.len() - k,
    {
        let ghost rest = all.skip(k);
        let ghost cur0 = cur@;
        let ghost dm = done.map_values(|l: Seq<char>| tsv_line_fields(l));
        match it.next() {
            Some(c) => {
                proof {
                    assert(rest[0] == c);
                    assert(all[k] == c);
                    assert(rest.drop_first() =~= all.skip(k + 1));
                    assert(all.take(k + 1).drop_last() =~= all.take(k));
                    assert(all.take(k + 1).last() == c);
                }
                string_push(&mut cur, c);
                proof {
                    lemma_lines_next(all, k, done, cur0);
                }
                if c == '\n' {
                    let ghost line = cur@;
                    proof {
                        lemma_line_complete(all, k + 1, done, line);
                        assert(records.take(done.len() as int) =~= dm);
                        assert(records[done.len() as int] == tsv_line_fields(line));
                    }
                    let r = conversion.on_tsv_line(cur.as_str(), out, delimiter);
                    match r {
                        Err(e) => {
                            proof {
                                lemma_ragged_here(records, dm, tsv_line_fields(line));
                            }
                            return Err(e);
                        },
                        Ok(()) => {},
                    }
                    proof {
                        let nd = done.push(line);
                        assert(nd.map_values(|l: Seq<char>| tsv_line_fields(l)) =~= dm.push(
                            tsv_line_fields(line),
                        ));
                        assert(dm.push(tsv_line_fields(line)).drop_last() =~= dm);
                        done = nd;
                    }
                    cur = String::new();
                }
                proof {
                    k = k + 1;
                }
            },
            None => {
                proof {
                    assert(rest.len() == 0);
                    assert(all.take(k) =~= all);
                }
                if cur.as_str().unicode_len() > 0 {
                    let ghost line = cur@;
                    proof {
                        assert(records =~= dm.push(tsv_line_fields(line)));
                        assert(records.take(done.len() as int) =~= dm);
                    }
                    let r = conversion.on_tsv_line(cur.as_str(), out, delimiter);
                    match r {
                        Err(e) => {
                            proof {
                                lemma_ragged_here(records, dm, tsv_line_fields(line));
                            }
                            return Err(e);
                        },
                        Ok(()) => {},
                    }
                    proof {
                        assert(records.drop_last() =~= dm);
                        if validate_header && records.len() > 1 {
                            lemma_first_ragged_skip(records, 1, records.len() as int);
                        }
                    }
                } else {
                    proof {
                        assert(records =~= dm);
                        if validate_header && records.len() > 1 {
                            lemma_first_ragged_skip(records, 1, records.len() as int);
                        }
                    }
                }
                return Ok(());
            },
        }
    }
}

proof fn lemma_csv_output_front(records: Seq<Seq<Seq<char>>>, d: u8)
    requires
        records.len() >= 1,
    ensures
        csv_output(records, d) == record_bytes(records[0], d) + csv_output(
            records.drop_first(),
            d,
        ),
    decreases records.len(),
{
    if records.len() == 1 {
        assert(records.drop_last() =~= Seq::<Seq<Seq<char>>>::empty());
        assert(records.drop_first() =~= Seq::<Seq<Seq<char>>>::empty());
        assert(Seq::<u8>::empty() + record_bytes(records[0], d) =~= record_bytes(records[0], d));
        assert(record_bytes(records[0], d) + Seq::<u8>::empty() =~= record_bytes(records[0], d));
    } else {
        let init = records.drop_last();
        lemma_csv_output_front(init, d);
        assert(init.drop_first() =~= records.drop_first().drop_last());
        assert(records.drop_first().last() == records.last());
        assert(init[0] == records[0]);
        assert(csv_output(records, d) =~= record_bytes(records[0], d) + csv_output(
            records.drop_first(),
            d,
        ));
    }
}

/// What a TSV-to-CSV conversion writes reads back, as CSV, as the records
/// it was given (each of one or more fields, with a delimiter that is an
/// ASCII byte other than a quote, `\n` or `\r`).
pub proof fn lemma_csv_output_reads_back(records: Seq<Seq<Seq<char>>>, d: u8)
    requires
        plain_delimiter(d),
        forall|k: int| 0 <= k < records.len() ==> (#[trigger] records[k]).len() >= 1,
    ensures
        records_text(parse_all(csv_output(records, d), d)) == records,
    decreases records.len(),
{
    if records.len() == 0 {
        assert(parse_all(csv_output(records, d), d) =~= Seq::<Seq<Seq<u8>>>::empty());
        assert(records_text(Seq::<Seq<Seq<u8>>>::empty()) =~= records);
    } else {
        let rest = records.drop_first();
        assert forall|k: int| 0 <= k < rest.len() implies (#[trigger] rest[k]).len() >= 1 by {
            assert(rest[k] == records[k + 1]);
        }
        lemma_csv_output_reads_back(rest, d);
        lemma_csv_output_front(records, d);
        assert(records[0].len() >= 1);
        lemma_csv_round_trip(records[0], d, csv_output(rest, d));
        let enc = records[0].map_values(|f: Seq<char>| encode_utf8(f));
        let tail = parse_all(csv_output(rest, d), d);
        assert(records_text(seq![enc] + tail) =~= seq![crate::csv_format::record_text(enc)]
            + records_text(tail));
        assert(seq![records[0]] + rest =~= records);
    }
}

/// The lines a CSV-to-TSV conversion writes for the records, as text.
pub open spec fn tsv_text(records: Seq<Seq<Seq<char>>>) -> Seq<char>
    decreases records.len(),
{
    if records.len() == 0 {
        seq![]
    } else {
        tsv_text(records.drop_last()) + tsv_line(records.last())
    }
}

proof fn lemma_tsv_output_text(records: Seq<Seq<Seq<char>>>)
    ensures
        tsv_output(records) == encode_utf8(tsv_text(records)),
    decreases records.len(),
{
    if records.len() > 0 {
        lemma_tsv_output_text(records.drop_last());
        lemma_encode_concat(tsv_text(records.drop_last()), tsv_line(records.last()));
    } else {
        assert(encode_utf8(Seq::<char>::empty()) =~= Seq::<u8>::empty());
    }
}

/// Text without a line feed is one line, or none if empty.
proof fn lemma_lines_of_one_line(x: Seq<char>)
    requires
        !x.contains('\n'),
    ensures
        x.len() > 0 ==> lines(x) == seq![x],
        x.len() == 0 ==> lines(x).len() == 0,
    decreases x.len(),
{
    if x.len() > 0 {
        let init = x.drop_last();
        assert(!init.contains('\n')) by {
            if init.contains('\n') {
                let k = choose|k: int| 0 <= k < init.len() && init[k] == '\n';
                assert(x[k] == '\n');
            }
        }
        lemma_lines_of_one_line(init);
        if init.len() > 0 {
            assert(init.contains(init.last()));
            assert(init.push(x.last()) =~= x);
            assert(lines(x) =~= seq![x]);
        } else {
            assert(seq![x.last()] =~= x);
        }
    }
}

/// A written TSV line is a single line of its own.
proof fn lemma_lines_of_tsv_line(r: Seq<Seq<char>>)
    ensures
        lines(tsv_line(r)) == seq![tsv_line(r)],
{
    lemma_tsv_round_trip(r);
    let t = tsv_line(r);
    let y = t.drop_last();
    lemma_lines_of_one_line(y);
    assert(t.drop_last() == y);
    assert(y.push('\n') =~= t);
    if y.len() > 0 {
        assert(y.contains(y.last()));
        assert(lines(t) =~= seq![t]);
    } else {
        assert(lines(t) =~= seq![t]);
    }
}

/// What a CSV-to-TSV conversion writes reads back, as TSV, as the records it
/// was given (each of one or more fields): one line per record.
pub proof fn lemma_tsv_output_reads_back(records: Seq<Seq<Seq<char>>>)
    requires
        forall|k: int| 0 <= k < records.len() ==> (#[trigger] records[k]).len() >= 1,
    ensures
        lines(decode_utf8(tsv_output(records))).map_values(|l: Seq<char>| tsv_line_fields(l))
            == records,
{
    lemma_tsv_output_text(records);
    encode_utf8_decode_utf8(tsv_text(records));
    lemma_tsv_lines(records);
    let m = records.map_values(|r: Seq<Seq<char>>| tsv_line(r));
    let mm = m.map_values(|l: Seq<char>| tsv_line_fields(l));
    assert forall|k: int| 0 <= k < records.len() implies #[trigger] mm[k] == records[k] by {
        lemma_tsv_round_trip(records[k]);
    }
    assert(mm =~= records);
}

proof fn lemma_tsv_lines(records: Seq<Seq<Seq<char>>>)
    ensures
        lines(tsv_text(records)) == records.map_values(|r: Seq<Seq<char>>| tsv_line(r)),
    decreases records.len(),
{
    if records.len() == 0 {
        assert(lines(tsv_text(records)) =~= Seq::<Seq<char>>::empty());
        assert(records.map_values(|r: Seq<Seq<char>>| tsv_line(r)) =~= Seq::<Seq<char>>::empty());
    } else {
        let init = records.drop_last();
        lemma_tsv_lines(init);
        let a = lines(tsv_text(init));
        if a.len() > 0 {
            lemma_tsv_round_trip(init.last());
            assert(a.last() == tsv_line(init.last()));
        }
        lemma_lines_concat(tsv_text(init), tsv_line(records.last()));
        lemma_lines_of_tsv_line(records.last());
        assert(records.map_values(|r: Seq<Seq<char>>| tsv_line(r)) =~= init.map_values(
            |r: Seq<Seq<char>>| tsv_line(r),
        ).push(tsv_line(records.last())));
    }
}

/// Converting CSV to TSV keeps every record: the TSV written for the
/// records of any CSV input reads back, line by line, as those records.
pub proof fn lemma_csv_to_tsv_keeps_records(input: Seq<u8>, d: u8)
    ensures
        ({
            let records = records_text(parse_all(input, d));
            lines(decode_utf8(tsv_output(records))).map_values(|l: Seq<char>| tsv_line_fields(l))
                == records
        }),
{
    let raw = parse_all(input, d);
    let records = records_text(raw);
    lemma_records_have_fields(input, d);
    assert forall|k: int| 0 <= k < records.len() implies (#[trigger] records[k]).len() >= 1 by {
        assert(raw[k].len() >= 1);
    }
    lemma_tsv_output_reads_back(records);
}

/// Converting TSV to CSV keeps every record: the CSV written for the lines
/// of any TSV input reads back as those lines' fields, where the delimiter
/// is an ASCII byte other than a quote, `\n` or `\r`.
pub proof fn lemma_tsv_to_csv_keeps_records(input: Seq<char>, d: u8)
    requires
        plain_delimiter(d),
    ensures
        ({
            let records = lines(input).map_values(|l: Seq<char>| tsv_line_fields(l));
            records_text(parse_all(csv_output(records, d), d)) == records
        }),
{
    let ls = lines(input);
    let records = ls.map_values(|l: Seq<char>| tsv_line_fields(l));
    assert forall|k: int| 0 <= k < records.len() implies (#[trigger] records[k]).len() >= 1 by {
        lemma_split_tabs_nonempty(crate::tsv_format::trim_line_end(ls[k]));
    }
    lemma_csv_output_reads_back(records, d);
}

} // verus!
