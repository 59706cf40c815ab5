//! CSV records: what a byte stream means as a sequence of records, a reader
//! that takes the stream one byte at a time, and the record writer.
//!
//! Fields are separated by a delimiter byte (comma by default). A field that
//! starts with a double quote is quoted: inside it the delimiter and line
//! ends are ordinary bytes and a doubled quote stands for one quote. A quote
//! elsewhere is an ordinary byte. A record ends at `\n`, `\r\n`, a lone `\r`,
//! or the end of the input.
use vstd::prelude::*;
use crate::text::{append_bytes, bytes_to_string, contains_char, field_text, lemma_scalar_ascii_byte};
use vstd::utf8::*;

verus! {

/// The double quote byte.
pub const QUOTE: u8 = 0x22;

/// The line feed byte.
pub const LF: u8 = 0x0a;

/// The carriage return byte.
pub const CR: u8 = 0x0d;

/// Where the scanner of a record is.
#[derive(Clone, Copy, PartialEq, Eq, Debug)]
pub enum ScanMode {
    /// In an unquoted field (or at the start of a field).
    Unquoted,
    /// Inside a quoted field.
    Quoted,
    /// Inside a quoted field, just after a quote: the next byte tells
    /// whether it was a doubled quote or the closing one.
    AfterQuote,
    /// The record's fields are complete and ended by `\r`; a `\n` right
    /// after it belongs to the same line end.
    AfterCr,
}

/// Where a record whose last `\r` is just before position `j` ends: one
/// byte further if a `\n` follows. Unknown (`None`) when the bytes seen so
/// far stop at `j` and more may follow (`eof` false).
pub open spec fn line_end(s: Seq<u8>, eof: bool, j: int) -> Option<int> {
    if j < s.len() {
        if s[j] == LF {
            Some(j + 1)
        } else {
            Some(j)
        }
    } else if eof {
        Some(j)
    } else {
        None
    }
}

/// Scans the rest of a record in `s` from position `i`, in `mode`, with the
/// fields completed so far and the bytes of the field being read. `eof`
/// says whether `s` is the whole rest of the input. The result is the
/// record's fields and the position just after it, or `None` where the bytes
/// of `s` do not yet decide the record (only when `eof` is false).
pub open spec fn scan(
    s: Seq<u8>,
    d: u8,
    eof: bool,
    mode: ScanMode,
    i: int,
    fields: Seq<Seq<u8>>,
    field: Seq<u8>,
) -> Option<(Seq<Seq<u8>>, int)>
    decreases s.len() - i,
{
    if mode == ScanMode::AfterCr {
        match line_end(s, eof, i) {
            Some(e) => Some((fields, e)),
            None => None,
        }
    } else if i >= s.len() {
        if eof {
            Some((fields.push(field), s.len() as int))
        } else {
            None
        }
    } else {
        let b = s[i];
        if mode == ScanMode::Quoted {
            if b == QUOTE {
                scan(s, d, eof, ScanMode::AfterQuote, i + 1, fields, field)
            } else {
                scan(s, d, eof, ScanMode::Quoted, i + 1, fields, field.push(b))
            }
        } else if mode == ScanMode::Unquoted && b == QUOTE && field.len() == 0 {
            scan(s, d, eof, ScanMode::Quoted, i + 1, fields, field)
        } else if mode == ScanMode::AfterQuote && b == QUOTE {
            scan(s, d, eof, ScanMode::Quoted, i + 1, fields, field.push(QUOTE))
        } else if b == d {
            scan(s, d, eof, ScanMode::Unquoted, i + 1, fields.push(field), seq![])
        } else if b == LF {
            Some((fields.push(field), i + 1))
        } else if b == CR {
            scan(s, d, eof, ScanMode::AfterCr, i + 1, fields.push(field), seq![])
        } else {
            scan(s, d, eof, ScanMode::Unquoted, i + 1, fields, field.push(b))
        }
    }
}

/// The first record of `s` with delimiter `d`: its fields as raw bytes and
/// the number of bytes it takes up, line end included. `None` when `eof` is
/// false and the bytes of `s` do not decide the record yet.
pub open spec fn first_record(s: Seq<u8>, d: u8, eof: bool) -> Option<(Seq<Seq<u8>>, int)> {
    scan(s, d, eof, ScanMode::Unquoted, 0, seq![], seq![])
}

/// All records of a complete input `s` with delimiter `d`, fields as raw bytes.
/// An empty input has no record; any other input has at least one.
pub open spec fn parse_all(s: Seq<u8>, d: u8) -> Seq<Seq<Seq<u8>>>
    decreases s.len(),
{
    if s.len() == 0 {
        seq![]
    } else {
        match first_record(s, d, true) {
            Some((fields, e)) => if 0 < e <= s.len() {
                seq![fields].add(parse_all(s.skip(e), d))
            } else {
                seq![]
            },
            None => seq![],
        }
    }
}

/// Scanning ends inside what was scanned; with the whole input it always
/// ends; from a position before the end it takes at least that byte.
pub proof fn lemma_scan_bounds(
    s: Seq<u8>,
    d: u8,
    eof: bool,
    mode: ScanMode,
    i: int,
    fields: Seq<Seq<u8>>,
    field: Seq<u8>,
)
    requires
        0 <= i <= s.len(),
    ensures
        eof ==> scan(s, d, eof, mode, i, fields, field) is Some,
        scan(s, d, eof, mode, i, fields, field) matches Some((_, e)) ==> i <= e <= s.len() && (
        i < s.len() && mode != ScanMode::AfterCr ==> i < e),
    decreases s.len() - i,
{
    if mode != ScanMode::AfterCr && i < s.len() {
        let b = s[i];
        if mode == ScanMode::Quoted {
            if b == QUOTE {
                lemma_scan_bounds(s, d, eof, ScanMode::AfterQuote, i + 1, fields, field);
            } else {
                lemma_scan_bounds(s, d, eof, ScanMode::Quoted, i + 1, fields, field.push(b));
            }
        } else if mode == ScanMode::Unquoted && b == QUOTE && field.len() == 0 {
            lemma_scan_bounds(s, d, eof, ScanMode::Quoted, i + 1, fields, field);
        } else if mode == ScanMode::AfterQuote && b == QUOTE {
            lemma_scan_bounds(s, d, eof, ScanMode::Quoted, i + 1, fields, field.push(QUOTE));
        } else if b == d {
            lemma_scan_bounds(s, d, eof, ScanMode::Unquoted, i + 1, fields.push(field), seq![]);
        } else if b == LF {
        } else if b == CR {
            lemma_scan_bounds(s, d, eof, ScanMode::AfterCr, i + 1, fields.push(field), seq![]);
        } else {
            lemma_scan_bounds(s, d, eof, ScanMode::Unquoted, i + 1, fields, field.push(b));
        }
    }
}

/// A record that the bytes seen so far decide stays the same record
/// whatever follows them, and whether or not the input ends there.
pub proof fn lemma_scan_extend(
    s: Seq<u8>,
    t: Seq<u8>,
    d: u8,
    eof: bool,
    mode: ScanMode,
    i: int,
    fields: Seq<Seq<u8>>,
    field: Seq<u8>,
)
    requires
        0 <= i,
        scan(s, d, false, mode, i, fields, field) is Some,
    ensures
        scan(s + t, d, eof, mode, i, fields, field) == scan(s, d, false, mode, i, fields, field),
    decreases s.len() - i,
{
    let u = s + t;
    if mode != ScanMode::AfterCr && i < s.len() {
        let b = s[i];
        assert(u[i] == b);
        if mode == ScanMode::Quoted {
            if b == QUOTE {
                lemma_scan_extend(s, t, d, eof, ScanMode::AfterQuote, i + 1, fields, field);
            } else {
                lemma_scan_extend(s, t, d, eof, ScanMode::Quoted, i + 1, fields, field.push(b));
            }
        } else if mode == ScanMode::Unquoted && b == QUOTE && field.len() == 0 {
            lemma_scan_extend(s, t, d, eof, ScanMode::Quoted, i + 1, fields, field);
        } else if mode == ScanMode::AfterQuote && b == QUOTE {
            lemma_scan_extend(s, t, d, eof, ScanMode::Quoted, i + 1, fields, field.push(QUOTE));
        } else if b == d {
            lemma_scan_extend(s, t, d, eof, ScanMode::Unquoted, i + 1, fields.push(field), seq![]);
        } else if b == LF {
        } else if b == CR {
            lemma_scan_extend(s, t, d, eof, ScanMode::AfterCr, i + 1, fields.push(field), seq![]);
        } else {
            lemma_scan_extend(s, t, d, eof, ScanMode::Unquoted, i + 1, fields, field.push(b));
        }
    } else if mode == ScanMode::AfterCr {
        assert(i < s.len());
        assert(u[i] == s[i]);
    }
}

/// Where the bytes seen so far leave a record undecided, the end of the
/// input right there ends the record there.
pub proof fn lemma_scan_close(
    s: Seq<u8>,
    d: u8,
    mode: ScanMode,
    i: int,
    fields: Seq<Seq<u8>>,
    field: Seq<u8>,
)
    requires
        0 <= i <= s.len(),
        scan(s, d, false, mode, i, fields, field) is None,
    ensures
        scan(s, d, true, mode, i, fields, field) matches Some((_, e)) && e == s.len(),
    decreases s.len() - i,
{
    if mode != ScanMode::AfterCr && i < s.len() {
        let b = s[i];
        if mode == ScanMode::Quoted {
            if b == QUOTE {
                lemma_scan_close(s, d, ScanMode::AfterQuote, i + 1, fields, field);
            } else {
                lemma_scan_close(s, d, ScanMode::Quoted, i + 1, fields, field.push(b));
            }
        } else if mode == ScanMode::Unquoted && b == QUOTE && field.len() == 0 {
            lemma_scan_close(s, d, ScanMode::Quoted, i + 1, fields, field);
        } else if mode == ScanMode::AfterQuote && b == QUOTE {
            lemma_scan_close(s, d, ScanMode::Quoted, i + 1, fields, field.push(QUOTE));
        } else if b == d {
            lemma_scan_close(s, d, ScanMode::Unquoted, i + 1, fields.push(field), seq![]);
        } else if b == LF {
        } else if b == CR {
            lemma_scan_close(s, d, ScanMode::AfterCr, i + 1, fields.push(field), seq![]);
        } else {
            lemma_scan_close(s, d, ScanMode::Unquoted, i + 1, fields, field.push(b));
        }
    }
}

/// The text of each field of a record read as raw bytes.
pub open spec fn record_text(fields: Seq<Seq<u8>>) -> Seq<Seq<char>> {
    fields.map_values(|f: Seq<u8>| field_text(f))
}

/// The raw bytes of each field held in a vector.
pub open spec fn raw_fields(fields: Seq<Vec<u8>>) -> Seq<Seq<u8>> {
    fields.map_values(|f: Vec<u8>| f@)
}

/// Scanning any input that starts with the bytes `p` reaches position
/// `p.len()` in `mode`, with `fields` completed and `field` being read.
pub closed spec fn resumes(
    p: Seq<u8>,
    d: u8,
    mode: ScanMode,
    fields: Seq<Seq<u8>>,
    field: Seq<u8>,
) -> bool {
    forall|t: Seq<u8>, eof: bool| #[trigger]
        first_record(p + t, d, eof) == scan(p + t, d, eof, mode, p.len() as int, fields, field)
}

proof fn lemma_resumes_fresh(d: u8)
    ensures
        resumes(Seq::empty(), d, ScanMode::Unquoted, Seq::empty(), Seq::empty()),
{
    assert forall|t: Seq<u8>, eof: bool| #[trigger]
        first_record(Seq::<u8>::empty() + t, d, eof) == scan(
            Seq::<u8>::empty() + t,
            d,
            eof,
            ScanMode::Unquoted,
            0,
            Seq::empty(),
            Seq::empty(),
        ) by {
        assert(Seq::<u8>::empty() + t =~= t);
    }
}

/// Taking one more byte `b`: scanning any input that starts with `p` and
/// `b` reaches position `p.len()`, where it finds `b`, as before.
proof fn lemma_resumes_one_more(
    p: Seq<u8>,
    b: u8,
    d: u8,
    mode: ScanMode,
    fields: Seq<Seq<u8>>,
    field: Seq<u8>,
)
    requires
        resumes(p, d, mode, fields, field),
    ensures
        forall|t: Seq<u8>, eof: bool| #[trigger]
            first_record(p.push(b) + t, d, eof) == scan(
                p.push(b) + t,
                d,
                eof,
                mode,
                p.len() as int,
                fields,
                field,
            ) && (p.push(b) + t)[p.len() as int] == b,
{
    assert forall|t: Seq<u8>, eof: bool| #[trigger]
        first_record(p.push(b) + t, d, eof) == scan(
            p.push(b) + t,
            d,
            eof,
            mode,
            p.len() as int,
            fields,
            field,
        ) && (p.push(b) + t)[p.len() as int] == b by {
        assert(p + (seq![b] + t) =~= p.push(b) + t);
        assert(first_record(p + (seq![b] + t), d, eof) == scan(
            p + (seq![b] + t),
            d,
            eof,
            mode,
            p.len() as int,
            fields,
            field,
        ));
    }
}

/// What a call of [`CsvReader::read_record`] did with the input it was given.
#[derive(Clone, Copy, PartialEq, Eq, Debug)]
pub enum ReadStatus {
    /// The byte was taken; the record it belongs to is not complete yet.
    NeedInput,
    /// A record is complete and was written to the caller's `fields`.
    Record,
    /// The input has ended and no record is left.
    Exhausted,
}

/// The state of scanning the record being read: the bytes of it taken so
/// far, the scan mode reached, the completed fields and the field being read.
struct ScanState {
    delimiter: u8,
    mode: ScanMode,
    fields: Vec<Vec<u8>>,
    field: Vec<u8>,
    started: bool,
    pending: Ghost<Seq<u8>>,
}

impl ScanState {
    /// The state is the state of scanning its pending bytes.
    spec fn wf(&self) -> bool {
        &&& resumes(self.pending@, self.delimiter, self.mode, raw_fields(self.fields@), self.field@)
        &&& self.started == (self.pending@.len() > 0)
    }

    /// The state at the start of a record.
    fn new(delimiter: u8) -> (r: Self)
        ensures
            r.wf(),
            r.delimiter == delimiter,
            r.pending@ == Seq::<u8>::empty(),
    {
        let r = ScanState {
            delimiter,
            mode: ScanMode::Unquoted,
            fields: Vec::new(),
            field: Vec::new(),
            started: false,
            pending: Ghost(Seq::empty()),
        };
        proof {
            lemma_resumes_fresh(delimiter);
            assert(raw_fields(r.fields@) =~= Seq::<Seq<u8>>::empty());
        }
        r
    }

    /// Moves the field being read to the completed fields.
    fn finish_field(&mut self)
        ensures
            raw_fields(final(self).fields@) == raw_fields(old(self).fields@).push(old(self).field@),
            final(self).field@ == Seq::<u8>::empty(),
            final(self).delimiter == old(self).delimiter,
            final(self).mode == old(self).mode,
            final(self).started == old(self).started,
            final(self).pending == old(self).pending,
    {
        let mut f: Vec<u8> = Vec::new();
        std::mem::swap(&mut f, &mut self.field);
        self.fields.push(f);
        assert(raw_fields(self.fields@) =~= raw_fields(old(self).fields@).push(old(self).field@));
    }

    /// Writes the completed fields to `out` as text and starts a new record.
    fn emit(&mut self, out: &mut Vec<String>)
        ensures
            final(out).deep_view() == record_text(raw_fields(old(self).fields@)),
            final(self).fields@.len() == 0,
            final(self).field@ == Seq::<u8>::empty(),
            final(self).mode == ScanMode::Unquoted,
            final(self).started == false,
            final(self).delimiter == old(self).delimiter,
            final(self).pending == old(self).pending,
    {
        out.clear();
        let n = self.fields.len();
        for k in 0..n
            invariant
                n == self.fields@.len(),
                self.fields == old(self).fields,
                out.deep_view() =~= record_text(raw_fields(self.fields@)).take(k as int),
        {
            let s = bytes_to_string(self.fields[k].as_slice());
            assert(s@ == field_text(raw_fields(self.fields@)[k as int]));
            let ghost prev = out.deep_view();
            out.push(s);
            assert(out.deep_view() =~= prev.push(s@));
            assert(out.deep_view() =~= record_text(raw_fields(self.fields@)).take(k + 1));
        }
        assert(record_text(raw_fields(self.fields@)).take(n as int) =~= record_text(raw_fields(self.fields@)));
        self.fields = Vec::new();
        self.field = Vec::new();
        self.mode = ScanMode::Unquoted;
        self.started = false;
    }

    proof fn lemma_undecided(&self)
        requires
            self.wf(),
        ensures
            first_record(self.pending@, self.delimiter, false) is None,
    {
        assert(self.pending@ + Seq::<u8>::empty() =~= self.pending@);
        assert(first_record(self.pending@ + Seq::<u8>::empty(), self.delimiter, false) == scan(
            self.pending@ + Seq::<u8>::empty(),
            self.delimiter,
            false,
            self.mode,
            self.pending@.len() as int,
            raw_fields(self.fields@),
            self.field@,
        ));
    }

    /// Takes byte `b` of the input in any mode but `AfterCr`.
    fn step(&mut self, b: u8, out: &mut Vec<String>) -> (status: ReadStatus)
        requires
            old(self).wf(),
            old(self).mode != ScanMode::AfterCr,
        ensures
            final(self).wf(),
            final(self).delimiter == old(self).delimiter,
            match first_record(old(self).pending@.push(b), old(self).delimiter, false) {
                Some((rec, e)) => status == ReadStatus::Record && final(out).deep_view()
                    == record_text(rec) && final(self).pending@ == old(self).pending@.push(b).skip(
                    e,
                ),
                None => status == ReadStatus::NeedInput && *final(out) == *old(out)
                    && final(self).pending@ == old(self).pending@.push(b),
            },
    {
        let d = self.delimiter;
        let ghost p = self.pending@;
        let ghost q = p.push(b);
        let ghost mode0 = self.mode;
        let ghost fields0 = raw_fields(self.fields@);
        let ghost field0 = self.field@;
        proof {
            lemma_resumes_one_more(p, b, d, mode0, fields0, field0);
        }
        let ends_record: bool;
        match self.mode {
            ScanMode::Quoted => {
                if b == QUOTE {
                    self.mode = ScanMode::AfterQuote;
                } else {
                    self.field.push(b);
                }
                ends_record = false;
            },
            ScanMode::Unquoted => {
                if b == QUOTE && self.field.len() == 0 {
                    self.mode = ScanMode::Quoted;
                    ends_record = false;
                } else if b == d {
                    self.finish_field();
                    ends_record = false;
                } else if b == LF {
                    self.finish_field();
                    ends_record = true;
                } else if b == CR {
                    self.finish_field();
                    self.mode = ScanMode::AfterCr;
                    ends_record = false;
                } else {
                    self.field.push(b);
                    ends_record = false;
                }
            },
            _ => {
                if b == QUOTE {
                    self.field.push(QUOTE);
                    self.mode = ScanMode::Quoted;
                    ends_record = false;
                } else if b == d {
                    self.finish_field();
                    self.mode = ScanMode::Unquoted;
                    ends_record = false;
                } else if b == LF {
                    self.finish_field();
                    ends_record = true;
                } else if b == CR {
                    self.finish_field();
                    self.mode = ScanMode::AfterCr;
                    ends_record = false;
                } else {
                    self.field.push(b);
                    self.mode = ScanMode::Unquoted;
                    ends_record = false;
                }
            },
        }
        if ends_record {
            proof {
                assert(q + Seq::<u8>::empty() =~= q);
                assert(first_record(q + Seq::<u8>::empty(), d, false) == scan(
                    q + Seq::<u8>::empty(),
                    d,
                    false,
                    mode0,
                    p.len() as int,
                    fields0,
                    field0,
                ));
                assert(q.skip(q.len() as int) =~= Seq::<u8>::empty());
            }
            self.emit(out);
            self.pending = Ghost(Seq::empty());
            proof {
                lemma_resumes_fresh(d);
                assert(raw_fields(self.fields@) =~= Seq::<Seq<u8>>::empty());
            }
            ReadStatus::Record
        } else {
            self.pending = Ghost(q);
            self.started = true;
            proof {
                let fields1 = raw_fields(self.fields@);
                let field1 = self.field@;
                let mode1 = self.mode;
                assert forall|t: Seq<u8>, eof: bool| #[trigger]
                    first_record(q + t, d, eof) == scan(
                        q + t,
                        d,
                        eof,
                        mode1,
                        q.len() as int,
                        fields1,
                        field1,
                    ) by {
                    assert(first_record(q + t, d, eof) == scan(
                        q + t,
                        d,
                        eof,
                        mode0,
                        p.len() as int,
                        fields0,
                        field0,
                    ));
                }
                self.lemma_undecided();
            }
            ReadStatus::NeedInput
        }
    }

    /// Takes the next event of the input.
    fn read_record(&mut self, next: Option<u8>, fields: &mut Vec<String>) -> (status:
        ReadStatus)
        requires
            old(self).wf(),
        ensures
            final(self).wf(),
            final(self).delimiter == old(self).delimiter,
            first_record(final(self).pending@, final(self).delimiter, false) is None,
            match next {
                Some(b) => match first_record(
                    old(self).pending@.push(b),
                    old(self).delimiter,
                    false,
                ) {
                    Some((rec, e)) => status == ReadStatus::Record && final(fields).deep_view()
                        == record_text(rec) && final(self).pending@ == old(self).pending@.push(
                        b,
                    ).skip(e),
                    None => status == ReadStatus::NeedInput && *final(fields) == *old(fields)
                        && final(self).pending@ == old(self).pending@.push(b),
                },
                None => if old(self).pending@.len() == 0 {
                    status == ReadStatus::Exhausted && final(fields)@.len() == 0
                        && final(self).pending@.len() == 0
                } else {
                    &&& first_record(old(self).pending@, old(self).delimiter, true) matches Some(
                        (rec, _),
                    )
                    &&& status == ReadStatus::Record
                    &&& final(fields).deep_view() == record_text(rec)
                    &&& final(self).pending@.len() == 0
                },
            },
    {
        let d = self.delimiter;
        let ghost p = self.pending@;
        let ghost mode0 = self.mode;
        let ghost fields0 = raw_fields(self.fields@);
        let ghost field0 = self.field@;
        match next {
            Some(b) => {
                match self.mode {
                    ScanMode::AfterCr => {
                        let ghost q = p.push(b);
                        proof {
                            lemma_resumes_one_more(p, b, d, mode0, fields0, field0);
                            assert(q + Seq::<u8>::empty() =~= q);
                            assert(first_record(q + Seq::<u8>::empty(), d, false) == scan(
                                q + Seq::<u8>::empty(),
                                d,
                                false,
                                mode0,
                                p.len() as int,
                                fields0,
                                field0,
                            ));
                        }
                        self.emit(fields);
                        self.pending = Ghost(Seq::empty());
                        proof {
                            lemma_resumes_fresh(d);
                            assert(raw_fields(self.fields@) =~= Seq::<Seq<u8>>::empty());
                            assert(Seq::<u8>::empty().push(b) =~= seq![b]);
                        }
                        if b == LF {
                            proof {
                                assert(q.skip(q.len() as int) =~= Seq::<u8>::empty());
                            }
                        } else {
                            proof {
                                assert(first_record(Seq::<u8>::empty().push(b), d, false) is None)
                                    by {
                                    reveal_with_fuel(scan, 3);
                                }
                            }
                            let _ = self.step(b, fields);
                            proof {
                                assert(q.skip(p.len() as int) =~= seq![b]);
                            }
                        }
                        proof {
                            self.lemma_undecided();
                        }
                        ReadStatus::Record
                    },
                    _ => {
                        let r = self.step(b, fields);
                        proof {
                            self.lemma_undecided();
                        }
                        r
                    },
                }
            },
            None => {
                if !self.started {
                    fields.clear();
                    proof {
                        self.lemma_undecided();
                    }
                    ReadStatus::Exhausted
                } else {
                    proof {
                        assert(p + Seq::<u8>::empty() =~= p);
                        assert(first_record(p + Seq::<u8>::empty(), d, true) == scan(
                            p + Seq::<u8>::empty(),
                            d,
                            true,
                            mode0,
                            p.len() as int,
                            fields0,
                            field0,
                        ));
                    }
                    match self.mode {
                        ScanMode::AfterCr => {},
                        _ => {
                            self.finish_field();
                        },
                    }
                    self.emit(fields);
                    self.pending = Ghost(Seq::empty());
                    proof {
                        lemma_resumes_fresh(d);
                        assert(raw_fields(self.fields@) =~= Seq::<Seq<u8>>::empty());
                        self.lemma_undecided();
                    }
                    ReadStatus::Record
                }
            },
        }
    }
}

/// Reads CSV records from a byte stream that the caller hands over one byte
/// at a time (`None` for the end of the input), so that no more than the
/// current record is ever held, whatever the size of the input.
pub struct CsvReader {
    state: ScanState,
}

impl CsvReader {
    /// The reader's state is the state of scanning its pending bytes.
    #[verifier::type_invariant]
    spec fn state_is_scan(self) -> bool {
        self.state.wf()
    }

    /// The field delimiter.
    pub closed spec fn delimiter(&self) -> u8 {
        self.state.delimiter
    }

    /// The bytes taken so far that belong to a record not yet returned.
    pub closed spec fn pending(&self) -> Seq<u8> {
        self.state.pending@
    }

    /// A reader at the start of an input, with field delimiter `delimiter`.
    pub fn new(delimiter: u8) -> (r: Self)
        ensures
            r.delimiter() == delimiter,
            r.pending() == Seq::<u8>::empty(),
    {
        CsvReader { state: ScanState::new(delimiter) }
    }

    /// Takes the next event of the input: `Some(b)` for its next byte, `None`
    /// for its end. Where the bytes taken so far complete a record, the
    /// record's fields are written to `fields` as text (invalid UTF-8 replaced
    /// by U+FFFD) and `Record` is returned. A record is complete once a byte
    /// shows where it ends: a `\n` outside quotes, the byte after a `\r`, or
    /// the end of the input, so a byte after a `\r` may already belong to the
    /// next record. At the end of the input with no byte pending, `Exhausted`
    /// is returned and `fields` is emptied.
    pub fn read_record(&mut self, next: Option<u8>, fields: &mut Vec<String>) -> (status:
        ReadStatus)
        ensures
            final(self).delimiter() == old(self).delimiter(),
            first_record(final(self).pending(), final(self).delimiter(), false) is None,
            status == ReadStatus::Record ==> final(fields)@.len() >= 1,
            match next {
                Some(b) => match first_record(
                    old(self).pending().push(b),
                    old(self).delimiter(),
                    false,
                ) {
                    Some((rec, e)) => status == ReadStatus::Record && final(fields).deep_view()
                        == record_text(rec) && final(self).pending() == old(self).pending().push(
                        b,
                    ).skip(e),
                    None => status == ReadStatus::NeedInput && *final(fields) == *old(fields)
                        && final(self).pending() == old(self).pending().push(b),
                },
                None => if old(self).pending().len() == 0 {
                    status == ReadStatus::Exhausted && final(fields)@.len() == 0
                        && final(self).pending().len() == 0
                } else {
                    &&& first_record(old(self).pending(), old(self).delimiter(), true) matches Some(
                        (rec, _),
                    )
                    &&& status == ReadStatus::Record
                    &&& final(fields).deep_view() == record_text(rec)
                    &&& final(self).pending().len() == 0
                },
            },
    {
        proof {
            use_type_invariant(&*self);
        }
        let mut st = ScanState::new(self.state.delimiter);
        std::mem::swap(&mut st, &mut self.state);
        let ghost p = st.pending@;
        let ghost d = st.delimiter;
        let status = st.read_record(next, fields);
        proof {
            let fs = fields.deep_view();
            match next {
                Some(b) => {
                    lemma_scan_fields_grow(p.push(b), d, false, ScanMode::Unquoted, 0, seq![], seq![]);
                },
                None => {
                    lemma_scan_fields_grow(p, d, true, ScanMode::Unquoted, 0, seq![], seq![]);
                },
            }
            assert(fs.len() == fields@.len());
        }
        self.state = st;
        status
    }
}

/// The text of each record of a sequence of records read as raw bytes.
pub open spec fn records_text(records: Seq<Seq<Seq<u8>>>) -> Seq<Seq<Seq<char>>> {
    records.map_values(|r: Seq<Seq<u8>>| record_text(r))
}

/// Streaming reads what reading the whole input reads: once the bytes `q`
/// seen so far decide a record, the records of any input that starts with
/// `q` are that record followed by the records of the rest.
pub proof fn lemma_parse_all_decided(q: Seq<u8>, t: Seq<u8>, d: u8)
    requires
        first_record(q, d, false) is Some,
    ensures
        first_record(q + t, d, true) == first_record(q, d, false),
        first_record(q, d, false) matches Some((rec, e)) && 0 < e <= q.len() && parse_all(q + t, d)
            == seq![rec] + parse_all(q.skip(e) + t, d),
{
    lemma_scan_extend(q, t, d, true, ScanMode::Unquoted, 0, seq![], seq![]);
    lemma_scan_bounds(q, d, false, ScanMode::Unquoted, 0, seq![], seq![]);
    let (rec, e) = first_record(q, d, false).unwrap();
    assert(q.len() > 0);
    assert((q + t).skip(e) =~= q.skip(e) + t);
}

/// At the end of the input, bytes that left a record undecided are that
/// record, and the last one.
pub proof fn lemma_parse_all_at_end(p: Seq<u8>, d: u8)
    requires
        p.len() > 0,
        first_record(p, d, false) is None,
    ensures
        first_record(p, d, true) matches Some((rec, e)) && e == p.len() && parse_all(p, d)
            == seq![rec],
{
    lemma_scan_close(p, d, ScanMode::Unquoted, 0, seq![], seq![]);
    let (rec, e) = first_record(p, d, true).unwrap();
    assert(p.skip(e) =~= Seq::<u8>::empty());
    assert(parse_all(p.skip(e), d) =~= Seq::<Seq<Seq<u8>>>::empty());
    assert(seq![rec] + Seq::<Seq<Seq<u8>>>::empty() =~= seq![rec]);
}

/// Every record takes at least one byte.
pub proof fn lemma_parse_all_len(s: Seq<u8>, d: u8)
    ensures
        parse_all(s, d).len() <= s.len(),
    decreases s.len(),
{
    if s.len() > 0 {
        lemma_scan_bounds(s, d, true, ScanMode::Unquoted, 0, seq![], seq![]);
        let (rec, e) = first_record(s, d, true).unwrap();
        lemma_parse_all_len(s.skip(e), d);
    }
}

/// Scanning adds at least the field being read to the completed fields.
proof fn lemma_scan_fields_grow(
    s: Seq<u8>,
    d: u8,
    eof: bool,
    mode: ScanMode,
    i: int,
    fields: Seq<Seq<u8>>,
    field: Seq<u8>,
)
    ensures
        scan(s, d, eof, mode, i, fields, field) matches Some((fs, _)) ==> fs.len() >= fields.len()
            + (if mode == ScanMode::AfterCr {
            0int
        } else {
            1int
        }),
    decreases s.len() - i,
{
    if mode != ScanMode::AfterCr && i < s.len() {
        let b = s[i];
        if mode == ScanMode::Quoted {
            if b == QUOTE {
                lemma_scan_fields_grow(s, d, eof, ScanMode::AfterQuote, i + 1, fields, field);
            } else {
                lemma_scan_fields_grow(s, d, eof, ScanMode::Quoted, i + 1, fields, field.push(b));
            }
        } else if mode == ScanMode::Unquoted && b == QUOTE && field.len() == 0 {
            lemma_scan_fields_grow(s, d, eof, ScanMode::Quoted, i + 1, fields, field);
        } else if mode == ScanMode::AfterQuote && b == QUOTE {
            lemma_scan_fields_grow(s, d, eof, ScanMode::Quoted, i + 1, fields, field.push(QUOTE));
        } else if b == d {
            lemma_scan_fields_grow(s, d, eof, ScanMode::Unquoted, i + 1, fields.push(field), seq![]);
        } else if b == LF {
        } else if b == CR {
            lemma_scan_fields_grow(s, d, eof, ScanMode::AfterCr, i + 1, fields.push(field), seq![]);
        } else {
            lemma_scan_fields_grow(s, d, eof, ScanMode::Unquoted, i + 1, fields, field.push(b));
        }
    }
}

/// Every record read has at least one field.
pub proof fn lemma_records_have_fields(s: Seq<u8>, d: u8)
    ensures
        forall|k: int| 0 <= k < parse_all(s, d).len() ==> (#[trigger] parse_all(s, d)[k]).len() >= 1,
    decreases s.len(),
{
    if s.len() > 0 {
        lemma_scan_bounds(s, d, true, ScanMode::Unquoted, 0, seq![], seq![]);
        lemma_scan_fields_grow(s, d, true, ScanMode::Unquoted, 0, seq![], seq![]);
        let (rec, e) = first_record(s, d, true).unwrap();
        lemma_records_have_fields(s.skip(e), d);
        let p = parse_all(s, d);
        assert forall|k: int| 0 <= k < p.len() implies (#[trigger] p[k]).len() >= 1 by {
            if k > 0 {
                assert(p[k] == parse_all(s.skip(e), d)[k - 1]);
            }
        }
    }
}

/// Reads every record of a complete input held in memory, by handing its
/// bytes to a [`CsvReader`] one at a time and then its end.
pub fn read_records(input: &[u8], delimiter: u8) -> (records: Vec<Vec<String>>)
    ensures
        records.deep_view() == records_text(parse_all(input@, delimiter)),
{
    let mut reader = CsvReader::new(delimiter);
    let mut records: Vec<Vec<String>> = Vec::new();
    let mut fields: Vec<String> = Vec::new();
    let ghost mut done: Seq<Seq<Seq<u8>>> = Seq::empty();
    let n = input.len();
    proof {
        assert(reader.pending() + input@.skip(0) =~= input@);
        assert(done + parse_all(input@, delimiter) =~= parse_all(input@, delimiter));
    }
    for i in 0..n
        invariant
            n == input@.len(),
            reader.delimiter() == delimiter,
            first_record(reader.pending(), delimiter, false) is None,
            done + parse_all(reader.pending() + input@.skip(i as int), delimiter) == parse_all(
                input@,
                delimiter,
            ),
            records.deep_view() == records_text(done),
    {
        let b = input[i];
        let ghost p = reader.pending();
        let ghost rest = input@.skip(i + 1);
        proof {
            assert(p + input@.skip(i as int) =~= p.push(b) + rest);
        }
        let status = reader.read_record(Some(b), &mut fields);
        match status {
            ReadStatus::Record => {
                proof {
                    lemma_parse_all_decided(p.push(b), rest, delimiter);
                    let (rec, e) = first_record(p.push(b), delimiter, false).unwrap();
                    assert(done.push(rec) + parse_all(reader.pending() + rest, delimiter) =~= done
                        + (seq![rec] + parse_all(reader.pending() + rest, delimiter)));
                    done = done.push(rec);
                }
                let mut rec: Vec<String> = Vec::new();
                std::mem::swap(&mut rec, &mut fields);
                let ghost prev = records.deep_view();
                records.push(rec);
                assert(records.deep_view() =~= prev.push(rec.deep_view()));
                assert(records.deep_view() =~= records_text(done));
            },
            _ => {},
        }
    }
    let ghost p = reader.pending();
    proof {
        assert(input@.skip(n as int) =~= Seq::<u8>::empty());
        assert(p + input@.skip(n as int) =~= p);
    }
    let status = reader.read_record(None, &mut fields);
    match status {
        ReadStatus::Record => {
            proof {
                lemma_parse_all_at_end(p, delimiter);
                let (rec, e) = first_record(p, delimiter, true).unwrap();
                done = done.push(rec);
            }
            let mut rec: Vec<String> = Vec::new();
            std::mem::swap(&mut rec, &mut fields);
            let ghost prev = records.deep_view();
            records.push(rec);
            assert(records.deep_view() =~= prev.push(rec.deep_view()));
            assert(records.deep_view() =~= records_text(done));
        },
        _ => {
            proof {
                assert(parse_all(p, delimiter) =~= Seq::<Seq<Seq<u8>>>::empty());
                assert(done + Seq::<Seq<Seq<u8>>>::empty() =~= done);
            }
        },
    }
    records
}

/// Whether the writer quotes `field` for delimiter `d`: where it contains
/// the delimiter (taken as a `char`), a quote, `\n` or `\r`.
pub open spec fn needs_quoting(field: Seq<char>, d: u8) -> bool {
    field.contains(d as char) || field.contains('"') || field.contains('\n') || field.contains('\r')
}

/// `b` with every quote byte doubled.
pub open spec fn double_quotes(b: Seq<u8>) -> Seq<u8>
    decreases b.len(),
{
    if b.len() == 0 {
        seq![]
    } else {
        (if b[0] == QUOTE {
            seq![QUOTE, QUOTE]
        } else {
            seq![b[0]]
        }) + double_quotes(b.drop_first())
    }
}

/// The bytes the writer writes for one field: its UTF-8 bytes, or, where it
/// needs quoting, those bytes with quotes doubled between two quotes.
pub open spec fn field_bytes(field: Seq<char>, d: u8) -> Seq<u8> {
    if needs_quoting(field, d) {
        seq![QUOTE] + double_quotes(encode_utf8(field)) + seq![QUOTE]
    } else {
        encode_utf8(field)
    }
}

/// The bytes of the fields, each written by `field_bytes`, separated by `d`.
pub open spec fn join_fields(fields: Seq<Seq<char>>, d: u8) -> Seq<u8>
    decreases fields.len(),
{
    if fields.len() == 0 {
        seq![]
    } else if fields.len() == 1 {
        field_bytes(fields[0], d)
    } else {
        join_fields(fields.drop_last(), d) + seq![d] + field_bytes(fields.last(), d)
    }
}

/// The bytes of a written record: its joined fields and a `\n`.
pub open spec fn record_bytes(fields: Seq<Seq<char>>, d: u8) -> Seq<u8> {
    join_fields(fields, d) + seq![LF]
}

/// Appends the bytes of `field` as a CSV field with delimiter `delimiter`.
fn write_field(out: &mut Vec<u8>, field: &str, delimiter: u8)
    ensures
        final(out)@ == old(out)@ + field_bytes(field@, delimiter),
{
    let needs_quoting = contains_char(field, delimiter as char) || contains_char(field, '"')
        || contains_char(field, '\n') || contains_char(field, '\r');
    let bytes = field.as_bytes();
    if !needs_quoting {
        append_bytes(out, bytes);
        return;
    }
    let n = bytes.len();
    out.push(QUOTE);
    let ghost base = out@;
    proof {
        assert(bytes@.skip(0) =~= bytes@);
        assert(out@ + double_quotes(bytes@.skip(0)) =~= base + double_quotes(bytes@));
    }
    for i in 0..n
        invariant
            n == bytes@.len(),
            out@ + double_quotes(bytes@.skip(i as int)) == base + double_quotes(bytes@),
    {
        let b = bytes[i];
        let ghost rest = bytes@.skip(i as int);
        proof {
            assert(rest[0] == b);
            assert(rest.drop_first() =~= bytes@.skip(i + 1));
        }
        out.push(b);
        if b == QUOTE {
            out.push(QUOTE);
        }
        proof {
            let piece = if b == QUOTE {
                seq![QUOTE, QUOTE]
            } else {
                seq![b]
            };
            assert(double_quotes(rest) == piece + double_quotes(bytes@.skip(i + 1)));
        }
    }
    proof {
        assert(bytes@.skip(n as int) =~= Seq::<u8>::empty());
        assert(double_quotes(Seq::<u8>::empty()) =~= Seq::<u8>::empty());
    }
    out.push(QUOTE);
}

/// Appends one CSV record to `out`: the fields, each quoted where it needs
/// to be, separated by `delimiter`, and a `\n`.
pub fn write_record(out: &mut Vec<u8>, fields: &[String], delimiter: u8)
    ensures
        final(out)@ == old(out)@ + record_bytes(fields.deep_view(), delimiter),
{
    let n = fields.len();
    let ghost texts = fields.deep_view();
    for i in 0..n
        invariant
            n == fields@.len(),
            texts == fields.deep_view(),
            out@ == old(out)@ + join_fields(texts.take(i as int), delimiter),
    {
        if i > 0 {
            out.push(delimiter);
        }
        write_field(out, fields[i].as_str(), delimiter);
        proof {
            assert(texts.take(i + 1).drop_last() =~= texts.take(i as int));
            assert(texts.take(i + 1).last() == texts[i as int]);
            if i == 0 {
                assert(join_fields(texts.take(0), delimiter) =~= Seq::<u8>::empty());
            }
        }
        assert(out@ =~= old(out)@ + join_fields(texts.take(i + 1), delimiter));
    }
    assert(texts.take(n as int) =~= texts);
    out.push(LF);
}

/// An ASCII byte occurs in the UTF-8 bytes of a text only where its
/// character occurs in the text.
proof fn lemma_ascii_not_in_encoding(f: Seq<char>, x: u8)
    requires
        x < 0x80,
        !f.contains(x as char),
    ensures
        !encode_utf8(f).contains(x),
    decreases f.len(),
{
    if f.len() > 0 {
        assert(!f.drop_first().contains(x as char)) by {
            if f.drop_first().contains(x as char) {
                let j = choose|j: int| 0 <= j < f.drop_first().len() && f.drop_first()[j] == x as char;
                assert(f[j + 1] == x as char);
            }
        }
        lemma_ascii_not_in_encoding(f.drop_first(), x);
        let head = encode_scalar(f[0] as u32);
        let tail = encode_utf8(f.drop_first());
        assert(encode_utf8(f) == head + tail);
        if (head + tail).contains(x) {
            let k = choose|k: int| 0 <= k < (head + tail).len() && (head + tail)[k] == x;
            if k < head.len() {
                assert(head[k] == x);
                lemma_scalar_ascii_byte(f[0], x);
                assert(f.contains(x as char));
            } else {
                assert(tail[k - head.len()] == x);
            }
        }
    }
}

/// The bytes of `s` from position `i` on start with `e`.
pub open spec fn bytes_at(s: Seq<u8>, i: int, e: Seq<u8>) -> bool {
    0 <= i && i + e.len() <= s.len() && s.subrange(i, i + e.len()) == e
}

/// Part of bytes found at a position is found a little further on.
proof fn lemma_bytes_at_part(s: Seq<u8>, i: int, e: Seq<u8>, a: int, b: int)
    requires
        bytes_at(s, i, e),
        0 <= a <= b <= e.len(),
    ensures
        bytes_at(s, i + a, e.subrange(a, b)),
{
    assert forall|k: int| 0 <= k < b - a implies s.subrange(i + a, i + b)[k] == e.subrange(
        a,
        b,
    )[k] by {
        assert(s.subrange(i + a, i + b)[k] == s[i + a + k]);
        assert(s[i + a + k] == s.subrange(i, i + e.len())[a + k]);
    }
    assert(s.subrange(i + a, i + b) =~= e.subrange(a, b));
}

/// Scanning unquoted bytes that are neither delimiter, quote nor line end
/// adds them to the field being read.
proof fn lemma_scan_plain(
    s: Seq<u8>,
    d: u8,
    eof: bool,
    i: int,
    fields: Seq<Seq<u8>>,
    acc: Seq<u8>,
    e: Seq<u8>,
)
    requires
        bytes_at(s, i, e),
        !e.contains(d),
        !e.contains(QUOTE),
        !e.contains(LF),
        !e.contains(CR),
    ensures
        scan(s, d, eof, ScanMode::Unquoted, i, fields, acc) == scan(
            s,
            d,
            eof,
            ScanMode::Unquoted,
            i + e.len(),
            fields,
            acc + e,
        ),
    decreases e.len(),
{
    if e.len() == 0 {
        assert(acc + e =~= acc);
    } else {
        let b = e[0];
        assert(s[i] == s.subrange(i, i + e.len())[0]);
        let rest = e.drop_first();
        assert(bytes_at(s, i + 1, rest)) by {
            assert(s.subrange(i + 1, i + 1 + rest.len()) =~= rest);
        }
        assert(!rest.contains(d) && !rest.contains(QUOTE) && !rest.contains(LF) && !rest.contains(
            CR,
        )) by {
            if rest.contains(d) || rest.contains(QUOTE) || rest.contains(LF) || rest.contains(CR) {
                let j = choose|j: int|
                    0 <= j < rest.len() && (rest[j] == d || rest[j] == QUOTE || rest[j] == LF
                        || rest[j] == CR);
                assert(e[j + 1] == rest[j]);
            }
        }
        assert(e.contains(b));
        lemma_scan_plain(s, d, eof, i + 1, fields, acc.push(b), rest);
        assert(acc.push(b) + rest =~= acc + e);
    }
}

/// Scanning the quote-doubled bytes of `e` inside a quoted field adds `e`
/// to the field being read.
proof fn lemma_scan_quoted_content(
    s: Seq<u8>,
    d: u8,
    eof: bool,
    i: int,
    fields: Seq<Seq<u8>>,
    acc: Seq<u8>,
    e: Seq<u8>,
)
    requires
        bytes_at(s, i, double_quotes(e)),
    ensures
        scan(s, d, eof, ScanMode::Quoted, i, fields, acc) == scan(
            s,
            d,
            eof,
            ScanMode::Quoted,
            i + double_quotes(e).len(),
            fields,
            acc + e,
        ),
    decreases e.len(),
{
    let q = double_quotes(e);
    if e.len() == 0 {
        assert(acc + e =~= acc);
    } else {
        let b = e[0];
        let rest = e.drop_first();
        let piece = if b == QUOTE {
            seq![QUOTE, QUOTE]
        } else {
            seq![b]
        };
        assert(q == piece + double_quotes(rest));
        assert(s[i] == q[0]);
        assert(bytes_at(s, i + piece.len(), double_quotes(rest))) by {
            lemma_bytes_at_part(s, i, q, piece.len() as int, q.len() as int);
            assert(q.subrange(piece.len() as int, q.len() as int) =~= double_quotes(rest));
        }
        if b == QUOTE {
            assert(s[i + 1] == q[1]);
            assert(scan(s, d, eof, ScanMode::Quoted, i, fields, acc) == scan(
                s,
                d,
                eof,
                ScanMode::AfterQuote,
                i + 1,
                fields,
                acc,
            ));
            assert(scan(s, d, eof, ScanMode::AfterQuote, i + 1, fields, acc) == scan(
                s,
                d,
                eof,
                ScanMode::Quoted,
                i + 2,
                fields,
                acc.push(QUOTE),
            ));
        } else {
            assert(scan(s, d, eof, ScanMode::Quoted, i, fields, acc) == scan(
                s,
                d,
                eof,
                ScanMode::Quoted,
                i + 1,
                fields,
                acc.push(b),
            ));
        }
        lemma_scan_quoted_content(s, d, eof, i + piece.len(), fields, acc.push(b), rest);
        assert(acc.push(b) + rest =~= acc + e);
    }
}

/// Whether a field may end at position `j` of `s`: at the end of `s`, or
/// before a delimiter, a line feed or a carriage return.
pub open spec fn field_end(s: Seq<u8>, d: u8, j: int) -> bool {
    j == s.len() || (0 <= j < s.len() && (s[j] == d || s[j] == LF || s[j] == CR))
}

/// How a record goes on after a field that ends at position `j`, where the
/// input ends or a delimiter, a line feed or a carriage return follows it.
pub open spec fn after_field(s: Seq<u8>, d: u8, eof: bool, j: int, fields: Seq<Seq<u8>>) -> Option<
    (Seq<Seq<u8>>, int),
> {
    if j >= s.len() {
        if eof {
            Some((fields, s.len() as int))
        } else {
            None
        }
    } else if s[j] == d {
        scan(s, d, eof, ScanMode::Unquoted, j + 1, fields, seq![])
    } else if s[j] == LF {
        Some((fields, j + 1))
    } else {
        scan(s, d, eof, ScanMode::AfterCr, j + 1, fields, seq![])
    }
}

/// The delimiters the writer's output reads back with.
pub open spec fn plain_delimiter(d: u8) -> bool {
    d < 0x80 && d != QUOTE && d != LF && d != CR
}

/// Scanning a written field from its first byte reads its UTF-8 bytes.
proof fn lemma_scan_field(
    s: Seq<u8>,
    d: u8,
    eof: bool,
    i: int,
    fields: Seq<Seq<u8>>,
    f: Seq<char>,
)
    requires
        plain_delimiter(d),
        bytes_at(s, i, field_bytes(f, d)),
        field_end(s, d, i + field_bytes(f, d).len()),
    ensures
        scan(s, d, eof, ScanMode::Unquoted, i, fields, seq![]) == after_field(
            s,
            d,
            eof,
            i + field_bytes(f, d).len(),
            fields.push(encode_utf8(f)),
        ),
{
    let e = encode_utf8(f);
    let j = i + field_bytes(f, d).len();
    if needs_quoting(f, d) {
        let q = double_quotes(e);
        assert(field_bytes(f, d) == seq![QUOTE] + q + seq![QUOTE]);
        assert(s[i] == field_bytes(f, d)[0]);
        assert(bytes_at(s, i + 1, q)) by {
            lemma_bytes_at_part(s, i, field_bytes(f, d), 1, 1 + q.len() as int);
            assert(field_bytes(f, d).subrange(1, 1 + q.len() as int) =~= q);
        }
        assert(s[i + 1 + q.len()] == field_bytes(f, d)[1 + q.len() as int]);
        lemma_scan_quoted_content(s, d, eof, i + 1, fields, seq![], e);
        assert(Seq::<u8>::empty() + e =~= e);
        assert(scan(s, d, eof, ScanMode::Unquoted, i, fields, seq![]) == scan(
            s,
            d,
            eof,
            ScanMode::Quoted,
            i + 1,
            fields,
            seq![],
        ));
        assert(scan(s, d, eof, ScanMode::Quoted, i + 1 + q.len(), fields, e) == scan(
            s,
            d,
            eof,
            ScanMode::AfterQuote,
            j,
            fields,
            e,
        ));
        assert(scan(s, d, eof, ScanMode::AfterQuote, j, fields, e) == after_field(
            s,
            d,
            eof,
            j,
            fields.push(e),
        ));
    } else {
        lemma_ascii_not_in_encoding(f, d);
        lemma_ascii_not_in_encoding(f, QUOTE);
        lemma_ascii_not_in_encoding(f, LF);
        lemma_ascii_not_in_encoding(f, CR);
        assert('"' == QUOTE as char);
        assert('\n' == LF as char);
        assert('\r' == CR as char);
        lemma_scan_plain(s, d, eof, i, fields, seq![], e);
        assert(Seq::<u8>::empty() + e =~= e);
        if e.len() > 0 {
            assert(e[0] != QUOTE) by {
                assert(e.contains(e[0]));
            }
        }
    }
}

/// Scanning a written record's joined fields reads the fields' UTF-8 bytes.
proof fn lemma_scan_joined(s: Seq<u8>, d: u8, eof: bool, fs: Seq<Seq<char>>)
    requires
        plain_delimiter(d),
        fs.len() >= 1,
        bytes_at(s, 0, join_fields(fs, d)),
        field_end(s, d, join_fields(fs, d).len() as int),
    ensures
        first_record(s, d, eof) == after_field(
            s,
            d,
            eof,
            join_fields(fs, d).len() as int,
            fs.map_values(|f: Seq<char>| encode_utf8(f)),
        ),
    decreases fs.len(),
{
    let enc = fs.map_values(|f: Seq<char>| encode_utf8(f));
    if fs.len() == 1 {
        lemma_scan_field(s, d, eof, 0, seq![], fs[0]);
        assert(Seq::<Seq<u8>>::empty().push(encode_utf8(fs[0])) =~= enc);
    } else {
        let init = fs.drop_last();
        let last = fs.last();
        let j0 = join_fields(init, d);
        let fb = field_bytes(last, d);
        let n0 = j0.len() as int;
        assert(join_fields(fs, d) == j0 + seq![d] + fb);
        assert(bytes_at(s, 0, j0)) by {
            assert(s.subrange(0, j0.len() as int) =~= j0) by {
                assert(s.subrange(0, j0.len() as int) =~= s.subrange(0, join_fields(fs, d).len() as int).subrange(0, j0.len() as int));
            }
        }
        assert(s[j0.len() as int] == d) by {
            assert(s[j0.len() as int] == s.subrange(0, join_fields(fs, d).len() as int)[j0.len() as int]);
        }
        lemma_scan_joined(s, d, eof, init);
        assert(bytes_at(s, n0 + 1, fb)) by {
            assert(s.subrange(n0 + 1, n0 + 1 + fb.len()) =~= fb) by {
                assert(s.subrange(n0 + 1, n0 + 1 + fb.len()) =~= s.subrange(0, join_fields(fs, d).len() as int).subrange(n0 + 1, n0 + 1 + fb.len()));
            }
        }
        let encinit = init.map_values(|f: Seq<char>| encode_utf8(f));
        lemma_scan_field(s, d, eof, n0 + 1, encinit, last);
        assert(encinit.push(encode_utf8(last)) =~= enc);
    }
}

/// Reading a written record by itself, as `read_records` does, gives back
/// exactly its fields (one or more, with a delimiter that is an ASCII byte
/// other than a quote, `\n` or `\r`).
pub proof fn lemma_csv_record_reads_back(fs: Seq<Seq<char>>, d: u8)
    requires
        fs.len() >= 1,
        plain_delimiter(d),
    ensures
        records_text(parse_all(record_bytes(fs, d), d)) == seq![fs],
{
    lemma_csv_round_trip(fs, d, Seq::empty());
    assert(record_bytes(fs, d) + Seq::<u8>::empty() =~= record_bytes(fs, d));
    let enc = fs.map_values(|f: Seq<char>| encode_utf8(f));
    assert(parse_all(Seq::<u8>::empty(), d) =~= Seq::<Seq<Seq<u8>>>::empty());
    assert(seq![enc] + Seq::<Seq<Seq<u8>>>::empty() =~= seq![enc]);
    assert(records_text(seq![enc]) =~= seq![fs]);
}

/// The text a written field reads back as is the field.
proof fn lemma_field_text_of_encoding(f: Seq<char>)
    ensures
        field_text(encode_utf8(f)) == f,
{
    encode_utf8_valid_utf8(f);
    encode_utf8_decode_utf8(f);
}

/// Reading back what `write_record` wrote: a record of one or more fields,
/// written with a delimiter that is an ASCII byte other than a quote, `\n`
/// or `\r`, reads back as the same fields, whatever follows it.
pub proof fn lemma_csv_round_trip(fs: Seq<Seq<char>>, d: u8, rest: Seq<u8>)
    requires
        fs.len() >= 1,
        plain_delimiter(d),
    ensures
        parse_all(record_bytes(fs, d) + rest, d) == seq![
            fs.map_values(|f: Seq<char>| encode_utf8(f)),
        ] + parse_all(rest, d),
        record_text(fs.map_values(|f: Seq<char>| encode_utf8(f))) == fs,
{
    let j = join_fields(fs, d);
    let s = record_bytes(fs, d) + rest;
    assert(bytes_at(s, 0, j)) by {
        assert(s.subrange(0, j.len() as int) =~= j);
    }
    assert(s[j.len() as int] == LF);
    lemma_scan_joined(s, d, true, fs);
    assert(s.skip(j.len() as int + 1) =~= rest);
    let enc = fs.map_values(|f: Seq<char>| encode_utf8(f));
    assert forall|k: int| 0 <= k < fs.len() implies #[trigger] record_text(enc)[k] == fs[k] by {
        lemma_field_text_of_encoding(fs[k]);
    }
    assert(record_text(enc) =~= fs);
}

/// A written record whose final `\n` is replaced by `\r\n` reads back as
/// its fields, whatever follows: the carriage return ends the record, also
/// after a quoted field, and no field gains it (for one or more fields and
/// a delimiter that is an ASCII byte other than a quote, `\n` or `\r`).
pub proof fn lemma_csv_round_trip_crlf(fs: Seq<Seq<char>>, d: u8, rest: Seq<u8>)
    requires
        fs.len() >= 1,
        plain_delimiter(d),
    ensures
        parse_all(join_fields(fs, d) + seq![CR, LF] + rest, d) == seq![
            fs.map_values(|f: Seq<char>| encode_utf8(f)),
        ] + parse_all(rest, d),
        records_text(seq![fs.map_values(|f: Seq<char>| encode_utf8(f))]) == seq![fs],
{
    let j = join_fields(fs, d);
    let n = j.len() as int;
    let s = j + seq![CR, LF] + rest;
    assert(bytes_at(s, 0, j)) by {
        assert(s.subrange(0, n) =~= j);
    }
    assert(s[n] == CR);
    assert(s[n + 1] == LF);
    lemma_scan_joined(s, d, true, fs);
    assert(s.skip(n + 2) =~= rest);
    lemma_csv_round_trip(fs, d, Seq::empty());
}

/// A written record whose final `\n` is replaced by a lone `\r` (not
/// followed by `\n`) reads back as its fields, whatever follows.
pub proof fn lemma_csv_round_trip_cr(fs: Seq<Seq<char>>, d: u8, rest: Seq<u8>)
    requires
        fs.len() >= 1,
        plain_delimiter(d),
        rest.len() == 0 || rest[0] != LF,
    ensures
        parse_all(join_fields(fs, d) + seq![CR] + rest, d) == seq![
            fs.map_values(|f: Seq<char>| encode_utf8(f)),
        ] + parse_all(rest, d),
{
    let j = join_fields(fs, d);
    let n = j.len() as int;
    let s = j + seq![CR] + rest;
    assert(bytes_at(s, 0, j)) by {
        assert(s.subrange(0, n) =~= j);
    }
    assert(s[n] == CR);
    if rest.len() > 0 {
        assert(s[n + 1] == rest[0]);
    }
    lemma_scan_joined(s, d, true, fs);
    assert(s.skip(n + 1) =~= rest);
}

/// A written record without its final `\n`, at the end of the input, reads
/// back as its fields; a quoted field closed at the very end reads as its
/// content, without the closing quote.
pub proof fn lemma_csv_round_trip_at_end(fs: Seq<Seq<char>>, d: u8)
    requires
        fs.len() >= 1,
        plain_delimiter(d),
        join_fields(fs, d).len() > 0,
    ensures
        parse_all(join_fields(fs, d), d) == seq![fs.map_values(|f: Seq<char>| encode_utf8(f))],
        records_text(parse_all(join_fields(fs, d), d)) == seq![fs],
{
    let j = join_fields(fs, d);
    let n = j.len() as int;
    assert(bytes_at(j, 0, j)) by {
        assert(j.subrange(0, n) =~= j);
    }
    lemma_scan_joined(j, d, true, fs);
    let enc = fs.map_values(|f: Seq<char>| encode_utf8(f));
    assert(j.skip(n) =~= Seq::<u8>::empty());
    assert(parse_all(Seq::<u8>::empty(), d) =~= Seq::<Seq<Seq<u8>>>::empty());
    assert(seq![enc] + Seq::<Seq<Seq<u8>>>::empty() =~= seq![enc]);
    lemma_csv_round_trip(fs, d, Seq::empty());
    assert(records_text(seq![enc]) =~= seq![fs]);
}

/// A field as it may stand in any input, written or not: whether it opens
/// with a quoted part, the bytes that part stands for (held in the input
/// with each quote doubled, between two quotes), and the bytes that follow
/// up to the next delimiter or line end.
pub open spec fn token_bytes(tk: (bool, Seq<u8>, Seq<u8>)) -> Seq<u8> {
    if tk.0 {
        seq![QUOTE] + double_quotes(tk.1) + seq![QUOTE] + tk.2
    } else {
        tk.2
    }
}

/// What a field of the shape `tk` means: its quoted part's bytes, if it
/// has one, followed by the bytes after it.
pub open spec fn token_value(tk: (bool, Seq<u8>, Seq<u8>)) -> Seq<u8> {
    if tk.0 {
        tk.1 + tk.2
    } else {
        tk.2
    }
}

/// Whether the bytes after a field's quoted part (or the whole field, where
/// it has none) hold no delimiter and no line end, and do not begin with a
/// quote.
pub open spec fn token_ok(tk: (bool, Seq<u8>, Seq<u8>), d: u8) -> bool {
    !tk.2.contains(d) && !tk.2.contains(LF) && !tk.2.contains(CR) && (tk.2.len() == 0 || tk.2[0]
        != QUOTE)
}

/// The bytes of the fields `tks` separated by `d`.
pub open spec fn join_tokens(tks: Seq<(bool, Seq<u8>, Seq<u8>)>, d: u8) -> Seq<u8>
    decreases tks.len(),
{
    if tks.len() == 0 {
        seq![]
    } else if tks.len() == 1 {
        token_bytes(tks[0])
    } else {
        join_tokens(tks.drop_last(), d) + seq![d] + token_bytes(tks.last())
    }
}

/// A delimiter that is neither a quote nor a line end byte.
pub open spec fn separator_ok(d: u8) -> bool {
    d != QUOTE && d != LF && d != CR
}

/// The ways a record's line may end: `\n`, `\r\n`, a lone `\r` that no `\n`
/// follows, or the end of a non-empty input.
pub open spec fn line_end_ok(line: Seq<u8>, end: Seq<u8>, rest: Seq<u8>) -> bool {
    end == seq![LF] || end == seq![CR, LF] || (end == seq![CR] && (rest.len() == 0 || rest[0]
        != LF)) || (end.len() == 0 && rest.len() == 0 && line.len() > 0)
}

/// Unquoted bytes without delimiter or line end join the field being read,
/// quotes too, unless a quote opens the field.
proof fn lemma_scan_data(
    s: Seq<u8>,
    d: u8,
    eof: bool,
    i: int,
    fields: Seq<Seq<u8>>,
    acc: Seq<u8>,
    e: Seq<u8>,
)
    requires
        bytes_at(s, i, e),
        !e.contains(d),
        !e.contains(LF),
        !e.contains(CR),
        acc.len() > 0 || e.len() == 0 || e[0] != QUOTE,
    ensures
        scan(s, d, eof, ScanMode::Unquoted, i, fields, acc) == scan(
            s,
            d,
            eof,
            ScanMode::Unquoted,
            i + e.len(),
            fields,
            acc + e,
        ),
    decreases e.len(),
{
    if e.len() == 0 {
        assert(acc + e =~= acc);
    } else {
        let b = e[0];
        assert(s[i] == s.subrange(i, i + e.len())[0]);
        let rest = e.drop_first();
        assert(bytes_at(s, i + 1, rest)) by {
            assert(s.subrange(i + 1, i + 1 + rest.len()) =~= rest);
        }
        assert(!rest.contains(d) && !rest.contains(LF) && !rest.contains(CR)) by {
            if rest.contains(d) || rest.contains(LF) || rest.contains(CR) {
                let j = choose|j: int|
                    0 <= j < rest.len() && (rest[j] == d || rest[j] == LF || rest[j] == CR);
                assert(e[j + 1] == rest[j]);
            }
        }
        assert(e.contains(b));
        assert(scan(s, d, eof, ScanMode::Unquoted, i, fields, acc) == scan(
            s,
            d,
            eof,
            ScanMode::Unquoted,
            i + 1,
            fields,
            acc.push(b),
        ));
        lemma_scan_data(s, d, eof, i + 1, fields, acc.push(b), rest);
        assert(acc.push(b) + rest =~= acc + e);
    }
}

/// Scanning a field of the shape `tk` from its first byte reads its value.
proof fn lemma_scan_token(
    s: Seq<u8>,
    d: u8,
    eof: bool,
    i: int,
    fields: Seq<Seq<u8>>,
    tk: (bool, Seq<u8>, Seq<u8>),
)
    requires
        separator_ok(d),
        token_ok(tk, d),
        bytes_at(s, i, token_bytes(tk)),
        field_end(s, d, i + token_bytes(tk).len()),
    ensures
        scan(s, d, eof, ScanMode::Unquoted, i, fields, seq![]) == after_field(
            s,
            d,
            eof,
            i + token_bytes(tk).len(),
            fields.push(token_value(tk)),
        ),
{
    let tb = token_bytes(tk);
    let j = i + tb.len();
    let t = tk.2;
    let v = token_value(tk);
    if tk.0 {
        let q = double_quotes(tk.1);
        let k = i + 2 + q.len();
        assert(s[i] == tb[0]);
        assert(bytes_at(s, i + 1, q)) by {
            lemma_bytes_at_part(s, i, tb, 1, 1 + q.len() as int);
            assert(tb.subrange(1, 1 + q.len() as int) =~= q);
        }
        assert(s[i + 1 + q.len()] == tb[1 + q.len() as int]);
        lemma_scan_quoted_content(s, d, eof, i + 1, fields, seq![], tk.1);
        assert(Seq::<u8>::empty() + tk.1 =~= tk.1);
        assert(scan(s, d, eof, ScanMode::Unquoted, i, fields, seq![]) == scan(
            s,
            d,
            eof,
            ScanMode::AfterQuote,
            k,
            fields,
            tk.1,
        ));
        if t.len() == 0 {
            assert(v =~= tk.1);
            assert(j == k);
            assert(scan(s, d, eof, ScanMode::AfterQuote, k, fields, tk.1) == after_field(
                s,
                d,
                eof,
                j,
                fields.push(v),
            ));
        } else {
            assert(s[k] == tb[2 + q.len() as int]);
            assert(t.contains(t[0]));
            assert(scan(s, d, eof, ScanMode::AfterQuote, k, fields, tk.1) == scan(
                s,
                d,
                eof,
                ScanMode::Unquoted,
                k + 1,
                fields,
                tk.1.push(t[0]),
            ));
            assert(bytes_at(s, k + 1, t.drop_first())) by {
                lemma_bytes_at_part(s, i, tb, 3 + q.len() as int, tb.len() as int);
                assert(tb.subrange(3 + q.len() as int, tb.len() as int) =~= t.drop_first());
            }
            assert(!t.drop_first().contains(d) && !t.drop_first().contains(LF)
                && !t.drop_first().contains(CR)) by {
                if t.drop_first().contains(d) || t.drop_first().contains(LF)
                    || t.drop_first().contains(CR) {
                    let m = choose|m: int|
                        0 <= m < t.drop_first().len() && (t.drop_first()[m] == d
                            || t.drop_first()[m] == LF || t.drop_first()[m] == CR);
                    assert(t[m + 1] == t.drop_first()[m]);
                }
            }
            lemma_scan_data(s, d, eof, k + 1, fields, tk.1.push(t[0]), t.drop_first());
            assert(tk.1.push(t[0]) + t.drop_first() =~= v);
            assert(k + 1 + t.drop_first().len() == j);
        }
    } else {
        assert(tb == t);
        lemma_scan_data(s, d, eof, i, fields, seq![], t);
        assert(Seq::<u8>::empty() + t =~= t);
    }
    if !tk.0 || t.len() > 0 {
        assert(scan(s, d, eof, ScanMode::Unquoted, j, fields, v) == after_field(
            s,
            d,
            eof,
            j,
            fields.push(v),
        ));
    }
}

/// Scanning fields of the shapes `tks`, separated by `d`, reads their values.
proof fn lemma_scan_tokens(s: Seq<u8>, d: u8, eof: bool, tks: Seq<(bool, Seq<u8>, Seq<u8>)>)
    requires
        separator_ok(d),
        tks.len() >= 1,
        forall|k: int| 0 <= k < tks.len() ==> token_ok(#[trigger] tks[k], d),
        bytes_at(s, 0, join_tokens(tks, d)),
        field_end(s, d, join_tokens(tks, d).len() as int),
    ensures
        first_record(s, d, eof) == after_field(
            s,
            d,
            eof,
            join_tokens(tks, d).len() as int,
            tks.map_values(|tk: (bool, Seq<u8>, Seq<u8>)| token_value(tk)),
        ),
    decreases tks.len(),
{
    let vals = tks.map_values(|tk: (bool, Seq<u8>, Seq<u8>)| token_value(tk));
    let jt = join_tokens(tks, d);
    if tks.len() == 1 {
        lemma_scan_token(s, d, eof, 0, seq![], tks[0]);
        assert(Seq::<Seq<u8>>::empty().push(token_value(tks[0])) =~= vals);
    } else {
        let init = tks.drop_last();
        let last = tks.last();
        let j0 = join_tokens(init, d);
        let tb = token_bytes(last);
        let n0 = j0.len() as int;
        assert(jt == j0 + seq![d] + tb);
        assert(bytes_at(s, 0, j0)) by {
            assert(s.subrange(0, n0) =~= s.subrange(0, jt.len() as int).subrange(0, n0));
            assert(jt.subrange(0, n0) =~= j0);
        }
        assert(s[n0] == d) by {
            assert(s[n0] == s.subrange(0, jt.len() as int)[n0]);
        }
        assert(forall|k: int| 0 <= k < init.len() ==> token_ok(#[trigger] init[k], d)) by {
            assert forall|k: int| 0 <= k < init.len() implies token_ok(#[trigger] init[k], d) by {
                assert(init[k] == tks[k]);
            }
        }
        lemma_scan_tokens(s, d, eof, init);
        assert(bytes_at(s, n0 + 1, tb)) by {
            assert(s.subrange(n0 + 1, n0 + 1 + tb.len()) =~= s.subrange(
                0,
                jt.len() as int,
            ).subrange(n0 + 1, n0 + 1 + tb.len()));
            assert(jt.subrange(n0 + 1, n0 + 1 + tb.len()) =~= tb);
        }
        assert(token_ok(last, d)) by {
            assert(last == tks[tks.len() - 1]);
        }
        let valsinit = init.map_values(|tk: (bool, Seq<u8>, Seq<u8>)| token_value(tk));
        lemma_scan_token(s, d, eof, n0 + 1, valsinit, last);
        assert(valsinit.push(token_value(last)) =~= vals);
    }
}

/// How any line reads, written by the writer or not: fields separated by
/// the delimiter, each read as its bytes, where a field that opens with a
/// quote reads as the bytes up to its closing quote, each doubled quote
/// taken as one, followed by whatever stands after that quote up to the
/// next delimiter or line end. The line ends at `\n`, `\r\n`, a lone `\r`,
/// or the end of the input, and the records of what follows come after it.
pub proof fn lemma_csv_line_reads(
    tks: Seq<(bool, Seq<u8>, Seq<u8>)>,
    d: u8,
    end: Seq<u8>,
    rest: Seq<u8>,
)
    requires
        separator_ok(d),
        tks.len() >= 1,
        forall|k: int| 0 <= k < tks.len() ==> token_ok(#[trigger] tks[k], d),
        line_end_ok(join_tokens(tks, d), end, rest),
    ensures
        parse_all(join_tokens(tks, d) + end + rest, d) == seq![
            tks.map_values(|tk: (bool, Seq<u8>, Seq<u8>)| token_value(tk)),
        ] + parse_all(rest, d),
{
    let jt = join_tokens(tks, d);
    let n = jt.len() as int;
    let s = jt + end + rest;
    let vals = tks.map_values(|tk: (bool, Seq<u8>, Seq<u8>)| token_value(tk));
    assert(bytes_at(s, 0, jt)) by {
        assert(s.subrange(0, n) =~= jt);
    }
    if end.len() > 0 {
        assert(s[n] == end[0]);
    }
    if end.len() > 1 {
        assert(s[n + 1] == end[1]);
    }
    if end == seq![CR] && rest.len() > 0 {
        assert(s[n + 1] == rest[0]);
    }
    lemma_scan_tokens(s, d, true, tks);
    assert(s.skip(n + end.len()) =~= rest);
    assert(s.len() > 0);
    if end.len() == 0 {
        assert(parse_all(rest, d) =~= Seq::<Seq<Seq<u8>>>::empty());
        assert(seq![vals] + parse_all(rest, d) =~= seq![vals]);
        assert(s.skip(n) =~= Seq::<u8>::empty());
    }
}

/// A quoted field that is still open at the end of the input reads as the
/// bytes after its opening quote, each doubled quote taken as one, and ends
/// the last record; `tks` are the fields before it on its line, if any.
pub proof fn lemma_csv_open_quote_at_end(
    tks: Seq<(bool, Seq<u8>, Seq<u8>)>,
    d: u8,
    q: Seq<u8>,
)
    requires
        separator_ok(d),
        forall|k: int| 0 <= k < tks.len() ==> token_ok(#[trigger] tks[k], d),
    ensures
        parse_all(
            (if tks.len() == 0 {
                Seq::<u8>::empty()
            } else {
                join_tokens(tks, d) + seq![d]
            }) + seq![QUOTE] + double_quotes(q),
            d,
        ) == seq![tks.map_values(|tk: (bool, Seq<u8>, Seq<u8>)| token_value(tk)).push(q)],
{
    let pre = if tks.len() == 0 {
        Seq::<u8>::empty()
    } else {
        join_tokens(tks, d) + seq![d]
    };
    let dq = double_quotes(q);
    let s = pre + seq![QUOTE] + dq;
    let p = pre.len() as int;
    let vals = tks.map_values(|tk: (bool, Seq<u8>, Seq<u8>)| token_value(tk));
    assert(s[p] == QUOTE);
    assert(bytes_at(s, p + 1, dq)) by {
        assert(s.subrange(p + 1, p + 1 + dq.len()) =~= dq);
    }
    lemma_scan_quoted_content(s, d, true, p + 1, vals, seq![], q);
    assert(Seq::<u8>::empty() + q =~= q);
    assert(p + 1 + dq.len() == s.len());
    if tks.len() == 0 {
        assert(vals =~= Seq::<Seq<u8>>::empty());
        assert(first_record(s, d, true) == scan(s, d, true, ScanMode::Quoted, 1, vals, seq![]));
    } else {
        let jt = join_tokens(tks, d);
        let n = jt.len() as int;
        assert(bytes_at(s, 0, jt)) by {
            assert(s.subrange(0, n) =~= jt);
        }
        assert(s[n] == d);
        lemma_scan_tokens(s, d, true, tks);
        assert(first_record(s, d, true) == scan(s, d, true, ScanMode::Unquoted, p, vals, seq![]));
    }
    assert(s.skip(s.len() as int) =~= Seq::<u8>::empty());
    assert(parse_all(Seq::<u8>::empty(), d) =~= Seq::<Seq<Seq<u8>>>::empty());
    assert(seq![vals.push(q)] + Seq::<Seq<Seq<u8>>>::empty() =~= seq![vals.push(q)]);
}

} // verus!
