//! The TSV dialect: a tab always ends a field and a line end always ends a
//! record, so a record is exactly one line. A backslash, tab, newline or
//! carriage return inside a field is written as `\\`, `\t`, `\n` or `\r`
//! and read back from those escapes; a backslash before anything else, or
//! at the very end, stays a backslash.
use vstd::prelude::*;
use vstd::std_specs::iter::IteratorSpec;
use vstd::utf8::*;
use crate::text::{
    append_bytes, contains_char, count, lemma_count_absent, lemma_count_concat,
    lemma_count_in_encoding, lemma_encode_ascii_char, lemma_encode_concat, string_push,
};

verus! {

broadcast use vstd::string::group_string_axioms;

/// What `escape` writes for one character.
pub open spec fn escape_char(c: char) -> Seq<char> {
    if c == '\\' {
        seq!['\\', '\\']
    } else if c == '\t' {
        seq!['\\', 't']
    } else if c == '\n' {
        seq!['\\', 'n']
    } else if c == '\r' {
        seq!['\\', 'r']
    } else {
        seq![c]
    }
}

/// A field's text with each backslash, tab, newline and carriage return
/// replaced by its escape.
pub open spec fn escape(s: Seq<char>) -> Seq<char>
    decreases s.len(),
{
    if s.len() == 0 {
        seq![]
    } else {
        escape_char(s[0]) + escape(s.drop_first())
    }
}

/// What a backslash followed by `c` reads back as.
pub open spec fn unescape_pair(c: char) -> Seq<char> {
    if c == '\\' {
        seq!['\\']
    } else if c == 't' {
        seq!['\t']
    } else if c == 'n' {
        seq!['\n']
    } else if c == 'r' {
        seq!['\r']
    } else {
        seq!['\\', c]
    }
}

/// An escaped field's text read back: each backslash and the character
/// after it as `unescape_pair` says; a backslash at the very end stays.
pub open spec fn unescape(s: Seq<char>) -> Seq<char>
    decreases s.len(),
{
    if s.len() == 0 {
        seq![]
    } else if s[0] != '\\' {
        seq![s[0]] + unescape(s.drop_first())
    } else if s.len() == 1 {
        seq!['\\']
    } else {
        unescape_pair(s[1]) + unescape(s.skip(2))
    }
}

/// Whether the text holds a character that `escape` replaces.
pub open spec fn has_escapable(s: Seq<char>) -> bool {
    s.contains('\\') || s.contains('\t') || s.contains('\n') || s.contains('\r')
}

/// Text without a backslash, tab, newline or carriage return is its own
/// escape.
pub proof fn lemma_escape_plain(s: Seq<char>)
    requires
        !has_escapable(s),
    ensures
        escape(s) == s,
    decreases s.len(),
{
    if s.len() > 0 {
        assert(!has_escapable(s.drop_first())) by {
            if has_escapable(s.drop_first()) {
                let j = choose|j: int|
                    0 <= j < s.drop_first().len() && (s.drop_first()[j] == '\\' || s.drop_first()[j]
                        == '\t' || s.drop_first()[j] == '\n' || s.drop_first()[j] == '\r');
                assert(s[j + 1] == s.drop_first()[j]);
            }
        }
        assert(s.contains(s[0]));
        lemma_escape_plain(s.drop_first());
        assert(seq![s[0]] + s.drop_first() =~= s);
    }
}

/// Text without a backslash reads back as itself.
pub proof fn lemma_unescape_plain(s: Seq<char>)
    requires
        !s.contains('\\'),
    ensures
        unescape(s) == s,
    decreases s.len(),
{
    if s.len() > 0 {
        assert(!s.drop_first().contains('\\')) by {
            if s.drop_first().contains('\\') {
                let j = choose|j: int| 0 <= j < s.drop_first().len() && s.drop_first()[j] == '\\';
                assert(s[j + 1] == '\\');
            }
        }
        assert(s.contains(s[0]));
        lemma_unescape_plain(s.drop_first());
        assert(seq![s[0]] + s.drop_first() =~= s);
    }
}

/// Escapes a field for the TSV side.
pub fn escape_field(field: &str) -> (escaped: String)
    ensures
        escaped@ == escape(field@),
{
    if !(contains_char(field, '\\') || contains_char(field, '\t') || contains_char(field, '\n')
        || contains_char(field, '\r')) {
        proof {
            lemma_escape_plain(field@);
        }
        return field.to_string();
    }
    let mut out = String::new();
    let mut it = field.chars();
    let ghost all = field@;
    let ghost mut i: int = 0;
    proof {
        assert(all.skip(0) =~= all);
        assert(out@ + escape(all.skip(0)) =~= escape(all));
    }
    loop
        invariant
            it.remaining() == all.skip(i),
            0 <= i <= all.len(),
            all == field@,
            out@ + escape(all.skip(i)) == escape(all),
        decreases all.len() - i,
    {
        match it.next() {
            Some(c) => {
                let ghost rest = all.skip(i);
                proof {
                    assert(rest[0] == c);
                    assert(rest.drop_first() =~= all.skip(i + 1));
                    assert(escape(rest) == escape_char(c) + escape(all.skip(i + 1)));
                }
                let ghost before = out@;
                if c == '\\' {
                    string_push(&mut out, '\\');
                    string_push(&mut out, '\\');
                } else if c == '\t' {
                    string_push(&mut out, '\\');
                    string_push(&mut out, 't');
                } else if c == '\n' {
                    string_push(&mut out, '\\');
                    string_push(&mut out, 'n');
                } else if c == '\r' {
                    string_push(&mut out, '\\');
                    string_push(&mut out, 'r');
                } else {
                    string_push(&mut out, c);
                }
                proof {
                    assert(out@ =~= before + escape_char(c));
                    assert(out@ + escape(all.skip(i + 1)) =~= before + escape(rest));
                    i = i + 1;
                }
            },
            None => {
                proof {
                    assert(all.skip(i).len() == 0);
                    assert(escape(all.skip(i)) =~= Seq::<char>::empty());
                    assert(out@ + Seq::<char>::empty() =~= out@);
                }
                return out;
            },
        }
    }
}

/// Reads an escaped TSV field back.
pub fn unescape_field(field: &str) -> (text: String)
    ensures
        text@ == unescape(field@),
{
    if !contains_char(field, '\\') {
        proof {
            lemma_unescape_plain(field@);
        }
        return field.to_string();
    }
    let mut out = String::new();
    let mut it = field.chars();
    let ghost all = field@;
    let ghost mut i: int = 0;
    proof {
        assert(all.skip(0) =~= all);
        assert(out@ + unescape(all.skip(0)) =~= unescape(all));
    }
    loop
        invariant
            it.remaining() == all.skip(i),
            0 <= i <= all.len(),
            all == field@,
            out@ + unescape(all.skip(i)) == unescape(all),
        decreases all.len() - i,
    {
        let ghost rest = all.skip(i);
        let ghost before = out@;
        match it.next() {
            Some(c) => {
                proof {
                    assert(rest[0] == c);
                    assert(rest.drop_first() =~= all.skip(i + 1));
                }
                if c != '\\' {
                    string_push(&mut out, c);
                    proof {
                        assert(unescape(rest) == seq![c] + unescape(all.skip(i + 1)));
                        assert(out@ + unescape(all.skip(i + 1)) =~= before + unescape(rest));
                        i = i + 1;
                    }
                } else {
                    match it.next() {
                        Some(n) => {
                            proof {
                                assert(rest.len() >= 2);
                                assert(all.skip(i + 1)[0] == n);
                                assert(rest[1] == n);
                                assert(rest.skip(2) =~= all.skip(i + 2));
                                assert(unescape(rest) == unescape_pair(n) + unescape(
                                    all.skip(i + 2),
                                ));
                            }
                            if n == '\\' {
                                string_push(&mut out, '\\');
                            } else if n == 't' {
                                string_push(&mut out, '\t');
                            } else if n == 'n' {
                                string_push(&mut out, '\n');
                            } else if n == 'r' {
                                string_push(&mut out, '\r');
                            } else {
                                string_push(&mut out, '\\');
                                string_push(&mut out, n);
                            }
                            proof {
                                assert(out@ =~= before + unescape_pair(n));
                                assert(out@ + unescape(all.skip(i + 2)) =~= before + unescape(
                                    rest,
                                ));
                                i = i + 2;
                            }
                        },
                        None => {
                            string_push(&mut out, '\\');
                            proof {
                                assert(rest.len() == 1);
                                assert(unescape(rest) =~= seq!['\\']);
                                assert(out@ =~= unescape(all));
                            }
                            return out;
                        },
                    }
                }
            },
            None => {
                proof {
                    assert(rest.len() == 0);
                    assert(unescape(rest) =~= Seq::<char>::empty());
                    assert(out@ + Seq::<char>::empty() =~= out@);
                }
                return out;
            },
        }
    }
}

/// Reading back what `escape` wrote gives the text that was escaped.
pub proof fn lemma_escape_round_trip(s: Seq<char>)
    ensures
        unescape(escape(s)) == s,
    decreases s.len(),
{
    if s.len() > 0 {
        let c = s[0];
        let rest = s.drop_first();
        lemma_escape_round_trip(rest);
        let e = escape_char(c) + escape(rest);
        assert(escape(s) == e);
        if c == '\\' || c == '\t' || c == '\n' || c == '\r' {
            assert(e[0] == '\\');
            assert(e.skip(2) =~= escape(rest));
        } else {
            assert(e.drop_first() =~= escape(rest));
        }
        assert(seq![c] + rest =~= s);
    }
}

/// The texts joined with a tab between each two.
pub open spec fn join_tabs(parts: Seq<Seq<char>>) -> Seq<char>
    decreases parts.len(),
{
    if parts.len() == 0 {
        seq![]
    } else if parts.len() == 1 {
        parts[0]
    } else {
        join_tabs(parts.drop_last()) + seq!['\t'] + parts.last()
    }
}

/// The line the writer writes for a record: the escaped fields joined by
/// tabs, and a `\n`.
pub open spec fn tsv_line(fields: Seq<Seq<char>>) -> Seq<char> {
    join_tabs(fields.map_values(|f: Seq<char>| escape(f))) + seq!['\n']
}

/// Appends one TSV record to `out`: the fields, escaped, separated by tabs,
/// and a `\n`, as UTF-8.
pub fn write_record(out: &mut Vec<u8>, fields: &[String])
    ensures
        final(out)@ == old(out)@ + encode_utf8(tsv_line(fields.deep_view())),
        ({
            let added = final(out)@.skip(old(out)@.len() as int);
            &&& count(added, 9u8) == (if fields@.len() == 0 {
                0
            } else {
                fields@.len() - 1
            })
            &&& count(added, 10u8) == 1
            &&& added.last() == 10u8
        }),
{
    let n = fields.len();
    let ghost escs = fields.deep_view().map_values(|f: Seq<char>| escape(f));
    proof {
        assert(escs.take(0) =~= Seq::<Seq<char>>::empty());
        assert(old(out)@ + encode_utf8(Seq::<char>::empty()) =~= old(out)@);
    }
    for i in 0..n
        invariant
            n == fields@.len(),
            escs == fields.deep_view().map_values(|f: Seq<char>| escape(f)),
            out@ == old(out)@ + encode_utf8(join_tabs(escs.take(i as int))),
    {
        let ghost prev = join_tabs(escs.take(i as int));
        if i > 0 {
            out.push(9u8);
        }
        let escaped = escape_field(fields[i].as_str());
        append_bytes(out, escaped.as_str().as_bytes());
        proof {
            assert(escaped@ == escs[i as int]);
            assert(escs.take(i + 1).drop_last() =~= escs.take(i as int));
            assert(escs.take(i + 1).last() == escs[i as int]);
            if i == 0 {
                assert(join_tabs(escs.take(1)) == escs[0]);
                assert(encode_utf8(Seq::<char>::empty()) =~= Seq::<u8>::empty());
                assert(out@ =~= old(out)@ + encode_utf8(escs[0]));
            } else {
                lemma_encode_ascii_char('\t');
                lemma_encode_concat(prev, seq!['\t']);
                lemma_encode_concat(prev + seq!['\t'], escs[i as int]);
                assert(out@ =~= old(out)@ + encode_utf8(prev) + seq![9u8] + encode_utf8(
                    escs[i as int],
                ));
            }
        }
    }
    out.push(10u8);
    proof {
        assert(escs.take(n as int) =~= escs);
        let j = join_tabs(escs);
        lemma_encode_ascii_char('\n');
        lemma_encode_concat(j, seq!['\n']);
        assert(out@ =~= old(out)@ + encode_utf8(tsv_line(fields.deep_view())));
        let added = out@.skip(old(out)@.len() as int);
        assert(added =~= encode_utf8(tsv_line(fields.deep_view())));
        lemma_tsv_line_counts(fields.deep_view());
        lemma_count_in_encoding(tsv_line(fields.deep_view()), 9u8);
        lemma_count_in_encoding(tsv_line(fields.deep_view()), 10u8);
        assert(9u8 as char == '\t');
        assert(10u8 as char == '\n');
        assert(added =~= encode_utf8(j) + seq![10u8]);
    }
}

/// A line without its `\n`, and then without a `\r` before it.
pub open spec fn trim_line_end(s: Seq<char>) -> Seq<char> {
    let s1 = if s.len() > 0 && s.last() == '\n' {
        s.drop_last()
    } else {
        s
    };
    if s1.len() > 0 && s1.last() == '\r' {
        s1.drop_last()
    } else {
        s1
    }
}

/// The pieces of a text between its tabs: one more piece than tabs.
pub open spec fn split_tabs(s: Seq<char>) -> Seq<Seq<char>>
    decreases s.len(),
{
    if s.len() == 0 {
        seq![seq![]]
    } else {
        let init = split_tabs(s.drop_last());
        if s.last() == '\t' {
            init.push(seq![])
        } else {
            init.update(init.len() - 1, init.last().push(s.last()))
        }
    }
}

/// The fields of a TSV line: the pieces between the tabs of the line
/// without its line end, each read back from its escapes.
pub open spec fn tsv_line_fields(line: Seq<char>) -> Seq<Seq<char>> {
    split_tabs(trim_line_end(line)).map_values(|f: Seq<char>| unescape(f))
}

/// Any text has at least one piece between its tabs.
pub proof fn lemma_split_tabs_nonempty(s: Seq<char>)
    ensures
        split_tabs(s).len() >= 1,
    decreases s.len(),
{
    if s.len() > 0 {
        lemma_split_tabs_nonempty(s.drop_last());
    }
}

/// Splits one TSV line, with or without its line end, into its fields.
pub fn parse_tsv_line(line: &str) -> (fields: Vec<String>)
    ensures
        fields.deep_view() == tsv_line_fields(line@),
{
    let ghost all = line@;
    let n = line.unicode_len();
    let mut m = n;
    if m > 0 && line.get_char(m - 1) == '\n' {
        m = m - 1;
    }
    let ghost m1 = m;
    if m > 0 && line.get_char(m - 1) == '\r' {
        m = m - 1;
    }
    proof {
        let s1 = if all.len() > 0 && all.last() == '\n' {
            all.drop_last()
        } else {
            all
        };
        assert(s1 =~= all.take(m1 as int));
        assert(trim_line_end(all) =~= all.take(m as int));
    }
    let mut pieces: Vec<String> = Vec::new();
    let mut cur = String::new();
    let mut it = line.chars();
    let mut k: usize = 0;
    proof {
        assert(all.take(0) =~= Seq::<char>::empty());
        assert(all.skip(0) =~= all);
        assert(pieces.deep_view().push(cur@) =~= split_tabs(all.take(0)));
    }
    while k < m
        invariant
            all == line@,
            m <= n,
            n == all.len(),
            k <= m,
            it.remaining() == all.skip(k as int),
            pieces.deep_view().push(cur@) == split_tabs(all.take(k as int)),
        decreases m - k,
    {
        let ghost rest = all.skip(k as int);
        let ghost before = pieces.deep_view();
        let ghost cur0 = cur@;
        let c = match it.next() {
            Some(c) => c,
            None => {
                proof {
                    assert(rest.len() > 0);
                }
                return Vec::new();
            },
        };
        proof {
            assert(rest[0] == c);
            assert(all[k as int] == c);
            assert(rest.drop_first() =~= all.skip(k + 1));
            assert(all.take(k + 1).drop_last() =~= all.take(k as int));
            assert(all.take(k + 1).last() == c);
            lemma_split_tabs_nonempty(all.take(k as int));
        }
        if c == '\t' {
            let mut done = String::new();
            std::mem::swap(&mut done, &mut cur);
            pieces.push(done);
            proof {
                assert(pieces.deep_view() =~= before.push(cur0));
                assert(pieces.deep_view().push(cur@) =~= split_tabs(all.take(k + 1)));
            }
        } else {
            string_push(&mut cur, c);
            proof {
                assert(pieces.deep_view() == before);
                assert(pieces.deep_view().push(cur@) =~= split_tabs(all.take(k + 1)));
            }
        }
        k = k + 1;
    }
    let ghost before = pieces.deep_view();
    pieces.push(cur);
    let ghost raw = split_tabs(all.take(m as int));
    proof {
        assert(pieces.deep_view() =~= raw);
    }
    let mut fields: Vec<String> = Vec::new();
    let np = pieces.len();
    for j in 0..np
        invariant
            np == pieces@.len(),
            pieces.deep_view() == raw,
            fields.deep_view() == raw.map_values(|f: Seq<char>| unescape(f)).take(j as int),
    {
        let text = unescape_field(pieces[j].as_str());
        let ghost prev = fields.deep_view();
        fields.push(text);
        proof {
            assert(pieces@[j as int]@ == raw[j as int]);
            assert(fields.deep_view() =~= prev.push(text@));
            assert(fields.deep_view() =~= raw.map_values(|f: Seq<char>| unescape(f)).take(j + 1));
        }
    }
    proof {
        assert(raw.map_values(|f: Seq<char>| unescape(f)).take(np as int) =~= raw.map_values(
            |f: Seq<char>| unescape(f),
        ));
    }
    fields
}

/// Escaped text holds no tab, newline or carriage return.
pub proof fn lemma_escape_no_separators(s: Seq<char>)
    ensures
        !escape(s).contains('\t'),
        !escape(s).contains('\n'),
        !escape(s).contains('\r'),
    decreases s.len(),
{
    if s.len() > 0 {
        lemma_escape_no_separators(s.drop_first());
        let h = escape_char(s[0]);
        let t = escape(s.drop_first());
        assert(escape(s) == h + t);
        assert forall|x: char| x == '\t' || x == '\n' || x == '\r' implies !(h + t).contains(x) by {
            if (h + t).contains(x) {
                let k = choose|k: int| 0 <= k < (h + t).len() && (h + t)[k] == x;
                if k < h.len() {
                    assert(h[k] == x);
                } else {
                    assert(t[k - h.len()] == x);
                }
            }
        }
    }
}

/// A character that no part holds, other than a tab, is not in the parts
/// joined by tabs.
proof fn lemma_join_tabs_lacks(parts: Seq<Seq<char>>, x: char)
    requires
        x != '\t',
        forall|k: int| 0 <= k < parts.len() ==> !(#[trigger] parts[k]).contains(x),
    ensures
        !join_tabs(parts).contains(x),
    decreases parts.len(),
{
    if parts.len() > 1 {
        let init = parts.drop_last();
        assert forall|k: int| 0 <= k < init.len() implies !(#[trigger] init[k]).contains(x) by {
            assert(init[k] == parts[k]);
        }
        lemma_join_tabs_lacks(init, x);
        let a = join_tabs(init);
        let b = parts.last();
        assert(!b.contains(x)) by {
            assert(b == parts[parts.len() - 1]);
        }
        let j = a + seq!['\t'] + b;
        assert(join_tabs(parts) == j);
        if j.contains(x) {
            let k = choose|k: int| 0 <= k < j.len() && j[k] == x;
            if k < a.len() {
                assert(a[k] == x);
            } else if k == a.len() {
            } else {
                assert(b[k - a.len() - 1] == x);
            }
        }
    } else if parts.len() == 1 {
        assert(!parts[0].contains(x));
    }
}

/// Appending tab-free text to a text extends its last piece.
proof fn lemma_split_tabs_append(x: Seq<char>, b: Seq<char>)
    requires
        !b.contains('\t'),
    ensures
        split_tabs(x + b) == split_tabs(x).update(
            split_tabs(x).len() - 1,
            split_tabs(x).last() + b,
        ),
    decreases b.len(),
{
    lemma_split_tabs_nonempty(x);
    if b.len() == 0 {
        assert(x + b =~= x);
        assert(split_tabs(x).last() + b =~= split_tabs(x).last());
        assert(split_tabs(x).update(split_tabs(x).len() - 1, split_tabs(x).last())
            =~= split_tabs(x));
    } else {
        let b0 = b.drop_last();
        assert(!b0.contains('\t')) by {
            if b0.contains('\t') {
                let k = choose|k: int| 0 <= k < b0.len() && b0[k] == '\t';
                assert(b[k] == '\t');
            }
        }
        lemma_split_tabs_append(x, b0);
        let c = b.last();
        assert(b.contains(c));
        assert((x + b).drop_last() =~= x + b0);
        assert((x + b).last() == c);
        assert(split_tabs(x).last() + b0 + seq![c] =~= split_tabs(x).last() + b);
        let sx = split_tabs(x);
        let init = split_tabs(x + b0);
        assert(c != '\t');
        assert(init.len() == sx.len());
        assert(init.last() == sx.last() + b0);
        assert(split_tabs(x + b) == init.update(init.len() - 1, init.last().push(c)));
        assert((sx.last() + b0).push(c) =~= sx.last() + b);
        assert(split_tabs(x + b) =~= split_tabs(x).update(
            split_tabs(x).len() - 1,
            split_tabs(x).last() + b,
        ));
    }
}

/// Splitting tab-free parts joined by tabs gives back the parts.
proof fn lemma_split_join(parts: Seq<Seq<char>>)
    requires
        parts.len() >= 1,
        forall|k: int| 0 <= k < parts.len() ==> !(#[trigger] parts[k]).contains('\t'),
    ensures
        split_tabs(join_tabs(parts)) == parts,
    decreases parts.len(),
{
    if parts.len() == 1 {
        lemma_split_tabs_append(Seq::empty(), parts[0]);
        assert(Seq::<char>::empty() + parts[0] =~= parts[0]);
        assert(split_tabs(Seq::<char>::empty()) =~= seq![Seq::<char>::empty()]);
        assert(Seq::<char>::empty() + parts[0] =~= parts[0]);
        assert(split_tabs(parts[0]) =~= parts);
    } else {
        let init = parts.drop_last();
        let b = parts.last();
        assert forall|k: int| 0 <= k < init.len() implies !(#[trigger] init[k]).contains('\t') by {
            assert(init[k] == parts[k]);
        }
        assert(!b.contains('\t')) by {
            assert(b == parts[parts.len() - 1]);
        }
        lemma_split_join(init);
        let a = join_tabs(init);
        assert(a + seq!['\t'] + b =~= a.push('\t') + b);
        lemma_split_tabs_append(a.push('\t'), b);
        assert(a.push('\t').drop_last() =~= a);
        assert(split_tabs(a.push('\t')) == init.push(seq![]));
        assert(Seq::<char>::empty() + b =~= b);
        assert(init.push(seq![]).update(init.len() as int, b) =~= parts);
    }
}

/// A written TSV record is exactly one line, and reading that line back
/// gives the fields that were written (for a record of one or more fields;
/// zero fields write an empty line, which reads back as one empty field).
pub proof fn lemma_tsv_round_trip(fs: Seq<Seq<char>>)
    ensures
        tsv_line(fs).last() == '\n',
        !tsv_line(fs).drop_last().contains('\n'),
        fs.len() >= 1 ==> tsv_line_fields(tsv_line(fs)) == fs,
{
    let escs = fs.map_values(|f: Seq<char>| escape(f));
    assert forall|k: int| 0 <= k < escs.len() implies !(#[trigger] escs[k]).contains('\t') && !escs[k].contains('\n') && !escs[k].contains('\r') by {
        lemma_escape_no_separators(fs[k]);
    }
    lemma_join_tabs_lacks(escs, '\n');
    lemma_join_tabs_lacks(escs, '\r');
    let j = join_tabs(escs);
    let line = tsv_line(fs);
    assert(line.drop_last() =~= j);
    if fs.len() >= 1 {
        if j.len() > 0 {
            assert(j.contains(j.last()));
        }
        assert(trim_line_end(line) =~= j);
        lemma_split_join(escs);
        assert forall|k: int| 0 <= k < fs.len() implies #[trigger] tsv_line_fields(line)[k] == fs[k] by {
            lemma_escape_round_trip(fs[k]);
        }
        assert(tsv_line_fields(line) =~= fs);
    }
}

/// The lines of a text, each with its `\n` except perhaps the last.
pub open spec fn lines(s: Seq<char>) -> Seq<Seq<char>>
    decreases s.len(),
{
    if s.len() == 0 {
        seq![]
    } else {
        let init = lines(s.drop_last());
        if init.len() == 0 || init.last().last() == '\n' {
            init.push(seq![s.last()])
        } else {
            init.update(init.len() - 1, init.last().push(s.last()))
        }
    }
}

/// Every line holds at least one character, so there are no more lines
/// than characters.
pub proof fn lemma_lines_len(s: Seq<char>)
    ensures
        lines(s).len() <= s.len(),
        forall|j: int| 0 <= j < lines(s).len() ==> (#[trigger] lines(s)[j]).len() > 0,
    decreases s.len(),
{
    if s.len() > 0 {
        lemma_lines_len(s.drop_last());
    }
}

/// After complete lines, the lines of what follows are lines of their own.
pub proof fn lemma_lines_concat(s: Seq<char>, t: Seq<char>)
    requires
        lines(s).len() == 0 || lines(s).last().last() == '\n',
    ensures
        lines(s + t) == lines(s) + lines(t),
    decreases t.len(),
{
    if t.len() == 0 {
        assert(s + t =~= s);
        assert(lines(t) =~= Seq::<Seq<char>>::empty());
        assert(lines(s) + lines(t) =~= lines(s));
    } else {
        let t0 = t.drop_last();
        let c = t.last();
        lemma_lines_concat(s, t0);
        assert((s + t).drop_last() =~= s + t0);
        assert((s + t).last() == c);
        let a = lines(s);
        let b = lines(t0);
        if b.len() == 0 {
            assert(a + b =~= a);
            assert(lines(t) =~= seq![seq![c]]);
            assert(lines(s + t) =~= a + lines(t));
        } else {
            assert((a + b).last() == b.last());
            assert(lines(s + t) =~= a + lines(t));
        }
    }
}

/// Tabs occur in parts joined by tabs once between each two parts, where
/// the parts themselves hold none.
proof fn lemma_join_tabs_count(parts: Seq<Seq<char>>)
    requires
        forall|k: int| 0 <= k < parts.len() ==> !(#[trigger] parts[k]).contains('\t'),
    ensures
        count(join_tabs(parts), '\t') == (if parts.len() == 0 {
            0
        } else {
            parts.len() - 1
        }),
    decreases parts.len(),
{
    if parts.len() == 0 {
    } else if parts.len() == 1 {
        lemma_count_absent(parts[0], '\t');
    } else {
        let init = parts.drop_last();
        let b = parts.last();
        assert forall|k: int| 0 <= k < init.len() implies !(#[trigger] init[k]).contains('\t') by {
            assert(init[k] == parts[k]);
        }
        assert(!b.contains('\t')) by {
            assert(b == parts[parts.len() - 1]);
        }
        lemma_join_tabs_count(init);
        let a = join_tabs(init);
        lemma_count_concat(a, seq!['\t'], '\t');
        lemma_count_concat(a + seq!['\t'], b, '\t');
        lemma_count_absent(b, '\t');
        assert(seq!['\t'].drop_last() =~= Seq::<char>::empty());
        assert(count(Seq::<char>::empty(), '\t') == 0);
    }
}

/// A written TSV line holds one tab fewer than it has fields (none for no
/// fields) and exactly one newline.
pub proof fn lemma_tsv_line_counts(fs: Seq<Seq<char>>)
    ensures
        count(tsv_line(fs), '\t') == (if fs.len() == 0 {
            0
        } else {
            fs.len() - 1
        }),
        count(tsv_line(fs), '\n') == 1,
{
    let escs = fs.map_values(|f: Seq<char>| escape(f));
    assert forall|k: int| 0 <= k < escs.len() implies !(#[trigger] escs[k]).contains('\t') && !escs[k].contains('\n') by {
        lemma_escape_no_separators(fs[k]);
    }
    lemma_join_tabs_count(escs);
    lemma_join_tabs_lacks(escs, '\n');
    let j = join_tabs(escs);
    lemma_count_absent(j, '\n');
    lemma_count_concat(j, seq!['\n'], '\t');
    lemma_count_concat(j, seq!['\n'], '\n');
    assert(seq!['\n'].drop_last() =~= Seq::<char>::empty());
    assert(count(Seq::<char>::empty(), '\t') == 0);
    assert(count(Seq::<char>::empty(), '\n') == 0);
}

/// An escaped field as the writer could have written it: no raw tab,
/// newline or carriage return, and each backslash starting one of the four
/// escapes `\\`, `\t`, `\n`, `\r`.
pub open spec fn well_escaped(s: Seq<char>) -> bool
    decreases s.len(),
{
    if s.len() == 0 {
        true
    } else if s[0] == '\\' {
        s.len() >= 2 && (s[1] == '\\' || s[1] == 't' || s[1] == 'n' || s[1] == 'r')
            && well_escaped(s.skip(2))
    } else {
        s[0] != '\t' && s[0] != '\n' && s[0] != '\r' && well_escaped(s.drop_first())
    }
}

/// Escaping text put together escapes each part.
proof fn lemma_escape_concat(a: Seq<char>, b: Seq<char>)
    ensures
        escape(a + b) == escape(a) + escape(b),
    decreases a.len(),
{
    if a.len() == 0 {
        assert(a + b =~= b);
        assert(escape(a) + escape(b) =~= escape(b));
    } else {
        assert((a + b)[0] == a[0]);
        assert((a + b).drop_first() =~= a.drop_first() + b);
        lemma_escape_concat(a.drop_first(), b);
        assert(escape_char(a[0]) + (escape(a.drop_first()) + escape(b)) =~= escape(a) + escape(b));
    }
}

/// Reading back a well-escaped field and escaping the text again gives the
/// field. (A backslash before any other character is kept as written on
/// reading, and then doubled on escaping, so such fields do not come back.)
pub proof fn lemma_unescape_round_trip(s: Seq<char>)
    requires
        well_escaped(s),
    ensures
        escape(unescape(s)) == s,
    decreases s.len(),
{
    if s.len() > 0 {
        if s[0] == '\\' {
            let rest = s.skip(2);
            lemma_unescape_round_trip(rest);
            let u = unescape_pair(s[1]);
            lemma_escape_concat(u, unescape(rest));
            assert(u.drop_first() =~= Seq::<char>::empty());
            assert(escape(u) =~= escape_char(u[0]) + escape(u.drop_first()));
            assert(escape(u) =~= seq![s[0], s[1]]);
            assert(seq![s[0], s[1]] + rest =~= s);
        } else {
            let rest = s.drop_first();
            lemma_unescape_round_trip(rest);
            lemma_escape_concat(seq![s[0]], unescape(rest));
            assert(seq![s[0]].drop_first() =~= Seq::<char>::empty());
            assert(escape(Seq::<char>::empty()) =~= Seq::<char>::empty());
            assert(seq![s[0]][0] == s[0]);
            assert(escape(seq![s[0]]) == escape_char(s[0]) + escape(seq![s[0]].drop_first()));
            assert(escape(seq![s[0]]) =~= seq![s[0]]);
            assert(seq![s[0]] + rest =~= s);
        }
    }
}

} // verus!
