//! Text helpers: turning raw bytes into `String`s, growing a `String` one
//! `char` at a time, and searching a `str` for a `char`.
use vstd::prelude::*;
use vstd::std_specs::iter::IteratorSpec;
use vstd::utf8::*;

verus! {

broadcast use vstd::string::group_string_axioms;

/// What `String::from_utf8_lossy` makes of a byte sequence: its text, with
/// each invalid UTF-8 sequence replaced by U+FFFD.
pub uninterp spec fn lossy_utf8(bytes: Seq<u8>) -> Seq<char>;

/// The text that a field read as raw bytes stands for: the UTF-8 decoding of
/// the bytes where they are valid UTF-8, the lossy decoding otherwise.
pub open spec fn field_text(bytes: Seq<u8>) -> Seq<char> {
    if valid_utf8(bytes) {
        decode_utf8(bytes)
    } else {
        lossy_utf8(bytes)
    }
}

/// Calls `String::from_utf8_lossy`. Its documentation: valid UTF-8 comes back
/// as the same text; invalid sequences become U+FFFD. The contract states the
/// first exactly and names the result (`lossy_utf8`) in general.
#[verifier::external_body]
pub(crate) fn bytes_to_string(bytes: &[u8]) -> (s: String)
    ensures
        s@ == lossy_utf8(bytes@),
        valid_utf8(bytes@) ==> s@ == decode_utf8(bytes@),
{
    String::from_utf8_lossy(bytes).into_owned()
}

/// Calls `String::push`, which appends one `char` to the string.
#[verifier::external_body]
pub(crate) fn string_push(s: &mut String, c: char)
    ensures
        final(s)@ == old(s)@.push(c),
{
    s.push(c)
}

/// Whether `s` contains the character `c`.
pub(crate) fn contains_char(s: &str, c: char) -> (r: bool)
    ensures
        r == s@.contains(c),
{
    let mut it = s.chars();
    let ghost all = s@;
    let ghost mut i: int = 0;
    loop
        invariant
            it.remaining() == all.skip(i),
            0 <= i <= all.len(),
            all == s@,
            forall|j: int| 0 <= j < i ==> all[j] != c,
        decreases all.len() - i,
    {
        match it.next() {
            Some(x) => {
                if x == c {
                    assert(all[i] == c);
                    return true;
                }
                proof {
                    i = i + 1;
                }
            },
            None => {
                return false;
            },
        }
    }
}

/// Appends `bytes` to `out`.
pub(crate) fn append_bytes(out: &mut Vec<u8>, bytes: &[u8])
    ensures
        final(out)@ == old(out)@ + bytes@,
{
    let n = bytes.len();
    for i in 0..n
        invariant
            n == bytes@.len(),
            out@ == old(out)@ + bytes@.take(i as int),
    {
        out.push(bytes[i]);
        assert(bytes@.take(i + 1) =~= bytes@.take(i as int).push(bytes@[i as int]));
    }
    assert(bytes@.take(n as int) =~= bytes@);
}

/// The UTF-8 bytes of two texts put together are the bytes of each, put
/// together.
pub proof fn lemma_encode_concat(a: Seq<char>, b: Seq<char>)
    ensures
        encode_utf8(a + b) == encode_utf8(a) + encode_utf8(b),
    decreases a.len(),
{
    if a.len() == 0 {
        assert(a + b =~= b);
    } else {
        assert((a + b)[0] == a[0]);
        assert((a + b).drop_first() =~= a.drop_first() + b);
        lemma_encode_concat(a.drop_first(), b);
    }
}

/// An ASCII character is its own single UTF-8 byte.
pub proof fn lemma_encode_ascii_char(c: char)
    requires
        (c as u32) < 0x80,
    ensures
        encode_utf8(seq![c]) == seq![c as u32 as u8],
{
    let v = c as u32;
    assert(v & 0x7F == v) by (bit_vector)
        requires
            v < 0x80,
    ;
    assert(seq![c].drop_first() =~= Seq::<char>::empty());
    assert(encode_utf8(Seq::<char>::empty()) =~= Seq::<u8>::empty());
    assert(seq![c][0] == c);
    assert(encode_utf8(seq![c]) == encode_scalar(v) + encode_utf8(seq![c].drop_first()));
    assert(has_width_1_encoding(v));
    assert(encode_scalar(v) == seq![leading_byte_width_1(v)]);
    assert(encode_scalar(v) + Seq::<u8>::empty() =~= encode_scalar(v));
}

/// The bytes of a UTF-8 encoded character that are below 0x80 are the
/// character itself.
pub proof fn lemma_scalar_ascii_byte(c: char, x: u8)
    requires
        x < 0x80,
        encode_scalar(c as u32).contains(x),
    ensures
        c == x as char,
{
    let v = c as u32;
    char_is_scalar(c);
    let k = choose|k: int| 0 <= k < encode_scalar(v).len() && encode_scalar(v)[k] == x;
    if has_width_1_encoding(v) {
        assert(leading_byte_width_1(v) as u32 == v) by (bit_vector)
            requires
                v <= 0x7F,
        ;
        char_u32_cast(c, v);
        assert(x as u32 == v);
    } else {
        assert(forall|w: u32|
            #![auto]
            (0xC0 | ((w >> 6) & 0x1F) as u8) >= 0x80 && (0xE0 | ((w >> 12) & 0x0F) as u8) >= 0x80
                && (0xF0 | ((w >> 18) & 0x7) as u8) >= 0x80 && (0x80 | (w & 0x3F) as u8) >= 0x80
                && (0x80 | ((w >> 6) & 0x3F) as u8) >= 0x80 && (0x80 | ((w >> 12) & 0x3F) as u8)
                >= 0x80) by (bit_vector);
        assert(leading_byte_width_2(v) >= 0x80);
        assert(leading_byte_width_3(v) >= 0x80);
        assert(leading_byte_width_4(v) >= 0x80);
        assert(last_continuation_byte(v) >= 0x80);
        assert(second_last_continuation_byte(v) >= 0x80);
        assert(third_last_continuation_byte(v) >= 0x80);
        assert(false);
    }
}

/// How many times `x` occurs in `s`.
pub open spec fn count<A>(s: Seq<A>, x: A) -> nat
    decreases s.len(),
{
    if s.len() == 0 {
        0
    } else {
        count(s.drop_last(), x) + (if s.last() == x {
            1nat
        } else {
            0nat
        })
    }
}

/// Occurrences in two sequences put together add up.
pub proof fn lemma_count_concat<A>(a: Seq<A>, b: Seq<A>, x: A)
    ensures
        count(a + b, x) == count(a, x) + count(b, x),
    decreases b.len(),
{
    if b.len() == 0 {
        assert(a + b =~= a);
    } else {
        lemma_count_concat(a, b.drop_last(), x);
        assert((a + b).drop_last() =~= a + b.drop_last());
        assert((a + b).last() == b.last());
    }
}

/// An element that does not occur is counted zero times.
pub proof fn lemma_count_absent<A>(s: Seq<A>, x: A)
    requires
        !s.contains(x),
    ensures
        count(s, x) == 0,
    decreases s.len(),
{
    if s.len() > 0 {
        assert(!s.drop_last().contains(x)) by {
            if s.drop_last().contains(x) {
                let k = choose|k: int| 0 <= k < s.drop_last().len() && s.drop_last()[k] == x;
                assert(s[k] == x);
            }
        }
        lemma_count_absent(s.drop_last(), x);
        assert(s.contains(s.last()));
    }
}

/// An ASCII byte occurs in the UTF-8 bytes of a text as often as its
/// character occurs in the text.
pub proof fn lemma_count_in_encoding(s: Seq<char>, x: u8)
    requires
        x < 0x80,
    ensures
        count(encode_utf8(s), x) == count(s, x as char),
    decreases s.len(),
{
    if s.len() > 0 {
        let c = s[0];
        let rest = s.drop_first();
        lemma_count_in_encoding(rest, x);
        let es = encode_scalar(c as u32);
        assert(encode_utf8(s) == es + encode_utf8(rest));
        lemma_count_concat(es, encode_utf8(rest), x);
        assert(seq![c] + rest =~= s);
        lemma_count_concat(seq![c], rest, x as char);
        assert(seq![c].drop_last() =~= Seq::<char>::empty());
        assert(count(Seq::<char>::empty(), x as char) == 0);
        assert(seq![c].last() == c);
        assert(count(seq![c], x as char) == (if c == x as char {
            1nat
        } else {
            0nat
        }));
        if c == x as char {
            lemma_encode_ascii_char(c);
            assert(seq![c].drop_first() =~= Seq::<char>::empty());
            assert(encode_utf8(Seq::<char>::empty()) =~= Seq::<u8>::empty());
            assert(encode_utf8(seq![c]) == es + Seq::<u8>::empty());
            assert(es =~= seq![x]);
            assert(es.drop_last() =~= Seq::<u8>::empty());
            assert(count(Seq::<u8>::empty(), x) == 0);
            assert(es.last() == x);
        } else {
            if es.contains(x) {
                lemma_scalar_ascii_byte(c, x);
            }
            lemma_count_absent(es, x);
        }
    }
}

} // verus!
