//! Mathematical model of the wire protocol: abstract frames, the byte-level
//! grammar as spec-level encode/decode functions, and the round-trip laws.
//!
//! The grammar (each line terminated by CRLF):
//! `+text`, `-text`, `:decimal`, `$len` followed by `len` payload bytes and
//! CRLF, `$-1` for the null frame, and `*count` followed by `count` encoded
//! frames.

use vstd::prelude::*;
use vstd::utf8::{
    char_is_scalar, decode_utf8, encode_scalar, encode_utf8, has_width_1_encoding, valid_utf8,
};

verus! {

broadcast use vstd::seq::group_seq_axioms;

/// Byte value of carriage return.
pub const CR: u8 = 13;

/// Byte value of line feed.
pub const LF: u8 = 10;

/// Abstract value of one wire frame. Text payloads are modelled as character
/// sequences (their wire form is their UTF-8 encoding), bulk payloads as raw
/// byte sequences.
#[verifier::ext_equal]
pub enum FrameView {
    Simple(Seq<char>),
    Error(Seq<char>),
    Integer(u64),
    Bulk(Seq<u8>),
    Null,
    Array(Seq<FrameView>),
}

/// Text that never contains the two-byte line terminator internally.
pub open spec fn line_ok(t: Seq<char>) -> bool {
    forall|i: int| 0 <= i && i + 1 < t.len() ==> !(#[trigger] t[i] == '\r' && t[i + 1] == '\n')
}

/// Well-formed frames: text lines hold no internal terminator, and lengths
/// and counts fit the unsigned 64-bit length prefix of the wire form.
pub open spec fn wf_frame(f: FrameView) -> bool
    decreases f,
{
    match f {
        FrameView::Simple(t) => line_ok(t),
        FrameView::Error(t) => line_ok(t),
        FrameView::Integer(_) => true,
        FrameView::Bulk(b) => b.len() <= u64::MAX,
        FrameView::Null => true,
        FrameView::Array(items) => items.len() <= u64::MAX && (forall|i: int|
            0 <= i < items.len() ==> wf_frame(#[trigger] items[i])),
    }
}

/// True when `b` is the ASCII code of a decimal digit.
pub open spec fn is_digit(b: u8) -> bool {
    48 <= b <= 57
}

pub open spec fn all_digits(s: Seq<u8>) -> bool {
    forall|i: int| 0 <= i < s.len() ==> is_digit(#[trigger] s[i])
}

/// Numeric value of a sequence of ASCII digits, most significant first.
pub open spec fn digits_val(s: Seq<u8>) -> int
    decreases s.len(),
{
    if s.len() == 0 {
        0
    } else {
        digits_val(s.drop_last()) * 10 + (s.last() - 48)
    }
}

/// A line that the grammar accepts as an unsigned decimal: at least one
/// digit, digits only, and a value that fits in 64 bits.
pub open spec fn dec_ok(s: Seq<u8>) -> bool {
    s.len() > 0 && all_digits(s) && digits_val(s) <= u64::MAX
}

/// Canonical decimal encoding of `n`: no leading zeros (except for zero
/// itself).
pub open spec fn dec_digits(n: u64) -> Seq<u8>
    decreases n,
{
    if n < 10 {
        seq![(48 + n) as u8]
    } else {
        dec_digits(n / 10).push((48 + n % 10) as u8)
    }
}

/// Position of the first CRLF pair at or after `from`, if a full pair is
/// present.
pub open spec fn line_end(s: Seq<u8>, from: int) -> Option<int>
    decreases s.len() - from,
{
    if from < 0 || from + 1 >= s.len() {
        None
    } else if s[from] == CR && s[from + 1] == LF {
        Some(from)
    } else {
        line_end(s, from + 1)
    }
}

/// Outcome of decoding at a position: a value together with the position
/// just past its encoding, or a signal that more bytes are needed, or a
/// signal that the bytes cannot be the start of any frame.
pub enum Decoded<T> {
    Found(T, int),
    Incomplete,
    Malformed,
}

/// Decode one frame starting at `pos`.
///
/// The guards comparing a successor position against `pos` and `s.len()`
/// only serve the termination measure: a decoded frame always consumes at
/// least its tag byte and never runs past the buffer, so on real
/// encodings they never fire (see `lemma_decode_encode`).
pub open spec fn decode_frame(s: Seq<u8>, pos: int) -> Decoded<FrameView>
    decreases s.len() - pos, 0int,
{
    if pos < 0 || pos >= s.len() {
        Decoded::Incomplete
    } else {
        let tag = s[pos];
        if tag == 43 {  // '+'
            match line_end(s, pos + 1) {
                None => Decoded::Incomplete,
                Some(e) => {
                    let b = s.subrange(pos + 1, e);
                    if valid_utf8(b) {
                        Decoded::Found(FrameView::Simple(decode_utf8(b)), e + 2)
                    } else {
                        Decoded::Malformed
                    }
                },
            }
        } else if tag == 45 {  // '-'
            match line_end(s, pos + 1) {
                None => Decoded::Incomplete,
                Some(e) => {
                    let b = s.subrange(pos + 1, e);
                    if valid_utf8(b) {
                        Decoded::Found(FrameView::Error(decode_utf8(b)), e + 2)
                    } else {
                        Decoded::Malformed
                    }
                },
            }
        } else if tag == 58 {  // ':'
            match line_end(s, pos + 1) {
                None => Decoded::Incomplete,
                Some(e) => {
                    let b = s.subrange(pos + 1, e);
                    if dec_ok(b) {
                        Decoded::Found(FrameView::Integer(digits_val(b) as u64), e + 2)
                    } else {
                        Decoded::Malformed
                    }
                },
            }
        } else if tag == 36 {  // '$'
            match line_end(s, pos + 1) {
                None => Decoded::Incomplete,
                Some(e) => {
                    let b = s.subrange(pos + 1, e);
                    if b == seq![45u8, 49u8] {  // "-1"
                        Decoded::Found(FrameView::Null, e + 2)
                    } else if dec_ok(b) {
                        let n = digits_val(b);
                        if s.len() < e + 2 + n + 2 {
                            Decoded::Incomplete
                        } else if s[e + 2 + n] == CR && s[e + 2 + n + 1] == LF {
                            Decoded::Found(
                                FrameView::Bulk(s.subrange(e + 2, e + 2 + n)),
                                e + 2 + n + 2,
                            )
                        } else {
                            Decoded::Malformed
                        }
                    } else {
                        Decoded::Malformed
                    }
                },
            }
        } else if tag == 42 {  // '*'
            match line_end(s, pos + 1) {
                None => Decoded::Incomplete,
                Some(e) => {
                    let b = s.subrange(pos + 1, e);
                    if dec_ok(b) {
                        if e < pos + 1 || e + 2 > s.len() {
                            Decoded::Malformed
                        } else {
                            match decode_items(s, e + 2, digits_val(b)) {
                                Decoded::Incomplete => Decoded::Incomplete,
                                Decoded::Malformed => Decoded::Malformed,
                                Decoded::Found(items, end) => Decoded::Found(
                                    FrameView::Array(items),
                                    end,
                                ),
                            }
                        }
                    } else {
                        Decoded::Malformed
                    }
                },
            }
        } else {
            Decoded::Malformed
        }
    }
}

/// Decode exactly `n` consecutive frames starting at `pos`.
pub open spec fn decode_items(s: Seq<u8>, pos: int, n: int) -> Decoded<Seq<FrameView>>
    decreases s.len() - pos, 1int,
{
    if n <= 0 {
        Decoded::Found(Seq::empty(), pos)
    } else {
        match decode_frame(s, pos) {
            Decoded::Incomplete => Decoded::Incomplete,
            Decoded::Malformed => Decoded::Malformed,
            Decoded::Found(f, pos2) => {
                if pos2 <= pos || pos2 > s.len() {
                    Decoded::Malformed
                } else {
                    match decode_items(s, pos2, n - 1) {
                        Decoded::Incomplete => Decoded::Incomplete,
                        Decoded::Malformed => Decoded::Malformed,
                        Decoded::Found(rest, end) => Decoded::Found(seq![f] + rest, end),
                    }
                }
            },
        }
    }
}

/// Byte-level encoding of one frame.
pub open spec fn encode_frame(f: FrameView) -> Seq<u8>
    decreases f,
{
    match f {
        FrameView::Simple(t) => seq![43u8] + encode_utf8(t) + seq![CR, LF],
        FrameView::Error(t) => seq![45u8] + encode_utf8(t) + seq![CR, LF],
        FrameView::Integer(n) => seq![58u8] + dec_digits(n) + seq![CR, LF],
        FrameView::Bulk(b) => seq![36u8] + dec_digits(b.len() as u64) + seq![CR, LF] + b
            + seq![CR, LF],
        FrameView::Null => seq![36u8, 45u8, 49u8, CR, LF],
        FrameView::Array(items) => seq![42u8] + dec_digits(items.len() as u64) + seq![CR, LF]
            + encode_list(items),
    }
}

/// Concatenated encodings of a sequence of frames.
pub open spec fn encode_list(items: Seq<FrameView>) -> Seq<u8>
    decreases items,
{
    if items.len() == 0 {
        Seq::empty()
    } else {
        encode_frame(items[0]) + encode_list(items.drop_first())
    }
}

/// A byte sequence free of the two-byte line terminator.
pub open spec fn no_crlf(b: Seq<u8>) -> bool {
    forall|j: int| 0 <= j && j + 1 < b.len() ==> !(#[trigger] b[j] == CR && b[j + 1] == LF)
}

/// The canonical decimal encoding of `n` consists of digits and evaluates
/// back to `n`.
pub proof fn lemma_dec_digits(n: u64)
    ensures
        dec_digits(n).len() >= 1,
        all_digits(dec_digits(n)),
        digits_val(dec_digits(n)) == n,
    decreases n,
{
    if n < 10 {
        let s = dec_digits(n);
        assert(s.drop_last() =~= Seq::<u8>::empty());
        assert(digits_val(s.drop_last()) == 0);
        assert(digits_val(s) == s.last() - 48);
    } else {
        lemma_dec_digits(n / 10);
        let s = dec_digits(n);
        assert(0 <= n % 10 < 10);
        assert(s.last() == (48 + n % 10) as u8);
        assert(s.drop_last() =~= dec_digits(n / 10));
        assert(digits_val(s) == digits_val(s.drop_last()) * 10 + (s.last() - 48));
        assert(n / 10 * 10 + n % 10 == n) by (nonlinear_arith);
    }
}

/// Where no terminator pair exists at or after `from`, `line_end` finds
/// none.
pub proof fn lemma_line_end_none(s: Seq<u8>, from: int)
    requires
        0 <= from,
        forall|j: int| from <= j && j + 1 < s.len() ==> !(#[trigger] s[j] == CR && s[j + 1] == LF),
    ensures
        line_end(s, from) is None,
    decreases s.len() - from,
{
    if from + 1 < s.len() {
        lemma_line_end_none(s, from + 1);
    }
}

/// The value of a digit string is nonnegative.
pub proof fn lemma_digits_val_nonneg(s: Seq<u8>)
    requires
        all_digits(s),
    ensures
        digits_val(s) >= 0,
    decreases s.len(),
{
    if s.len() > 0 {
        assert(all_digits(s.drop_last()));
        lemma_digits_val_nonneg(s.drop_last());
        assert(digits_val(s.drop_last()) * 10 >= 0) by (nonlinear_arith)
            requires
                digits_val(s.drop_last()) >= 0,
        ;
    }
}

/// Extending a digit string never decreases its value.
pub proof fn lemma_digits_val_mono(s: Seq<u8>, k: int)
    requires
        all_digits(s),
        0 <= k <= s.len(),
    ensures
        digits_val(s.subrange(0, k)) <= digits_val(s),
    decreases s.len() - k,
{
    if k < s.len() {
        lemma_digits_val_mono(s, k + 1);
        let p = s.subrange(0, k);
        let q = s.subrange(0, k + 1);
        assert(q.drop_last() =~= p);
        assert(all_digits(p));
        lemma_digits_val_nonneg(p);
        assert(digits_val(q) == digits_val(p) * 10 + (q.last() - 48));
        assert(digits_val(p) * 10 >= digits_val(p)) by (nonlinear_arith)
            requires
                digits_val(p) >= 0,
        ;
    } else {
        assert(s.subrange(0, k) =~= s);
    }
}

/// `s` written back to front.
pub open spec fn rseq(s: Seq<u8>) -> Seq<u8>
    decreases s.len(),
{
    if s.len() == 0 {
        Seq::empty()
    } else {
        seq![s.last()] + rseq(s.drop_last())
    }
}

/// Appending one frame to a list appends its encoding.
pub proof fn lemma_encode_list_push(items: Seq<FrameView>, f: FrameView)
    ensures
        encode_list(items.push(f)) == encode_list(items) + encode_frame(f),
    decreases items.len(),
{
    if items.len() == 0 {
        let p = items.push(f);
        assert(p.drop_first() =~= Seq::<FrameView>::empty());
        assert(p[0] == f);
        assert(encode_list(p) == encode_frame(f) + encode_list(p.drop_first()));
        assert(encode_frame(f) + Seq::<u8>::empty() =~= encode_frame(f));
        assert(encode_list(items) + encode_frame(f) =~= encode_frame(f));
    } else {
        lemma_encode_list_push(items.drop_first(), f);
        assert(items.push(f).drop_first() =~= items.drop_first().push(f));
        assert(items.push(f)[0] == items[0]);
        assert(encode_list(items.push(f)) == encode_frame(items[0]) + encode_list(
            items.drop_first().push(f),
        ));
        assert(encode_frame(items[0]) + (encode_list(items.drop_first()) + encode_frame(f))
            =~= (encode_frame(items[0]) + encode_list(items.drop_first())) + encode_frame(f));
    }
}

/// How CR and LF can occur in the encoding of a single character: only as
/// the whole one-byte encoding of `'\r'` or `'\n'` themselves.
proof fn lemma_scalar_crlf(c: char)
    ensures
        encode_scalar(c as u32).len() >= 1,
        c == '\r' ==> encode_scalar(c as u32) =~= seq![CR],
        c == '\n' ==> encode_scalar(c as u32) =~= seq![LF],
        c != '\r' ==> forall|i: int|
            0 <= i < encode_scalar(c as u32).len() ==> #[trigger] encode_scalar(c as u32)[i] != CR,
        c != '\n' ==> forall|i: int|
            0 <= i < encode_scalar(c as u32).len() ==> #[trigger] encode_scalar(c as u32)[i] != LF,
{
    char_is_scalar(c);
    let v = c as u32;
    if has_width_1_encoding(v) {
        assert((v & 0x7F) == v) by (bit_vector)
            requires
                v <= 0x7F,
        ;
    } else {
        // All bytes of a multi-byte encoding are at least 0x80.
        assert(forall|x: u8| (0x80 | x) >= 0x80 as u8) by (bit_vector);
        assert(forall|x: u8| (0xC0 | x) >= 0x80 as u8) by (bit_vector);
        assert(forall|x: u8| (0xE0 | x) >= 0x80 as u8) by (bit_vector);
        assert(forall|x: u8| (0xF0 | x) >= 0x80 as u8) by (bit_vector);
    }
}

/// The UTF-8 encoding of a text line without the two-byte terminator is a
/// byte sequence without the two-byte terminator; and its first byte is LF
/// only for a text starting with `'\n'`.
pub proof fn lemma_encode_utf8_no_crlf(t: Seq<char>)
    requires
        line_ok(t),
    ensures
        no_crlf(encode_utf8(t)),
        t.len() > 0 ==> encode_utf8(t).len() >= 1,
        t.len() > 0 && encode_utf8(t)[0] == LF ==> t[0] == '\n',
    decreases t.len(),
{
    if t.len() > 0 {
        let b0 = encode_scalar(t[0] as u32);
        let rest = encode_utf8(t.drop_first());
        let b = encode_utf8(t);
        assert(b == b0 + rest);
        lemma_scalar_crlf(t[0]);
        assert(line_ok(t.drop_first())) by {
            assert(forall|i: int|
                0 <= i && i + 1 < t.drop_first().len() ==> #[trigger] t.drop_first()[i] == t[i
                    + 1] && t.drop_first()[i + 1] == t[i + 2]);
        }
        lemma_encode_utf8_no_crlf(t.drop_first());
        assert forall|j: int| 0 <= j && j + 1 < b.len() implies !(#[trigger] b[j] == CR && b[j + 1]
            == LF) by {
            if j + 1 < b0.len() {
                if b[j] == CR {
                    assert(b0[j] == CR);
                    assert(t[0] == '\r');
                }
            } else if j < b0.len() {
                if b[j] == CR && b[j + 1] == LF {
                    assert(b0[j] == CR);
                    assert(t[0] == '\r');
                    assert(j == 0);
                    assert(rest[0] == LF);
                    assert(rest.len() > 0);
                    assert(t.drop_first().len() > 0);
                    assert(t.drop_first()[0] == '\n');
                    assert(t[0] == '\r' && t[1] == '\n');
                }
            } else {
                assert(rest[j - b0.len()] == b[j] && rest[j + 1 - b0.len()] == b[j + 1]);
            }
        }
    }
}

/// `line_end` finds a terminator that is known to be first.
pub proof fn lemma_line_end_at(s: Seq<u8>, from: int, e: int)
    requires
        0 <= from <= e,
        e + 1 < s.len(),
        s[e] == CR,
        s[e + 1] == LF,
        forall|j: int| from <= j < e ==> !(#[trigger] s[j] == CR && s[j + 1] == LF),
    ensures
        line_end(s, from) == Some(e),
    decreases e - from,
{
    if from < e {
        lemma_line_end_at(s, from + 1, e);
    }
}

/// Every encoding is at least three bytes: a tag and a terminator.
pub proof fn lemma_encode_frame_len(f: FrameView)
    ensures
        encode_frame(f).len() >= 3,
{
    match f {
        FrameView::Simple(t) => {},
        FrameView::Error(t) => {},
        FrameView::Integer(n) => {
            lemma_dec_digits(n);
        },
        FrameView::Bulk(b) => {
            lemma_dec_digits(b.len() as u64);
        },
        FrameView::Null => {},
        FrameView::Array(items) => {
            lemma_dec_digits(items.len() as u64);
        },
    }
}

/// A tagged line in context: at `pos` in `s` stands some tag byte, then
/// `line` (free of the two-byte terminator), then CRLF. The line scan from
/// `pos + 1` finds exactly the end of `line`.
proof fn lemma_find_line(s: Seq<u8>, pos: int, line: Seq<u8>)
    requires
        0 <= pos,
        pos + 1 + line.len() + 2 <= s.len(),
        forall|k: int| 0 <= k < line.len() ==> s[pos + 1 + k] == #[trigger] line[k],
        no_crlf(line),
        s[pos + 1 + line.len()] == CR,
        s[pos + 1 + line.len() + 1] == LF,
    ensures
        line_end(s, pos + 1) == Some(pos + 1 + line.len() as int),
        s.subrange(pos + 1, pos + 1 + line.len() as int) == line,
{
    let e = pos + 1 + line.len() as int;
    assert forall|j: int| pos + 1 <= j < e && #[trigger] s[j] == CR implies s[j + 1] != LF by {
        if j + 1 < e {
            assert(s[j] == line[j - (pos + 1)] && s[j + 1] == line[j + 1 - (pos + 1)]);
        } else {
            assert(s[j + 1] == CR);
        }
    }
    lemma_line_end_at(s, pos + 1, e);
    assert(s.subrange(pos + 1, e) =~= line);
}

/// A sequence of decimal digits is free of the two-byte terminator.
proof fn lemma_digits_no_crlf(d: Seq<u8>)
    requires
        all_digits(d),
    ensures
        no_crlf(d),
{
}

/// Decoding at a position where the encoding of a well-formed frame lies,
/// whatever bytes surround it, finds exactly that frame and stops exactly
/// at the end of its encoding.
pub proof fn lemma_decode_encode(f: FrameView, s: Seq<u8>, pos: int)
    requires
        wf_frame(f),
        0 <= pos,
        pos + encode_frame(f).len() <= s.len(),
        s.subrange(pos, pos + encode_frame(f).len() as int) == encode_frame(f),
    ensures
        decode_frame(s, pos) == Decoded::<FrameView>::Found(f, pos + encode_frame(f).len() as int),
    decreases f, 0int,
{
    let enc = encode_frame(f);
    let len = enc.len() as int;
    assert forall|k: int| 0 <= k < len implies s[pos + k] == #[trigger] enc[k] by {
        assert(enc[k] == s.subrange(pos, pos + len)[k]);
    }
    assert(s[pos + 0] == enc[0]);
    match f {
        FrameView::Simple(t) => {
            let bt = encode_utf8(t);
            let m = bt.len() as int;
            lemma_encode_utf8_no_crlf(t);
            assert forall|k: int| 0 <= k < m implies s[pos + 1 + k] == #[trigger] bt[k] by {
                assert(enc[1 + k] == bt[k]);
                assert(s[pos + (1 + k)] == enc[1 + k]);
            }
            assert(s[pos + 1 + m] == CR && s[pos + 1 + m + 1] == LF) by {
                assert(enc[1 + m] == CR && enc[1 + m + 1] == LF);
                assert(s[pos + (1 + m)] == enc[1 + m]);
                assert(s[pos + (1 + m + 1)] == enc[1 + m + 1]);
            }
            lemma_find_line(s, pos, bt);
            assert(enc[0] == 43 && len == 3 + m);
            vstd::utf8::encode_utf8_valid_utf8(t);
            vstd::utf8::encode_utf8_decode_utf8(t);
        },
        FrameView::Error(t) => {
            let bt = encode_utf8(t);
            let m = bt.len() as int;
            lemma_encode_utf8_no_crlf(t);
            assert forall|k: int| 0 <= k < m implies s[pos + 1 + k] == #[trigger] bt[k] by {
                assert(enc[1 + k] == bt[k]);
                assert(s[pos + (1 + k)] == enc[1 + k]);
            }
            assert(s[pos + 1 + m] == CR && s[pos + 1 + m + 1] == LF) by {
                assert(enc[1 + m] == CR && enc[1 + m + 1] == LF);
                assert(s[pos + (1 + m)] == enc[1 + m]);
                assert(s[pos + (1 + m + 1)] == enc[1 + m + 1]);
            }
            lemma_find_line(s, pos, bt);
            assert(enc[0] == 45 && len == 3 + m);
            vstd::utf8::encode_utf8_valid_utf8(t);
            vstd::utf8::encode_utf8_decode_utf8(t);
        },
        FrameView::Integer(n) => {
            let dd = dec_digits(n);
            let m = dd.len() as int;
            lemma_dec_digits(n);
            lemma_digits_no_crlf(dd);
            assert forall|k: int| 0 <= k < m implies s[pos + 1 + k] == #[trigger] dd[k] by {
                assert(enc[1 + k] == dd[k]);
                assert(s[pos + (1 + k)] == enc[1 + k]);
            }
            assert(s[pos + 1 + m] == CR && s[pos + 1 + m + 1] == LF) by {
                assert(enc[1 + m] == CR && enc[1 + m + 1] == LF);
                assert(s[pos + (1 + m)] == enc[1 + m]);
                assert(s[pos + (1 + m + 1)] == enc[1 + m + 1]);
            }
            lemma_find_line(s, pos, dd);
            assert(enc[0] == 58 && len == 3 + m);
            assert(dec_ok(dd));
            assert(digits_val(dd) as u64 == n);
        },
        FrameView::Null => {
            assert(s[pos + 1] == 45 && s[pos + 2] == 49 && s[pos + 3] == CR && s[pos + 4] == LF)
                by {
                assert(s[pos + 1] == enc[1] && s[pos + 2] == enc[2] && s[pos + 3] == enc[3] && s[pos
                    + 4] == enc[4]);
            }
            let line = seq![45u8, 49u8];
            assert(forall|k: int| 0 <= k < line.len() ==> s[pos + 1 + k] == #[trigger] line[k]);
            lemma_find_line(s, pos, line);
            assert(enc[0] == 36 && len == 5);
            assert(s.subrange(pos + 1, pos + 3) == line);
        },
        FrameView::Bulk(b) => {
            let n = b.len() as int;
            let dd = dec_digits(b.len() as u64);
            let m = dd.len() as int;
            lemma_dec_digits(b.len() as u64);
            lemma_digits_no_crlf(dd);
            assert forall|k: int| 0 <= k < m implies s[pos + 1 + k] == #[trigger] dd[k] by {
                assert(enc[1 + k] == dd[k]);
                assert(s[pos + (1 + k)] == enc[1 + k]);
            }
            assert(s[pos + 1 + m] == CR && s[pos + 1 + m + 1] == LF) by {
                assert(enc[1 + m] == CR && enc[1 + m + 1] == LF);
                assert(s[pos + (1 + m)] == enc[1 + m]);
                assert(s[pos + (1 + m + 1)] == enc[1 + m + 1]);
            }
            lemma_find_line(s, pos, dd);
            let e = pos + 1 + m;
            assert(dd != seq![45u8, 49u8]) by {
                assert(is_digit(dd[0]));
                if dd == seq![45u8, 49u8] {
                    assert(dd[0] == 45);
                }
            }
            assert(dec_ok(dd));
            assert(digits_val(dd) == n);
            assert forall|k: int| 0 <= k < n implies s[e + 2 + k] == #[trigger] b[k] by {
                assert(enc[1 + m + 2 + k] == b[k]);
                assert(s[pos + (1 + m + 2 + k)] == enc[1 + m + 2 + k]);
            }
            assert(s[e + 2 + n] == CR && s[e + 2 + n + 1] == LF) by {
                assert(enc[1 + m + 2 + n] == CR && enc[1 + m + 2 + n + 1] == LF);
                assert(s[pos + (1 + m + 2 + n)] == enc[1 + m + 2 + n]);
                assert(s[pos + (1 + m + 2 + n + 1)] == enc[1 + m + 2 + n + 1]);
            }
            assert(s.len() >= e + 2 + n + 2);
            assert(s.subrange(e + 2, e + 2 + n) =~= b);
            assert(enc[0] == 36 && len == 1 + m + 2 + n + 2);
        },
        FrameView::Array(items) => {
            let cnt = items.len() as int;
            let dd = dec_digits(items.len() as u64);
            let m = dd.len() as int;
            let body = encode_list(items);
            lemma_dec_digits(items.len() as u64);
            lemma_digits_no_crlf(dd);
            assert forall|k: int| 0 <= k < m implies s[pos + 1 + k] == #[trigger] dd[k] by {
                assert(enc[1 + k] == dd[k]);
                assert(s[pos + (1 + k)] == enc[1 + k]);
            }
            assert(s[pos + 1 + m] == CR && s[pos + 1 + m + 1] == LF) by {
                assert(enc[1 + m] == CR && enc[1 + m + 1] == LF);
                assert(s[pos + (1 + m)] == enc[1 + m]);
                assert(s[pos + (1 + m + 1)] == enc[1 + m + 1]);
            }
            lemma_find_line(s, pos, dd);
            let e = pos + 1 + m;
            assert(dec_ok(dd));
            assert(digits_val(dd) == cnt);
            assert forall|k: int| 0 <= k < body.len() implies s[e + 2 + k] == #[trigger] body[k]
                by {
                assert(enc[1 + m + 2 + k] == body[k]);
                assert(s[pos + (1 + m + 2 + k)] == enc[1 + m + 2 + k]);
            }
            assert(s.subrange(e + 2, e + 2 + body.len() as int) =~= body);
            lemma_decode_encode_list(items, s, e + 2);
            assert(enc[0] == 42 && len == 1 + m + 2 + body.len());
        },
    }
}

/// Companion of [`lemma_decode_encode`] for a run of consecutive frame
/// encodings.
pub proof fn lemma_decode_encode_list(items: Seq<FrameView>, s: Seq<u8>, pos: int)
    requires
        forall|i: int| 0 <= i < items.len() ==> wf_frame(#[trigger] items[i]),
        0 <= pos,
        pos + encode_list(items).len() <= s.len(),
        s.subrange(pos, pos + encode_list(items).len() as int) == encode_list(items),
    ensures
        decode_items(s, pos, items.len() as int) == Decoded::<Seq<FrameView>>::Found(
            items,
            pos + encode_list(items).len() as int,
        ),
    decreases items, 1int,
{
    let el = encode_list(items);
    let len = el.len() as int;
    assert forall|k: int| 0 <= k < len implies s[pos + k] == #[trigger] el[k] by {
        assert(el[k] == s.subrange(pos, pos + len)[k]);
    }
    if items.len() > 0 {
        let f0 = items[0];
        let e0 = encode_frame(f0);
        let tail = items.drop_first();
        let rest = encode_list(tail);
        assert(el == e0 + rest);
        assert(s.subrange(pos, pos + e0.len() as int) =~= e0) by {
            assert forall|k: int| 0 <= k < e0.len() implies s.subrange(
                pos,
                pos + e0.len() as int,
            )[k] == e0[k] by {
                assert(el[k] == e0[k]);
                assert(s[pos + k] == el[k]);
            }
        }
        lemma_decode_encode(f0, s, pos);
        lemma_encode_frame_len(f0);
        let pos2 = pos + e0.len() as int;
        assert(forall|i: int| 0 <= i < tail.len() ==> wf_frame(#[trigger] tail[i])) by {
            assert(forall|i: int| 0 <= i < tail.len() ==> #[trigger] tail[i] == items[i + 1]);
        }
        assert(s.subrange(pos2, pos2 + rest.len() as int) =~= rest) by {
            assert forall|k: int| 0 <= k < rest.len() implies s.subrange(
                pos2,
                pos2 + rest.len() as int,
            )[k] == rest[k] by {
                assert(el[e0.len() + k] == rest[k]);
                assert(s[pos + (e0.len() + k)] == el[e0.len() + k]);
            }
        }
        lemma_decode_encode_list(tail, s, pos2);
        assert(seq![f0] + tail =~= items);
        assert(len == e0.len() + rest.len());
    } else {
        assert(items =~= Seq::<FrameView>::empty());
        assert(len == 0);
    }
}


/// Round trip: the encoding of any well-formed frame, however many bytes
/// follow it, decodes back to exactly that frame, consuming exactly the
/// encoding.
pub proof fn lemma_round_trip(f: FrameView, rest: Seq<u8>)
    requires
        wf_frame(f),
    ensures
        decode_frame(encode_frame(f) + rest, 0) == Decoded::<FrameView>::Found(
            f,
            encode_frame(f).len() as int,
        ),
        decode_frame(encode_frame(f), 0) == Decoded::<FrameView>::Found(
            f,
            encode_frame(f).len() as int,
        ),
{
    let s1 = encode_frame(f) + rest;
    assert(s1.subrange(0, encode_frame(f).len() as int) =~= encode_frame(f));
    lemma_decode_encode(f, s1, 0);
    let s2 = encode_frame(f);
    assert(s2.subrange(0, encode_frame(f).len() as int) =~= encode_frame(f));
    lemma_decode_encode(f, s2, 0);
}

/// In `s` everything from `pos + 1` on is drawn from `line` followed by a
/// CR, with `line` free of the terminator: the line scan finds nothing.
proof fn lemma_no_line_yet(s: Seq<u8>, pos: int, line: Seq<u8>)
    requires
        0 <= pos < s.len(),
        s.len() - (pos + 1) <= line.len() + 1,
        forall|k: int|
            0 <= k < s.len() - (pos + 1) ==> s[pos + 1 + k] == #[trigger] (line + seq![CR])[k],
        no_crlf(line),
    ensures
        line_end(s, pos + 1) is None,
{
    let ext = line + seq![CR];
    assert forall|j: int|
        pos + 1 <= j && j + 1 < s.len() implies !(#[trigger] s[j] == CR && s[j + 1] == LF) by {
        let k = j - (pos + 1);
        assert(s[j] == ext[k] && s[j + 1] == ext[k + 1]);
        if k + 1 < line.len() {
            assert(ext[k] == line[k] && ext[k + 1] == line[k + 1]);
        } else {
            assert(ext[k + 1] == CR);
        }
    }
    lemma_line_end_none(s, pos + 1);
}

/// Decoding at a position where only a strict prefix of the encoding of a
/// well-formed frame has arrived reports that more bytes are needed —
/// never some other frame and never an error.
pub proof fn lemma_decode_prefix(f: FrameView, s: Seq<u8>, pos: int)
    requires
        wf_frame(f),
        0 <= pos <= s.len(),
        s.len() < pos + encode_frame(f).len(),
        s.subrange(pos, s.len() as int) == encode_frame(f).subrange(0, s.len() - pos),
    ensures
        decode_frame(s, pos) is Incomplete,
    decreases f, 0int,
{
    let enc = encode_frame(f);
    let avail = s.len() - pos;
    assert forall|k: int| 0 <= k < avail implies s[pos + k] == #[trigger] enc[k] by {
        assert(s.subrange(pos, s.len() as int)[k] == s[pos + k]);
        assert(enc.subrange(0, avail)[k] == enc[k]);
    }
    if pos == s.len() {
    } else {
        assert(s[pos + 0] == enc[0]);
        match f {
            FrameView::Simple(t) => {
                let bt = encode_utf8(t);
                lemma_encode_utf8_no_crlf(t);
                assert forall|k: int|
                    0 <= k < avail - 1 implies s[pos + 1 + k] == #[trigger] (bt + seq![CR])[k] by {
                    assert(s[pos + (1 + k)] == enc[1 + k]);
                    if k < bt.len() {
                        assert(enc[1 + k] == bt[k]);
                    } else {
                        assert(enc[1 + k] == CR);
                    }
                }
                lemma_no_line_yet(s, pos, bt);
            },
            FrameView::Error(t) => {
                let bt = encode_utf8(t);
                lemma_encode_utf8_no_crlf(t);
                assert forall|k: int|
                    0 <= k < avail - 1 implies s[pos + 1 + k] == #[trigger] (bt + seq![CR])[k] by {
                    assert(s[pos + (1 + k)] == enc[1 + k]);
                    if k < bt.len() {
                        assert(enc[1 + k] == bt[k]);
                    } else {
                        assert(enc[1 + k] == CR);
                    }
                }
                lemma_no_line_yet(s, pos, bt);
            },
            FrameView::Integer(n) => {
                let dd = dec_digits(n);
                lemma_dec_digits(n);
                lemma_digits_no_crlf(dd);
                assert forall|k: int|
                    0 <= k < avail - 1 implies s[pos + 1 + k] == #[trigger] (dd + seq![CR])[k] by {
                    assert(s[pos + (1 + k)] == enc[1 + k]);
                    if k < dd.len() {
                        assert(enc[1 + k] == dd[k]);
                    } else {
                        assert(enc[1 + k] == CR);
                    }
                }
                lemma_no_line_yet(s, pos, dd);
            },
            FrameView::Null => {
                let line = seq![45u8, 49u8];
                assert forall|k: int|
                    0 <= k < avail - 1 implies s[pos + 1 + k] == #[trigger] (line + seq![CR])[k]
                    by {
                    assert(s[pos + (1 + k)] == enc[1 + k]);
                }
                lemma_no_line_yet(s, pos, line);
            },
            FrameView::Bulk(b) => {
                let n = b.len() as int;
                let dd = dec_digits(b.len() as u64);
                let m = dd.len() as int;
                lemma_dec_digits(b.len() as u64);
                lemma_digits_no_crlf(dd);
                if avail <= 1 + m + 1 {
                    assert forall|k: int|
                        0 <= k < avail - 1 implies s[pos + 1 + k] == #[trigger] (dd + seq![CR])[k]
                        by {
                        assert(s[pos + (1 + k)] == enc[1 + k]);
                        if k < m {
                            assert(enc[1 + k] == dd[k]);
                        } else {
                            assert(enc[1 + k] == CR);
                        }
                    }
                    lemma_no_line_yet(s, pos, dd);
                } else {
                    assert forall|k: int| 0 <= k < m implies s[pos + 1 + k] == #[trigger] dd[k]
                        by {
                        assert(s[pos + (1 + k)] == enc[1 + k]);
                        assert(enc[1 + k] == dd[k]);
                    }
                    assert(s[pos + 1 + m] == CR && s[pos + 1 + m + 1] == LF) by {
                        assert(enc[1 + m] == CR && enc[1 + m + 1] == LF);
                        assert(s[pos + (1 + m)] == enc[1 + m]);
                        assert(s[pos + (1 + m + 1)] == enc[1 + m + 1]);
                    }
                    lemma_find_line(s, pos, dd);
                    assert(dd != seq![45u8, 49u8]) by {
                        assert(is_digit(dd[0]));
                        if dd == seq![45u8, 49u8] {
                            assert(dd[0] == 45);
                        }
                    }
                    assert(dec_ok(dd));
                    assert(digits_val(dd) == n);
                    assert(s.len() < pos + 1 + m + 2 + n + 2);
                }
            },
            FrameView::Array(items) => {
                let dd = dec_digits(items.len() as u64);
                let m = dd.len() as int;
                let body = encode_list(items);
                lemma_dec_digits(items.len() as u64);
                lemma_digits_no_crlf(dd);
                if avail <= 1 + m + 1 {
                    assert forall|k: int|
                        0 <= k < avail - 1 implies s[pos + 1 + k] == #[trigger] (dd + seq![CR])[k]
                        by {
                        assert(s[pos + (1 + k)] == enc[1 + k]);
                        if k < m {
                            assert(enc[1 + k] == dd[k]);
                        } else {
                            assert(enc[1 + k] == CR);
                        }
                    }
                    lemma_no_line_yet(s, pos, dd);
                } else {
                    assert forall|k: int| 0 <= k < m implies s[pos + 1 + k] == #[trigger] dd[k]
                        by {
                        assert(s[pos + (1 + k)] == enc[1 + k]);
                        assert(enc[1 + k] == dd[k]);
                    }
                    assert(s[pos + 1 + m] == CR && s[pos + 1 + m + 1] == LF) by {
                        assert(enc[1 + m] == CR && enc[1 + m + 1] == LF);
                        assert(s[pos + (1 + m)] == enc[1 + m]);
                        assert(s[pos + (1 + m + 1)] == enc[1 + m + 1]);
                    }
                    lemma_find_line(s, pos, dd);
                    let e = pos + 1 + m;
                    assert(dec_ok(dd));
                    assert(digits_val(dd) == items.len() as int);
                    assert forall|k: int|
                        0 <= k < s.len() - (e + 2) implies s[e + 2 + k] == #[trigger] body[k] by {
                        assert(s[pos + (1 + m + 2 + k)] == enc[1 + m + 2 + k]);
                        assert(enc[1 + m + 2 + k] == body[k]);
                    }
                    assert(s.subrange(e + 2, s.len() as int) =~= body.subrange(
                        0,
                        s.len() - (e + 2),
                    ));
                    lemma_decode_list_prefix(items, s, e + 2);
                }
            },
        }
    }
}

/// Companion of [`lemma_decode_prefix`] for a run of consecutive frame
/// encodings cut short.
pub proof fn lemma_decode_list_prefix(items: Seq<FrameView>, s: Seq<u8>, pos: int)
    requires
        forall|i: int| 0 <= i < items.len() ==> wf_frame(#[trigger] items[i]),
        0 <= pos <= s.len(),
        s.len() < pos + encode_list(items).len(),
        s.subrange(pos, s.len() as int) == encode_list(items).subrange(0, s.len() - pos),
    ensures
        decode_items(s, pos, items.len() as int) is Incomplete,
    decreases items, 1int,
{
    let el = encode_list(items);
    let avail = s.len() - pos;
    assert(items.len() > 0);
    assert forall|k: int| 0 <= k < avail implies s[pos + k] == #[trigger] el[k] by {
        assert(s.subrange(pos, s.len() as int)[k] == s[pos + k]);
        assert(el.subrange(0, avail)[k] == el[k]);
    }
    let f0 = items[0];
    let e0 = encode_frame(f0);
    let tail = items.drop_first();
    let rest = encode_list(tail);
    assert(el == e0 + rest);
    lemma_encode_frame_len(f0);
    if avail < e0.len() {
        assert(s.subrange(pos, s.len() as int) =~= e0.subrange(0, avail)) by {
            assert forall|k: int|
                0 <= k < avail implies s.subrange(pos, s.len() as int)[k] == e0.subrange(
                0,
                avail,
            )[k] by {
                assert(el[k] == e0[k]);
                assert(s[pos + k] == el[k]);
            }
        }
        lemma_decode_prefix(f0, s, pos);
    } else {
        assert(s.subrange(pos, pos + e0.len() as int) =~= e0) by {
            assert forall|k: int|
                0 <= k < e0.len() implies s.subrange(pos, pos + e0.len() as int)[k] == e0[k] by {
                assert(el[k] == e0[k]);
                assert(s[pos + k] == el[k]);
            }
        }
        lemma_decode_encode(f0, s, pos);
        let pos2 = pos + e0.len() as int;
        assert(forall|i: int| 0 <= i < tail.len() ==> wf_frame(#[trigger] tail[i])) by {
            assert(forall|i: int| 0 <= i < tail.len() ==> #[trigger] tail[i] == items[i + 1]);
        }
        assert(s.subrange(pos2, s.len() as int) =~= rest.subrange(0, s.len() - pos2)) by {
            assert forall|k: int|
                0 <= k < s.len() - pos2 implies s.subrange(pos2, s.len() as int)[k]
                == rest.subrange(0, s.len() - pos2)[k] by {
                assert(el[e0.len() + k] == rest[k]);
                assert(s[pos + (e0.len() + k)] == el[e0.len() + k]);
            }
        }
        lemma_decode_list_prefix(tail, s, pos2);
    }
}

/// Fragmented delivery: while only a strict prefix of a well-formed
/// frame's encoding has arrived, decoding asks for more bytes; the moment
/// the encoding is complete it decodes to exactly that frame (see
/// [`lemma_round_trip`]), however the bytes were split across arrivals.
pub proof fn lemma_fragmented_delivery(f: FrameView, k: int)
    requires
        wf_frame(f),
        0 <= k < encode_frame(f).len(),
    ensures
        decode_frame(encode_frame(f).subrange(0, k), 0) is Incomplete,
{
    let s = encode_frame(f).subrange(0, k);
    assert(s.subrange(0, k) =~= s);
    lemma_decode_prefix(f, s, 0);
}

/// A leading byte that is none of the five frame tags can never begin a
/// frame, however many bytes follow: the data is malformed, not
/// incomplete.
pub proof fn lemma_bad_tag_malformed(s: Seq<u8>, pos: int)
    requires
        0 <= pos < s.len(),
        s[pos] != 43,
        s[pos] != 45,
        s[pos] != 58,
        s[pos] != 36,
        s[pos] != 42,
    ensures
        decode_frame(s, pos) is Malformed,
{
}

} // verus!
