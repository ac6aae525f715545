//! The executable frame type and its codec: boundary checking (`check`),
//! decoding (`parse`) and encoding (`encode`) against the grammar of
//! [`crate::wire`].

use vstd::prelude::*;
use vstd::slice::slice_subrange;
use vstd::utf8::{decode_utf8, valid_utf8};

use crate::wire::{
    all_digits, dec_digits, dec_ok, decode_frame, decode_items, digits_val, encode_frame,
    encode_list, is_digit, lemma_digits_val_mono, lemma_encode_list_push, lemma_line_end_at,
    lemma_line_end_none, line_end, rseq, Decoded, FrameView, CR, LF,
};
use vstd::string::StrSliceExecFns;

verus! {

broadcast use vstd::std_specs::vec::group_vec_axioms;

/// One wire-protocol value.
#[derive(Debug)]
pub enum Frame {
    Simple(String),
    Error(String),
    Integer(u64),
    Bulk(Vec<u8>),
    Null,
    Array(Vec<Frame>),
}

/// Abstract value of one executable frame.
pub open spec fn frame_view(f: Frame) -> FrameView
    decreases f, 0int,
{
    match f {
        Frame::Simple(t) => FrameView::Simple(t@),
        Frame::Error(t) => FrameView::Error(t@),
        Frame::Integer(n) => FrameView::Integer(n),
        Frame::Bulk(b) => FrameView::Bulk(b@),
        Frame::Null => FrameView::Null,
        Frame::Array(items) => FrameView::Array(frame_views(items@)),
    }
}

/// Abstract values of a sequence of executable frames, in order.
pub open spec fn frame_views(s: Seq<Frame>) -> Seq<FrameView>
    decreases s, 1int,
{
    if s.len() == 0 {
        Seq::empty()
    } else {
        seq![frame_view(s[0])] + frame_views(s.drop_first())
    }
}

impl View for Frame {
    type V = FrameView;

    open spec fn view(&self) -> FrameView {
        frame_view(*self)
    }
}

/// `frame_views` maps the view over the elements.
pub proof fn lemma_frame_views(s: Seq<Frame>)
    ensures
        frame_views(s).len() == s.len(),
        forall|i: int| 0 <= i < s.len() ==> frame_views(s)[i] == frame_view(#[trigger] s[i]),
    decreases s.len(),
{
    if s.len() > 0 {
        lemma_frame_views(s.drop_first());
        assert forall|i: int| 0 <= i < s.len() implies frame_views(s)[i] == frame_view(
            #[trigger] s[i],
        ) by {
            if i == 0 {
                assert(frame_views(s)[0] == frame_view(s[0]));
            } else {
                assert(frame_views(s)[i] == frame_views(s.drop_first())[i - 1]);
                assert(s.drop_first()[i - 1] == s[i]);
            }
        }
    }
}

/// Appending a frame appends its view.
pub proof fn lemma_frame_views_push(s: Seq<Frame>, f: Frame)
    ensures
        frame_views(s.push(f)) == frame_views(s).push(frame_view(f)),
{
    lemma_frame_views(s);
    lemma_frame_views(s.push(f));
    assert forall|i: int| 0 <= i < s.len() + 1 implies frame_views(s.push(f))[i] == frame_views(
        s,
    ).push(frame_view(f))[i] by {
        assert(frame_views(s.push(f))[i] == frame_view(s.push(f)[i]));
        if i < s.len() {
            assert(s.push(f)[i] == s[i]);
        } else {
            assert(s.push(f)[i] == f);
        }
    }
    assert(frame_views(s.push(f)) =~= frame_views(s).push(frame_view(f)));
}

/// Outcome of the codec: `Incomplete` asks the caller to wait for more
/// bytes; `Other` reports data that can never be the start of a frame.
#[derive(Debug)]
pub enum Error {
    Incomplete,
    Other(String),
}

/// Relies on `str::from_utf8`: it succeeds exactly on byte sequences that
/// are valid UTF-8, and decodes them to the character sequence they encode.
#[verifier::external_body]
pub(crate) fn bytes_to_string(v: &[u8]) -> (r: Option<String>)
    ensures
        r is Some <==> valid_utf8(v@),
        r matches Some(s) ==> s@ == decode_utf8(v@),
{
    match std::str::from_utf8(v) {
        Ok(s) => Some(s.to_string()),
        Err(_) => None,
    }
}

/// The byte at `pos`, or `Incomplete` past the end of the buffer.
pub fn get_u8(src: &[u8], pos: usize) -> (r: Result<u8, Error>)
    ensures
        match r {
            Ok(b) => (pos as int) < src@.len() && b == src@[pos as int],
            Err(e) => e is Incomplete && pos >= src@.len(),
        },
{
    if pos < src.len() {
        Ok(src[pos])
    } else {
        Err(Error::Incomplete)
    }
}

/// Scan for the first CRLF at or after `pos`; return the index of the CR
/// and the position just past the LF.
pub fn get_line(src: &[u8], pos: usize) -> (r: Result<(usize, usize), Error>)
    ensures
        match r {
            Ok((e, next)) => {
                &&& line_end(src@, pos as int) == Some(e as int)
                &&& pos <= e
                &&& next == e + 2
                &&& next <= src@.len()
                &&& src@[e as int] == CR
                &&& src@[e as int + 1] == LF
            },
            Err(er) => er is Incomplete && line_end(src@, pos as int) is None,
        },
{
    let mut i = pos;
    loop
        invariant
            pos <= i,
            forall|j: int| pos <= j < i ==> !(#[trigger] src@[j] == CR && src@[j + 1] == LF),
        decreases src@.len() - i,
    {
        if i >= src.len() || i + 1 >= src.len() {
            proof {
                lemma_line_end_none(src@, pos as int);
            }
            return Err(Error::Incomplete);
        }
        if src[i] == CR && src[i + 1] == LF {
            proof {
                lemma_line_end_at(src@, pos as int, i as int);
            }
            return Ok((i, i + 2));
        }
        i = i + 1;
    }
}

/// Advance `pos` by `n`, or `Incomplete` when fewer than `n` bytes remain.
pub fn skip(src: &[u8], pos: usize, n: usize) -> (r: Result<usize, Error>)
    ensures
        match r {
            Ok(p) => p == pos + n && p <= src@.len(),
            Err(e) => e is Incomplete && pos + n > src@.len(),
        },
{
    if pos <= src.len() && n <= src.len() - pos {
        Ok(pos + n)
    } else {
        Err(Error::Incomplete)
    }
}

/// Read one CRLF-terminated line at `pos` as an unsigned decimal.
pub fn get_decimal(src: &[u8], pos: usize) -> (r: Result<(u64, usize), Error>)
    ensures
        match r {
            Ok((v, next)) => (line_end(src@, pos as int) matches Some(e) && ({
                let b = src@.subrange(pos as int, e);
                &&& dec_ok(b)
                &&& v as int == digits_val(b)
                &&& next == e + 2
                &&& pos <= e
                &&& next <= src@.len()
            })),
            Err(Error::Incomplete) => line_end(src@, pos as int) is None,
            Err(Error::Other(_)) => (line_end(src@, pos as int) matches Some(e) && !dec_ok(
                src@.subrange(pos as int, e),
            )),
        },
{
    let (e, next) = match get_line(src, pos) {
        Ok(p) => p,
        Err(_) => {
            return Err(Error::Incomplete);
        },
    };
    let ghost b = src@.subrange(pos as int, e as int);
    if e == pos {
        assert(!dec_ok(b));
        return Err(Error::Other(String::from_str("protocol error; invalid frame format")));
    }
    let mut val: u64 = 0;
    let mut i = pos;
    while i < e
        invariant
            pos <= i <= e,
            e + 2 <= src@.len(),
            line_end(src@, pos as int) == Some(e as int),
            b == src@.subrange(pos as int, e as int),
            all_digits(src@.subrange(pos as int, i as int)),
            val as int == digits_val(src@.subrange(pos as int, i as int)),
        decreases e - i,
    {
        let c = src[i];
        let ghost pre = src@.subrange(pos as int, i as int);
        let ghost cur = src@.subrange(pos as int, i + 1 as int);
        proof {
            assert(cur.drop_last() =~= pre);
            assert(cur.last() == src@[i as int]);
        }
        if c < 48 || c > 57 {
            assert(!is_digit(b[i - pos as int]));
            return Err(Error::Other(String::from_str("protocol error; invalid frame format")));
        }
        assert(all_digits(cur));
        let d = (c - 48) as u64;
        let next_val = match val.checked_mul(10) {
            Some(m) => m.checked_add(d),
            None => None,
        };
        val = match next_val {
            Some(v) => v,
            None => {
                proof {
                    assert(digits_val(cur) > u64::MAX);
                    if all_digits(b) {
                        lemma_digits_val_mono(b, i + 1 - pos as int);
                        assert(b.subrange(0, i + 1 - pos as int) =~= cur);
                    }
                }
                assert(!dec_ok(b));
                return Err(Error::Other(
                    String::from_str("protocol error; invalid frame format"),
                ));
            },
        };
        i = i + 1;
    }
    assert(src@.subrange(pos as int, i as int) == b);
    Ok((val, next))
}

impl Frame {
    /// Whether one whole frame lies at `pos` in `src`: `Ok` carries the
    /// position just past it, `Incomplete` asks for more bytes, any other
    /// error reports bytes that can never become a frame.
    pub fn check(src: &[u8], pos: usize) -> (r: Result<usize, Error>)
        ensures
            match r {
                Ok(n) => (decode_frame(src@, pos as int) matches Decoded::Found(_, end) && end
                    == n as int && pos < n <= src@.len()),
                Err(Error::Incomplete) => decode_frame(src@, pos as int) is Incomplete,
                Err(Error::Other(_)) => decode_frame(src@, pos as int) is Malformed,
            },
        decreases src@.len() - pos,
    {
        let tag = match get_u8(src, pos) {
            Ok(b) => b,
            Err(_) => {
                return Err(Error::Incomplete);
            },
        };
        // Learning the buffer's length bounds `pos`, so the position
        // arithmetic below cannot overflow.
        let slen = src.len();
        assert(pos < slen);
        if tag == 43 || tag == 45 {
            let (e, next) = match get_line(src, pos + 1) {
                Ok(t) => t,
                Err(_) => {
                    return Err(Error::Incomplete);
                },
            };
            let line = slice_subrange(src, pos + 1, e);
            if bytes_to_string(line).is_some() {
                Ok(next)
            } else {
                Err(Error::Other(String::from_str("protocol error; invalid frame format")))
            }
        } else if tag == 58 {
            match get_decimal(src, pos + 1) {
                Ok((_, next)) => Ok(next),
                Err(err) => Err(err),
            }
        } else if tag == 36 {
            let (e, next) = match get_line(src, pos + 1) {
                Ok(t) => t,
                Err(_) => {
                    return Err(Error::Incomplete);
                },
            };
            let ghost b = src@.subrange(pos + 1 as int, e as int);
            if e == pos + 3 && src[pos + 1] == 45 && src[pos + 2] == 49 {
                proof {
                    assert(b =~= seq![45u8, 49u8]);
                }
                return Ok(next);
            }
            proof {
                if b == seq![45u8, 49u8] {
                    assert(b.len() == 2);
                    assert(src@[pos + 1 as int] == 45 && src@[pos + 2 as int] == 49);
                }
            }
            let (n, next2) = match get_decimal(src, pos + 1) {
                Ok(t) => t,
                Err(err) => {
                    return Err(err);
                },
            };
            let rem = src.len() - next2;
            if rem < 2 || n > (rem - 2) as u64 {
                return Err(Error::Incomplete);
            }
            let nn = n as usize;
            if src[next2 + nn] == CR && src[next2 + nn + 1] == LF {
                Ok(next2 + nn + 2)
            } else {
                Err(Error::Other(String::from_str("protocol error; invalid frame format")))
            }
        } else if tag == 42 {
            let (cnt, first) = match get_decimal(src, pos + 1) {
                Ok(t) => t,
                Err(err) => {
                    return Err(err);
                },
            };
            let ghost s = src@;
            let ghost p0 = first as int;
            let ghost total = cnt as int;
            proof {
                assert(decode_frame(s, pos as int) == (match decode_items(s, p0, total) {
                    Decoded::Found(items, end) => Decoded::Found(FrameView::Array(items), end),
                    Decoded::Incomplete => Decoded::<FrameView>::Incomplete,
                    Decoded::Malformed => Decoded::<FrameView>::Malformed,
                }));
            }
            let mut p = first;
            let mut i: u64 = 0;
            while i < cnt
                invariant
                    s == src@,
                    0 <= i <= cnt,
                    total == cnt as int,
                    pos < p,
                    p <= src@.len(),
                    decode_frame(s, pos as int) == (match decode_items(s, p0, total) {
                        Decoded::Found(items, end) => Decoded::Found(FrameView::Array(items), end),
                        Decoded::Incomplete => Decoded::<FrameView>::Incomplete,
                        Decoded::Malformed => Decoded::<FrameView>::Malformed,
                    }),
                    match decode_items(s, p as int, total - i) {
                        Decoded::Found(x, end) => decode_items(s, p0, total)
                            matches Decoded::Found(_, end2) && end2 == end,
                        Decoded::Incomplete => decode_items(s, p0, total) is Incomplete,
                        Decoded::Malformed => decode_items(s, p0, total) is Malformed,
                    },
                decreases cnt - i,
            {
                match Frame::check(src, p) {
                    Ok(n2) => {
                        proof {
                            let k = total - i;
                            assert(decode_items(s, p as int, k) == (
                            match decode_items(s, n2 as int, k - 1) {
                                Decoded::Found(rest, end) => Decoded::Found(
                                    seq![decode_frame(s, p as int)->Found_0] + rest,
                                    end,
                                ),
                                Decoded::Incomplete => Decoded::<Seq<FrameView>>::Incomplete,
                                Decoded::Malformed => Decoded::<Seq<FrameView>>::Malformed,
                            }));
                        }
                        p = n2;
                        i = i + 1;
                    },
                    Err(err) => {
                        return Err(err);
                    },
                }
            }
            Ok(p)
        } else {
            Err(Error::Other(String::from_str("protocol error; invalid frame type byte")))
        }
    }

    /// Decode one whole frame at `pos` in `src`: `Ok` carries the frame and
    /// the position just past its encoding.
    pub fn parse(src: &[u8], pos: usize) -> (r: Result<(Frame, usize), Error>)
        ensures
            match r {
                Ok((frame, n)) => decode_frame(src@, pos as int) == Decoded::Found(
                    frame@,
                    n as int,
                ) && pos < n <= src@.len(),
                Err(Error::Incomplete) => decode_frame(src@, pos as int) is Incomplete,
                Err(Error::Other(_)) => decode_frame(src@, pos as int) is Malformed,
            },
        decreases src@.len() - pos,
    {
        let tag = match get_u8(src, pos) {
            Ok(b) => b,
            Err(_) => {
                return Err(Error::Incomplete);
            },
        };
        // Learning the buffer's length bounds `pos`, so the position
        // arithmetic below cannot overflow.
        let slen = src.len();
        assert(pos < slen);
        if tag == 43 || tag == 45 {
            let (e, next) = match get_line(src, pos + 1) {
                Ok(t) => t,
                Err(_) => {
                    return Err(Error::Incomplete);
                },
            };
            let line = slice_subrange(src, pos + 1, e);
            match bytes_to_string(line) {
                Some(text) => {
                    if tag == 43 {
                        Ok((Frame::Simple(text), next))
                    } else {
                        Ok((Frame::Error(text), next))
                    }
                },
                None => Err(Error::Other(
                    String::from_str("protocol error; invalid frame format"),
                )),
            }
        } else if tag == 58 {
            match get_decimal(src, pos + 1) {
                Ok((v, next)) => Ok((Frame::Integer(v), next)),
                Err(err) => Err(err),
            }
        } else if tag == 36 {
            let (e, next) = match get_line(src, pos + 1) {
                Ok(t) => t,
                Err(_) => {
                    return Err(Error::Incomplete);
                },
            };
            let ghost b = src@.subrange(pos + 1 as int, e as int);
            if e == pos + 3 && src[pos + 1] == 45 && src[pos + 2] == 49 {
                proof {
                    assert(b =~= seq![45u8, 49u8]);
                }
                return Ok((Frame::Null, next));
            }
            proof {
                if b == seq![45u8, 49u8] {
                    assert(b.len() == 2);
                    assert(src@[pos + 1 as int] == 45 && src@[pos + 2 as int] == 49);
                }
            }
            let (n, next2) = match get_decimal(src, pos + 1) {
                Ok(t) => t,
                Err(err) => {
                    return Err(err);
                },
            };
            let rem = src.len() - next2;
            if rem < 2 || n > (rem - 2) as u64 {
                return Err(Error::Incomplete);
            }
            let nn = n as usize;
            if src[next2 + nn] == CR && src[next2 + nn + 1] == LF {
                let data = vstd::slice::slice_to_vec(slice_subrange(src, next2, next2 + nn));
                Ok((Frame::Bulk(data), next2 + nn + 2))
            } else {
                Err(Error::Other(String::from_str("protocol error; invalid frame format")))
            }
        } else if tag == 42 {
            let (cnt, first) = match get_decimal(src, pos + 1) {
                Ok(t) => t,
                Err(err) => {
                    return Err(err);
                },
            };
            let ghost s = src@;
            let ghost p0 = first as int;
            let ghost total = cnt as int;
            proof {
                assert(decode_frame(s, pos as int) == (match decode_items(s, p0, total) {
                    Decoded::Found(items, end) => Decoded::Found(FrameView::Array(items), end),
                    Decoded::Incomplete => Decoded::<FrameView>::Incomplete,
                    Decoded::Malformed => Decoded::<FrameView>::Malformed,
                }));
            }
            let mut out: Vec<Frame> = Vec::new();
            let mut p = first;
            let mut i: u64 = 0;
            proof {
                assert(frame_views(out@) =~= Seq::<FrameView>::empty());
            }
            while i < cnt
                invariant
                    s == src@,
                    0 <= i <= cnt,
                    total == cnt as int,
                    pos < p,
                    p <= src@.len(),
                    decode_frame(s, pos as int) == (match decode_items(s, p0, total) {
                        Decoded::Found(items, end) => Decoded::Found(FrameView::Array(items), end),
                        Decoded::Incomplete => Decoded::<FrameView>::Incomplete,
                        Decoded::Malformed => Decoded::<FrameView>::Malformed,
                    }),
                    match decode_items(s, p as int, total - i) {
                        Decoded::Found(rest, end) => decode_items(s, p0, total) == Decoded::Found(
                            frame_views(out@) + rest,
                            end,
                        ),
                        Decoded::Incomplete => decode_items(s, p0, total) is Incomplete,
                        Decoded::Malformed => decode_items(s, p0, total) is Malformed,
                    },
                decreases cnt - i,
            {
                match Frame::parse(src, p) {
                    Ok((child, n2)) => {
                        proof {
                            let k = total - i;
                            assert(decode_items(s, p as int, k) == (
                            match decode_items(s, n2 as int, k - 1) {
                                Decoded::Found(rest, end) => Decoded::Found(
                                    seq![child@] + rest,
                                    end,
                                ),
                                Decoded::Incomplete => Decoded::<Seq<FrameView>>::Incomplete,
                                Decoded::Malformed => Decoded::<Seq<FrameView>>::Malformed,
                            }));
                            lemma_frame_views_push(out@, child);
                            if decode_items(s, n2 as int, k - 1) is Found {
                                let rest = decode_items(s, n2 as int, k - 1)->Found_0;
                                assert(frame_views(out@) + (seq![child@] + rest) =~= frame_views(
                                    out@.push(child),
                                ) + rest);
                            }
                        }
                        out.push(child);
                        p = n2;
                        i = i + 1;
                    },
                    Err(err) => {
                        return Err(err);
                    },
                }
            }
            proof {
                assert(frame_views(out@) + Seq::<FrameView>::empty() =~= frame_views(out@));
            }
            Ok((Frame::Array(out), p))
        } else {
            Err(Error::Other(String::from_str("protocol error; invalid frame type byte")))
        }
    }
}

/// Append the decimal digits of `n` to `out`.
pub fn push_decimal(out: &mut Vec<u8>, n: u64)
    ensures
        final(out)@ == old(out)@ + dec_digits(n),
{
    let mut tmp: Vec<u8> = Vec::new();
    let mut m = n;
    proof {
        assert(rseq(tmp@) =~= Seq::<u8>::empty());
        assert(dec_digits(n) =~= dec_digits(m) + rseq(tmp@));
    }
    loop
        invariant_except_break
            dec_digits(n) == dec_digits(m) + rseq(tmp@),
        ensures
            dec_digits(n) == rseq(tmp@),
        decreases m,
    {
        let d = 48 + (m % 10) as u8;
        let ghost tmp_old = tmp@;
        tmp.push(d);
        proof {
            assert(tmp@.drop_last() =~= tmp_old);
            assert(rseq(tmp@) =~= seq![d] + rseq(tmp_old));
            if m < 10 {
                assert(dec_digits(m) =~= seq![d]);
                assert(dec_digits(m) + rseq(tmp_old) =~= rseq(tmp@));
            } else {
                assert(dec_digits(m) == dec_digits(m / 10).push((48 + m % 10) as u8));
                assert(dec_digits(m) =~= dec_digits(m / 10) + seq![d]);
                assert(dec_digits(m) + rseq(tmp_old) =~= dec_digits(m / 10) + rseq(tmp@));
            }
        }
        m = m / 10;
        if m == 0 {
            break;
        }
    }
    loop
        invariant
            out@ + rseq(tmp@) == old(out)@ + dec_digits(n),
        ensures
            out@ == old(out)@ + dec_digits(n),
        decreases tmp@.len(),
    {
        let ghost tmp_old = tmp@;
        match tmp.pop() {
            Some(b) => {
                proof {
                    assert(rseq(tmp_old) =~= seq![b] + rseq(tmp@));
                }
                let ghost out_old = out@;
                out.push(b);
                proof {
                    assert(out@ + rseq(tmp@) =~= (out_old + seq![b]) + rseq(tmp@));
                    assert(out_old + (seq![b] + rseq(tmp@)) =~= (out_old + seq![b]) + rseq(tmp@));
                }
            },
            None => {
                proof {
                    assert(rseq(tmp@) =~= Seq::<u8>::empty());
                    assert(out@ + rseq(tmp@) =~= out@);
                }
                break;
            },
        }
    }
}

impl Frame {
    /// An empty array frame, ready to take bulk children.
    pub fn array() -> (f: Frame)
        ensures
            f@ == FrameView::Array(Seq::<FrameView>::empty()),
    {
        let v: Vec<Frame> = Vec::new();
        proof {
            assert(frame_views(v@) =~= Seq::<FrameView>::empty());
        }
        Frame::Array(v)
    }

    /// Append a bulk child to an array frame under construction.
    pub fn push_bulk(&mut self, bytes: Vec<u8>)
        requires
            *old(self) is Array,
        ensures
            (old(self)@ matches FrameView::Array(vs) && final(self)@ == FrameView::Array(
                vs.push(FrameView::Bulk(bytes@)),
            )),
    {
        let fb = Frame::Bulk(bytes);
        let ghost fg = fb;
        match self {
            Frame::Array(items) => {
                let ghost prev = items@;
                items.push(fb);
                proof {
                    lemma_frame_views_push(prev, fg);
                }
            },
            _ => {
                proof {
                    assert(false);
                }
            },
        }
    }

    /// Byte-level encoding of this frame, exactly the wire form that
    /// `parse` reverses.
    #[verifier::loop_isolation(false)]
    pub fn encode(&self) -> (out: Vec<u8>)
        ensures
            out@ == encode_frame(self@),
        decreases *self,
    {
        let mut out: Vec<u8> = Vec::new();
        match self {
            Frame::Simple(t) => {
                out.push(43);
                let mut bytes = t.as_str().as_bytes_vec();
                out.append(&mut bytes);
                out.push(CR);
                out.push(LF);
                proof {
                    assert(out@ =~= seq![43u8] + vstd::utf8::encode_utf8(t@) + seq![CR, LF]);
                }
            },
            Frame::Error(t) => {
                out.push(45);
                let mut bytes = t.as_str().as_bytes_vec();
                out.append(&mut bytes);
                out.push(CR);
                out.push(LF);
                proof {
                    assert(out@ =~= seq![45u8] + vstd::utf8::encode_utf8(t@) + seq![CR, LF]);
                }
            },
            Frame::Integer(n) => {
                out.push(58);
                push_decimal(&mut out, *n);
                out.push(CR);
                out.push(LF);
                proof {
                    assert(out@ =~= seq![58u8] + dec_digits(*n) + seq![CR, LF]);
                }
            },
            Frame::Bulk(b) => {
                out.push(36);
                push_decimal(&mut out, b.len() as u64);
                out.push(CR);
                out.push(LF);
                let mut data = vstd::slice::slice_to_vec(b.as_slice());
                out.append(&mut data);
                out.push(CR);
                out.push(LF);
                proof {
                    assert(out@ =~= seq![36u8] + dec_digits(b@.len() as u64) + seq![CR, LF] + b@
                        + seq![CR, LF]);
                }
            },
            Frame::Null => {
                out.push(36);
                out.push(45);
                out.push(49);
                out.push(CR);
                out.push(LF);
                proof {
                    assert(out@ =~= seq![36u8, 45u8, 49u8, CR, LF]);
                }
            },
            Frame::Array(items) => {
                out.push(42);
                push_decimal(&mut out, items.len() as u64);
                out.push(CR);
                out.push(LF);
                let ghost header = seq![42u8] + dec_digits(items@.len() as u64) + seq![CR, LF];
                proof {
                    assert(out@ =~= header);
                    assert(frame_views(items@.subrange(0, 0)) =~= Seq::<FrameView>::empty());
                    assert(encode_list(frame_views(items@.subrange(0, 0)))
                        =~= Seq::<u8>::empty());
                    assert(out@ =~= header + encode_list(frame_views(items@.subrange(0, 0))));
                }
                let mut idx: usize = 0;
                while idx < items.len()
                    invariant
                        0 <= idx <= items@.len(),
                        header == seq![42u8] + dec_digits(items@.len() as u64) + seq![CR, LF],
                        out@ == header + encode_list(frame_views(items@.subrange(0, idx as int))),
                    decreases items@.len() - idx,
                {
                    let child = &items[idx];
                    proof {
                        vstd::std_specs::vec::axiom_vec_index_decreases(*items, idx as int);
                        assert(decreases_to!(*self => *items));
                    }
                    let mut bytes = child.encode();
                    let ghost out_old = out@;
                    out.append(&mut bytes);
                    proof {
                        let pre = items@.subrange(0, idx as int);
                        let cur = items@.subrange(0, idx + 1);
                        assert(cur =~= pre.push(items@[idx as int]));
                        lemma_frame_views_push(pre, items@[idx as int]);
                        lemma_encode_list_push(frame_views(pre), frame_view(items@[idx as int]));
                        assert(out@ =~= header + encode_list(frame_views(cur)));
                    }
                    idx = idx + 1;
                }
                proof {
                    assert(items@.subrange(0, items@.len() as int) =~= items@);
                    lemma_frame_views(items@);
                }
            },
        }
        out
    }
}

} // verus!
