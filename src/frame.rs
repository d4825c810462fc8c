//! Frames of the wire protocol: their model, their encoding and a decoder
//! that works on a byte buffer which may end in the middle of a frame.
use vstd::prelude::*;
use vstd::string::StringSliceAdditionalSpecFns;

verus! {

broadcast use vstd::seq::group_seq_axioms;

/// The mathematical model of a frame.
pub enum FrameView {
    Simple(Seq<u8>),
    Error(Seq<u8>),
    Integer(u64),
    Null,
    Bulk(Seq<u8>),
    Array(Seq<FrameView>),
}

/// A frame of the protocol. Text is carried as raw bytes: it is not
/// checked to be UTF-8 when it is decoded.
#[derive(Debug)]
pub enum Frame {
    Simple(Vec<u8>),
    Error(Vec<u8>),
    Integer(u64),
    Null,
    Bulk(Vec<u8>),
    Array(Vec<Frame>),
}

/// The model of a frame.
pub open spec fn frame_view(f: Frame) -> FrameView
    decreases f,
{
    match f {
        Frame::Simple(s) => FrameView::Simple(s@),
        Frame::Error(s) => FrameView::Error(s@),
        Frame::Integer(n) => FrameView::Integer(n),
        Frame::Null => FrameView::Null,
        Frame::Bulk(b) => FrameView::Bulk(b@),
        Frame::Array(v) => FrameView::Array(
            Seq::new(v@.len(), |i: int| if 0 <= i < v@.len() { frame_view(v@[i]) } else { FrameView::Null }),
        ),
    }
}

impl View for Frame {
    type V = FrameView;

    open spec fn view(&self) -> FrameView {
        frame_view(*self)
    }
}

/// The two bytes that end every line of the protocol.
pub open spec fn crlf() -> Seq<u8> {
    seq![13u8, 10u8]
}

/// Whether a line terminator starts at index `i` of `b`.
pub open spec fn crlf_at(b: Seq<u8>, i: int) -> bool {
    0 <= i && i + 1 < b.len() && b[i] == 13u8 && b[i + 1] == 10u8
}

/// The length of the line at the start of `b`: the index of its first
/// terminator, or `None` when `b` holds no terminator yet.
pub open spec fn line_len(b: Seq<u8>) -> Option<nat>
    decreases b.len(),
{
    if b.len() < 2 {
        None
    } else if b[0] == 13u8 && b[1] == 10u8 {
        Some(0)
    } else {
        match line_len(b.subrange(1, b.len() as int)) {
            Some(n) => Some(n + 1),
            None => None,
        }
    }
}

pub open spec fn is_digit(c: u8) -> bool {
    48u8 <= c <= 57u8
}

pub open spec fn all_digits(s: Seq<u8>) -> bool {
    forall|i: int| 0 <= i < s.len() ==> is_digit(#[trigger] s[i])
}

/// The number that a run of decimal digits denotes.
pub open spec fn digits_value(s: Seq<u8>) -> nat
    decreases s.len(),
{
    if s.len() == 0 {
        0
    } else {
        digits_value(s.subrange(0, s.len() - 1)) * 10 + (s[s.len() - 1] - 48u8) as nat
    }
}

/// The unsigned number that a header line holds: one or more decimal
/// digits and nothing else, with a value that fits in 64 bits.
pub open spec fn line_number(line: Seq<u8>) -> Option<u64> {
    if line.len() > 0 && all_digits(line) && digits_value(line) <= u64::MAX {
        Some(digits_value(line) as u64)
    } else {
        None
    }
}

/// The decimal digits of `n`, without leading zeros.
pub open spec fn decimal(n: nat) -> Seq<u8>
    decreases n,
{
    if n < 10 {
        seq![(48 + n) as u8]
    } else {
        decimal(n / 10).push((48 + n % 10) as u8)
    }
}

/// The bytes that encode a frame on the wire.
pub open spec fn wire(f: FrameView) -> Seq<u8>
    decreases f,
{
    match f {
        FrameView::Simple(s) => seq![43u8] + s + crlf(),
        FrameView::Error(s) => seq![45u8] + s + crlf(),
        FrameView::Integer(n) => seq![58u8] + decimal(n as nat) + crlf(),
        FrameView::Null => seq![36u8, 45u8, 49u8, 13u8, 10u8],
        FrameView::Bulk(b) => seq![36u8] + decimal(b.len()) + crlf() + b + crlf(),
        FrameView::Array(xs) => seq![42u8] + decimal(xs.len()) + crlf() + wire_all(xs),
    }
}

/// The encodings of a sequence of frames, one after the other.
pub open spec fn wire_all(xs: Seq<FrameView>) -> Seq<u8>
    decreases xs,
{
    if xs.len() == 0 {
        seq![]
    } else {
        wire_all(xs.subrange(0, xs.len() - 1)) + wire(xs[xs.len() - 1])
    }
}

/// A line of text: no carriage return and no line feed in it.
pub open spec fn is_text(s: Seq<u8>) -> bool {
    forall|i: int| 0 <= i < s.len() ==> #[trigger] s[i] != 13u8 && s[i] != 10u8
}

/// A frame that the wire format can carry: simple and error text hold no
/// line break, and every length fits in 64 bits, at every depth.
pub open spec fn valid(f: FrameView) -> bool
    decreases f,
{
    match f {
        FrameView::Simple(s) => is_text(s),
        FrameView::Error(s) => is_text(s),
        FrameView::Bulk(b) => b.len() <= u64::MAX,
        FrameView::Array(xs) => xs.len() <= u64::MAX && valid_all(xs),
        _ => true,
    }
}

pub open spec fn valid_all(xs: Seq<FrameView>) -> bool
    decreases xs,
{
    xs.len() == 0 || (valid_all(xs.subrange(0, xs.len() - 1)) && valid(xs[xs.len() - 1]))
}

/// The outcome of decoding the frame at the start of a buffer.
pub enum Decoded {
    /// A whole frame, and the number of bytes it takes.
    Done(FrameView, nat),
    /// The buffer ends before the frame does.
    Incomplete,
    /// The bytes break the grammar.
    Invalid,
}

/// The outcome of decoding a number of frames one after the other.
pub enum DecodedAll {
    Done(Seq<FrameView>, nat),
    Incomplete,
    Invalid,
}

/// The grammar of the wire format, read from the start of `b`.
pub open spec fn decode(b: Seq<u8>) -> Decoded
    decreases b.len(), 0nat,
{
    if b.len() == 0 {
        Decoded::Incomplete
    } else {
        let t = b[0];
        let rest = b.subrange(1, b.len() as int);
        if t == 43u8 || t == 45u8 {
            match line_len(rest) {
                None => Decoded::Incomplete,
                Some(n) => {
                    let s = rest.subrange(0, n as int);
                    Decoded::Done(
                        if t == 43u8 { FrameView::Simple(s) } else { FrameView::Error(s) },
                        n + 3,
                    )
                },
            }
        } else if t == 58u8 {
            match line_len(rest) {
                None => Decoded::Incomplete,
                Some(n) => match line_number(rest.subrange(0, n as int)) {
                    None => Decoded::Invalid,
                    Some(v) => Decoded::Done(FrameView::Integer(v), n + 3),
                },
            }
        } else if t == 36u8 {
            if rest.len() == 0 {
                Decoded::Incomplete
            } else if rest[0] == 45u8 {
                match line_len(rest) {
                    None => Decoded::Incomplete,
                    Some(n) => if rest.subrange(0, n as int) == seq![45u8, 49u8] {
                        Decoded::Done(FrameView::Null, 5)
                    } else {
                        Decoded::Invalid
                    },
                }
            } else {
                match line_len(rest) {
                    None => Decoded::Incomplete,
                    Some(n) => match line_number(rest.subrange(0, n as int)) {
                        None => Decoded::Invalid,
                        Some(len) => {
                            let h = n + 3;
                            if b.len() < h + len + 2 {
                                Decoded::Incomplete
                            } else {
                                Decoded::Done(
                                    FrameView::Bulk(b.subrange(h as int, h + len)),
                                    (h + len + 2) as nat,
                                )
                            }
                        },
                    },
                }
            }
        } else if t == 42u8 {
            match line_len(rest) {
                None => Decoded::Incomplete,
                Some(n) => match line_number(rest.subrange(0, n as int)) {
                    None => Decoded::Invalid,
                    Some(k) => {
                        let h = n + 3;
                        if h > b.len() {
                            Decoded::Invalid
                        } else {
                        match decode_all(b.subrange(h as int, b.len() as int), k as nat) {
                            DecodedAll::Done(xs, m) => Decoded::Done(FrameView::Array(xs), h + m),
                            DecodedAll::Incomplete => Decoded::Incomplete,
                            DecodedAll::Invalid => Decoded::Invalid,
                        }
                        }
                    },
                },
            }
        } else {
            Decoded::Invalid
        }
    }
}

/// Decodes `k` frames one after the other from the start of `b`.
pub open spec fn decode_all(b: Seq<u8>, k: nat) -> DecodedAll
    decreases b.len(), 1nat,
{
    if k == 0 {
        DecodedAll::Done(seq![], 0)
    } else {
        match decode(b) {
            Decoded::Done(f, n) => if 1 <= n <= b.len() {
                prepend(seq![f], n, decode_all(b.subrange(n as int, b.len() as int), (k - 1) as nat))
            } else {
                DecodedAll::Invalid
            },
            Decoded::Incomplete => DecodedAll::Incomplete,
            Decoded::Invalid => DecodedAll::Invalid,
        }
    }
}

/// Puts frames already decoded, and the bytes they took, in front of the
/// outcome of decoding the rest.
pub open spec fn prepend(fs: Seq<FrameView>, n: nat, r: DecodedAll) -> DecodedAll {
    match r {
        DecodedAll::Done(xs, m) => DecodedAll::Done(fs + xs, n + m),
        other => other,
    }
}

/// The bytes of `src` from `pos` on.
pub open spec fn rest_of(src: Seq<u8>, pos: int) -> Seq<u8> {
    src.subrange(pos, src.len() as int)
}

/// Why a buffer does not yield a frame.
#[derive(Debug)]
pub enum Error {
    /// Not enough data has been buffered to decode a whole frame.
    Incomplete,
    /// The data breaks the grammar of the protocol.
    Other(String),
}

pub open spec fn is_incomplete<T>(r: Result<T, Error>) -> bool {
    r matches Err(Error::Incomplete)
}

pub open spec fn is_invalid<T>(r: Result<T, Error>) -> bool {
    r matches Err(Error::Other(_))
}

fn protocol_error() -> (e: Error)
    ensures
        e is Other,
{
    Error::Other("protocol error: invalid frame format".to_string())
}

/// The line at the start of `b` ends at its first terminator.
pub proof fn lemma_line_len(b: Seq<u8>)
    ensures
        match line_len(b) {
            Some(n) => n + 2 <= b.len() && crlf_at(b, n as int) && forall|j: int|
                0 <= j < n ==> !crlf_at(b, j),
            None => forall|j: int| !crlf_at(b, j),
        },
    decreases b.len(),
{
    if b.len() >= 2 && !(b[0] == 13u8 && b[1] == 10u8) {
        let r = b.subrange(1, b.len() as int);
        lemma_line_len(r);
        assert forall|j: int| 1 <= j && crlf_at(b, j) implies crlf_at(r, j - 1) by {}
        assert(!crlf_at(b, 0));
    }
}

/// A terminator at `n` with none before it ends the line at `n`.
pub proof fn lemma_line_len_at(b: Seq<u8>, n: int)
    requires
        crlf_at(b, n),
        forall|j: int| 0 <= j < n ==> !crlf_at(b, j),
    ensures
        line_len(b) == Some(n as nat),
{
    lemma_line_len(b);
}

/// Reads the byte at `*pos` and moves past it.
pub fn get_u8(src: &[u8], pos: &mut usize) -> (r: Result<u8, Error>)
    requires
        *old(pos) <= src@.len(),
    ensures
        *old(pos) < src@.len() ==> r == Ok::<u8, Error>(src@[*old(pos) as int]) && *final(pos)
            == *old(pos) + 1,
        *old(pos) == src@.len() ==> is_incomplete(r) && *final(pos) == *old(pos),
{
    if *pos >= src.len() {
        return Err(Error::Incomplete);
    }
    let b = src[*pos];
    *pos = *pos + 1;
    Ok(b)
}

/// Reads the byte at `pos` without moving past it.
pub fn peek_u8(src: &[u8], pos: usize) -> (r: Result<u8, Error>)
    requires
        pos <= src@.len(),
    ensures
        pos < src@.len() ==> r == Ok::<u8, Error>(src@[pos as int]),
        pos == src@.len() ==> is_incomplete(r),
{
    if pos >= src.len() {
        return Err(Error::Incomplete);
    }
    Ok(src[pos])
}

/// Moves `n` bytes on, when the buffer holds them.
pub fn skip(src: &[u8], pos: &mut usize, n: usize) -> (r: Result<(), Error>)
    requires
        *old(pos) <= src@.len(),
    ensures
        *old(pos) + n <= src@.len() ==> r is Ok && *final(pos) == *old(pos) + n,
        *old(pos) + n > src@.len() ==> is_incomplete(r) && *final(pos) == *old(pos),
{
    if src.len() - *pos < n {
        return Err(Error::Incomplete);
    }
    *pos = *pos + n;
    Ok(())
}

/// Reads the line that starts at `*pos` and moves past its terminator.
pub fn get_line<'a>(src: &'a [u8], pos: &mut usize) -> (r: Result<&'a [u8], Error>)
    requires
        *old(pos) <= src@.len(),
    ensures
        match line_len(rest_of(src@, *old(pos) as int)) {
            Some(n) => r is Ok && r->Ok_0@ == rest_of(src@, *old(pos) as int).subrange(0, n as int)
                && *final(pos) == *old(pos) + n + 2,
            None => is_incomplete(r) && *final(pos) == *old(pos),
        },
{
    let start = *pos;
    let ghost rest = rest_of(src@, start as int);
    let mut i = start;
    while i < src.len() && src.len() - i >= 2
        invariant
            start <= i <= src@.len(),
            start == *pos,
            *pos == *old(pos),
            rest == rest_of(src@, start as int),
            forall|j: int| start <= j < i ==> !crlf_at(src@, j),
        decreases src@.len() - i,
    {
        if src[i] == 13u8 && src[i + 1] == 10u8 {
            proof {
                assert forall|j: int| 0 <= j < i - start implies !crlf_at(rest, j) by {
                    assert(!crlf_at(src@, start + j));
                }
                assert(crlf_at(rest, i - start));
                lemma_line_len_at(rest, i - start);
            }
            *pos = i + 2;
            let line = vstd::slice::slice_subrange(src, start, i);
            assert(line@ =~= rest.subrange(0, i - start));
            return Ok(line);
        }
        i = i + 1;
    }
    proof {
        assert forall|j: int| !crlf_at(rest, j) by {
            if crlf_at(rest, j) {
                assert(crlf_at(src@, start + j));
            }
        }
        lemma_line_len(rest);
        if line_len(rest) is Some {
            assert(crlf_at(rest, line_len(rest)->0 as int));
        }
    }
    Err(Error::Incomplete)
}

/// Relies on atoi's `FromRadix10Checked::from_radix_10_checked` for `u64`:
/// it reads the run of decimal digits at the start of `text` and gives
/// their value, or `None` where the value does not fit, with the number of
/// digits read.
#[verifier::external_body]
fn leading_decimal(text: &[u8]) -> (r: (Option<u64>, usize))
    ensures
        r.1 <= text@.len(),
        all_digits(text@.subrange(0, r.1 as int)),
        r.1 < text@.len() ==> !is_digit(text@[r.1 as int]),
        r.0 == (if digits_value(text@.subrange(0, r.1 as int)) <= u64::MAX {
            Some(digits_value(text@.subrange(0, r.1 as int)) as u64)
        } else {
            None::<u64>
        }),
{
    <u64 as atoi::FromRadix10Checked>::from_radix_10_checked(text)
}

/// Reads `text` as an unsigned decimal number: one or more digits and
/// nothing else, with a value that fits in 64 bits.
pub fn parse_decimal(text: &[u8]) -> (r: Option<u64>)
    ensures
        r == line_number(text@),
{
    let (value, used) = leading_decimal(text);
    if used == 0 || used != text.len() {
        proof {
            if used != text.len() {
                assert(!all_digits(text@));
            }
        }
        return None;
    }
    assert(text@.subrange(0, used as int) =~= text@);
    value
}

/// Reads a header line that holds an unsigned decimal number.
pub fn get_decimal(src: &[u8], pos: &mut usize) -> (r: Result<u64, Error>)
    requires
        *old(pos) <= src@.len(),
    ensures
        match line_len(rest_of(src@, *old(pos) as int)) {
            Some(n) => *final(pos) == *old(pos) + n + 2 && match line_number(
                rest_of(src@, *old(pos) as int).subrange(0, n as int),
            ) {
                Some(v) => r == Ok::<u64, Error>(v),
                None => is_invalid(r),
            },
            None => is_incomplete(r) && *final(pos) == *old(pos),
        },
{
    let line = get_line(src, pos)?;
    match parse_decimal(line) {
        Some(v) => Ok(v),
        None => Err(protocol_error()),
    }
}

/// The models of a sequence of frames.
pub open spec fn views(v: Seq<Frame>) -> Seq<FrameView> {
    Seq::new(v.len(), |i: int| v[i]@)
}

proof fn lemma_prepend_empty(r: DecodedAll)
    ensures
        prepend(seq![], 0, r) == r,
{
    if let DecodedAll::Done(xs, m) = r {
        assert(seq![] + xs =~= xs);
    }
}

proof fn lemma_prepend_push(fs: Seq<FrameView>, n: nat, f: FrameView, m: nat, r: DecodedAll)
    ensures
        prepend(fs, n, prepend(seq![f], m, r)) == prepend(fs.push(f), n + m, r),
{
    if let DecodedAll::Done(xs, k) = r {
        assert(fs + (seq![f] + xs) =~= fs.push(f) + xs);
    }
}

/// What decoding an array gives, from what decoding its elements gives
/// after a header of `h` bytes.
pub open spec fn array_outcome(r: DecodedAll, h: nat) -> Decoded {
    match r {
        DecodedAll::Done(xs, m) => Decoded::Done(FrameView::Array(xs), h + m),
        DecodedAll::Incomplete => Decoded::Incomplete,
        DecodedAll::Invalid => Decoded::Invalid,
    }
}

/// The model of an array frame is the array of its elements' models.
pub proof fn lemma_array_view(v: Vec<Frame>)
    ensures
        Frame::Array(v)@ == FrameView::Array(views(v@)),
{
    let a = Frame::Array(v);
    assert(a@->Array_0 =~= views(v@));
}

/// Decodes the frame that starts at `pos`; gives the frame and the
/// position right after it.
fn parse_at(src: &[u8], pos: usize) -> (r: Result<(Frame, usize), Error>)
    requires
        pos <= src@.len(),
    ensures
        match decode(rest_of(src@, pos as int)) {
            Decoded::Done(f, n) => r is Ok && r->Ok_0.0@ == f && r->Ok_0.1 == pos + n,
            Decoded::Incomplete => is_incomplete(r),
            Decoded::Invalid => is_invalid(r),
        },
        r is Ok ==> pos < r->Ok_0.1 <= src@.len(),
    decreases src@.len() - pos,
{
    let ghost b = rest_of(src@, pos as int);
    let mut p = pos;
    let t = get_u8(src, &mut p)?;
    assert(rest_of(src@, p as int) =~= b.subrange(1, b.len() as int));
    proof {
        lemma_line_len(rest_of(src@, p as int));
    }
    if t == 43u8 || t == 45u8 {
        let line = get_line(src, &mut p)?;
        let text = vstd::slice::slice_to_vec(line);
        let f = if t == 43u8 {
            Frame::Simple(text)
        } else {
            Frame::Error(text)
        };
        Ok((f, p))
    } else if t == 58u8 {
        let n = get_decimal(src, &mut p)?;
        Ok((Frame::Integer(n), p))
    } else if t == 36u8 {
        let c = peek_u8(src, p)?;
        if c == 45u8 {
            let line = get_line(src, &mut p)?;
            if line.len() == 2 && line[0] == 45u8 && line[1] == 49u8 {
                assert(line@ =~= seq![45u8, 49u8]);
                Ok((Frame::Null, p))
            } else {
                assert(line@ != seq![45u8, 49u8]);
                Err(protocol_error())
            }
        } else {
            let len = get_decimal(src, &mut p)?;
            let remaining = src.len() - p;
            if remaining < 2 || ((remaining - 2) as u64) < len {
                return Err(Error::Incomplete);
            }
            let len = len as usize;
            let data = vstd::slice::slice_to_vec(vstd::slice::slice_subrange(src, p, p + len));
            assert(data@ =~= b.subrange((p - pos) as int, (p - pos) + len));
            Ok((Frame::Bulk(data), p + len + 2))
        }
    } else if t == 42u8 {
        let k = get_decimal(src, &mut p)?;
        let h = p;
        assert(b.subrange((h - pos) as int, b.len() as int) =~= rest_of(src@, h as int));
        proof {
            let rest = b.subrange(1, b.len() as int);
            let n = (h - pos - 3) as nat;
            assert(line_len(rest) == Some(n));
            assert(line_number(rest.subrange(0, n as int)) == Some(k));
        }
        assert(decode(b) == array_outcome(decode_all(rest_of(src@, h as int), k as nat), (h - pos) as nat));
        let mut items: Vec<Frame> = Vec::new();
        let mut i: u64 = 0;
        proof {
            lemma_prepend_empty(decode_all(rest_of(src@, h as int), k as nat));
            assert(views(items@) =~= seq![]);
        }
        while i < k
            invariant
                pos < h <= p <= src@.len(),
                i <= k,
                b == rest_of(src@, pos as int),
                decode(b) == array_outcome(decode_all(rest_of(src@, h as int), k as nat), (h - pos) as nat),
                decode_all(rest_of(src@, h as int), k as nat) == prepend(
                    views(items@),
                    (p - h) as nat,
                    decode_all(rest_of(src@, p as int), (k - i) as nat),
                ),
            decreases k - i,
        {
            let ghost old_items = views(items@);
            let (f, np) = match parse_at(src, p) {
                Ok(x) => x,
                Err(e) => {
                    proof {
                        let rp = rest_of(src@, p as int);
                        let rh = rest_of(src@, h as int);
                        if decode(rp) is Incomplete {
                            assert(decode_all(rp, (k - i) as nat) == DecodedAll::Incomplete);
                            assert(decode_all(rh, k as nat) == DecodedAll::Incomplete);
                            assert(decode(b) == Decoded::Incomplete);
                        } else {
                            assert(decode_all(rp, (k - i) as nat) == DecodedAll::Invalid);
                            assert(decode_all(rh, k as nat) == DecodedAll::Invalid);
                            assert(decode(b) == Decoded::Invalid);
                        }
                    }
                    return Err(e);
                },
            };
            proof {
                let n = (np - p) as nat;
                assert(rest_of(src@, p as int).subrange(n as int, rest_of(src@, p as int).len() as int)
                    =~= rest_of(src@, np as int));
                lemma_prepend_push(
                    old_items,
                    (p - h) as nat,
                    f@,
                    n,
                    decode_all(rest_of(src@, np as int), (k - i - 1) as nat),
                );
            }
            items.push(f);
            assert(views(items@) =~= old_items.push(f@));
            p = np;
            i = i + 1;
        }
        let ghost iv = items@;
        let ghost xs = views(iv);
        assert(xs + seq![] =~= xs);
        let a = Frame::Array(items);
        proof {
            lemma_array_view(a->Array_0);
        }
        Ok((a, p))
    } else {
        Err(protocol_error())
    }
}

impl Frame {
    /// Decodes the frame at the start of `src`, with the number of bytes
    /// it takes.
    pub fn parse(src: &[u8]) -> (r: Result<(Frame, usize), Error>)
        ensures
            match decode(src@) {
                Decoded::Done(f, n) => r is Ok && r->Ok_0.0@ == f && r->Ok_0.1 == n,
                Decoded::Incomplete => is_incomplete(r),
                Decoded::Invalid => is_invalid(r),
            },
            r is Ok ==> 0 < r->Ok_0.1 <= src@.len(),
    {
        assert(rest_of(src@, 0) =~= src@);
        parse_at(src, 0)
    }
}

/// Moves past the frame that starts at `pos` without building it, and
/// gives the position right after it.
fn check_at(src: &[u8], pos: usize) -> (r: Result<usize, Error>)
    requires
        pos <= src@.len(),
    ensures
        match decode(rest_of(src@, pos as int)) {
            Decoded::Done(f, n) => r is Ok && r->Ok_0 == pos + n,
            Decoded::Incomplete => is_incomplete(r),
            Decoded::Invalid => is_invalid(r),
        },
        r is Ok ==> pos < r->Ok_0 <= src@.len(),
    decreases src@.len() - pos,
{
    let ghost b = rest_of(src@, pos as int);
    let mut p = pos;
    let t = get_u8(src, &mut p)?;
    assert(rest_of(src@, p as int) =~= b.subrange(1, b.len() as int));
    proof {
        lemma_line_len(rest_of(src@, p as int));
    }
    if t == 43u8 || t == 45u8 {
        get_line(src, &mut p)?;
        Ok(p)
    } else if t == 58u8 {
        get_decimal(src, &mut p)?;
        Ok(p)
    } else if t == 36u8 {
        let c = peek_u8(src, p)?;
        if c == 45u8 {
            let line = get_line(src, &mut p)?;
            if line.len() == 2 && line[0] == 45u8 && line[1] == 49u8 {
                assert(line@ =~= seq![45u8, 49u8]);
                Ok(p)
            } else {
                assert(line@ != seq![45u8, 49u8]);
                Err(protocol_error())
            }
        } else {
            let len = get_decimal(src, &mut p)?;
            let remaining = src.len() - p;
            if remaining < 2 || ((remaining - 2) as u64) < len {
                return Err(Error::Incomplete);
            }
            let len = len as usize;
            Ok(p + len + 2)
        }
    } else if t == 42u8 {
        let k = get_decimal(src, &mut p)?;
        let h = p;
        assert(b.subrange((h - pos) as int, b.len() as int) =~= rest_of(src@, h as int));
        proof {
            let rest = b.subrange(1, b.len() as int);
            let n = (h - pos - 3) as nat;
            assert(line_len(rest) == Some(n));
            assert(line_number(rest.subrange(0, n as int)) == Some(k));
        }
        assert(decode(b) == array_outcome(decode_all(rest_of(src@, h as int), k as nat), (h - pos) as nat));
        let ghost items: Seq<FrameView> = seq![];
        let mut i: u64 = 0;
        proof {
            lemma_prepend_empty(decode_all(rest_of(src@, h as int), k as nat));
        }
        while i < k
            invariant
                pos < h <= p <= src@.len(),
                i <= k,
                b == rest_of(src@, pos as int),
                decode(b) == array_outcome(decode_all(rest_of(src@, h as int), k as nat), (h - pos) as nat),
                decode_all(rest_of(src@, h as int), k as nat) == prepend(
                    items,
                    (p - h) as nat,
                    decode_all(rest_of(src@, p as int), (k - i) as nat),
                ),
            decreases k - i,
        {
            let np = match check_at(src, p) {
                Ok(x) => x,
                Err(e) => {
                    proof {
                        let rp = rest_of(src@, p as int);
                        let rh = rest_of(src@, h as int);
                        if decode(rp) is Incomplete {
                            assert(decode_all(rp, (k - i) as nat) == DecodedAll::Incomplete);
                            assert(decode_all(rh, k as nat) == DecodedAll::Incomplete);
                        } else {
                            assert(decode_all(rp, (k - i) as nat) == DecodedAll::Invalid);
                            assert(decode_all(rh, k as nat) == DecodedAll::Invalid);
                        }
                    }
                    return Err(e);
                },
            };
            proof {
                let n = (np - p) as nat;
                let rp = rest_of(src@, p as int);
                let f = decode(rp)->Done_0;
                assert(decode(rp) == Decoded::Done(f, n));
                assert(rp.subrange(n as int, rp.len() as int) =~= rest_of(src@, np as int));
                assert(decode_all(rp, (k - i) as nat) == prepend(
                    seq![f],
                    n,
                    decode_all(rest_of(src@, np as int), (k - i - 1) as nat),
                ));
                lemma_prepend_push(
                    items,
                    (p - h) as nat,
                    f,
                    n,
                    decode_all(rest_of(src@, np as int), (k - i - 1) as nat),
                );
                items = items.push(f);
            }
            p = np;
            i = i + 1;
        }
        assert(items + seq![] =~= items);
        Ok(p)
    } else {
        Err(protocol_error())
    }
}

impl Frame {
    /// Finds the length of the frame at the start of `src` without
    /// building it.
    pub fn check(src: &[u8]) -> (r: Result<usize, Error>)
        ensures
            match decode(src@) {
                Decoded::Done(f, n) => r is Ok && r->Ok_0 == n,
                Decoded::Incomplete => is_incomplete(r),
                Decoded::Invalid => is_invalid(r),
            },
            r is Ok ==> 0 < r->Ok_0 <= src@.len(),
    {
        assert(rest_of(src@, 0) =~= src@);
        check_at(src, 0)
    }
}

/// No carriage return in `s`.
pub open spec fn no_cr(s: Seq<u8>) -> bool {
    forall|i: int| 0 <= i < s.len() ==> #[trigger] s[i] != 13u8
}

/// The digits of a number read back as that number.
pub proof fn lemma_decimal(n: nat)
    ensures
        decimal(n).len() >= 1,
        all_digits(decimal(n)),
        no_cr(decimal(n)),
        digits_value(decimal(n)) == n,
    decreases n,
{
    if n >= 10 {
        lemma_decimal(n / 10);
        let d = decimal(n);
        assert(d.subrange(0, d.len() - 1) =~= decimal(n / 10));
        assert(d[d.len() - 1] == (48 + n % 10) as u8);
        assert((d[d.len() - 1] - 48u8) as nat == n % 10);
        assert(digits_value(d) == digits_value(decimal(n / 10)) * 10 + n % 10);
        assert(n == (n / 10) * 10 + n % 10);
    } else {
        let d = decimal(n);
        assert(d.subrange(0, 0) =~= Seq::<u8>::empty());
        assert(digits_value(d) == digits_value(d.subrange(0, 0)) * 10 + (d[0] - 48u8) as nat);
    }
}

/// A header number written in decimal reads back as itself.
pub proof fn lemma_line_number(n: u64)
    ensures
        line_number(decimal(n as nat)) == Some(n),
{
    lemma_decimal(n as nat);
}

/// A line of `s` followed by a terminator ends where `s` ends.
pub proof fn lemma_line_of(s: Seq<u8>, t: Seq<u8>)
    requires
        no_cr(s),
    ensures
        line_len(s + crlf() + t) == Some(s.len()),
        (s + crlf() + t).subrange(0, s.len() as int) == s,
{
    let b = s + crlf() + t;
    assert(crlf_at(b, s.len() as int));
    assert forall|j: int| 0 <= j < s.len() implies !crlf_at(b, j) by {
        assert(b[j] == s[j]);
    }
    lemma_line_len_at(b, s.len() as int);
    assert(b.subrange(0, s.len() as int) =~= s);
}

/// The encoding of a sequence of frames, read from its first frame on.
pub proof fn lemma_wire_all_front(xs: Seq<FrameView>)
    requires
        xs.len() > 0,
    ensures
        wire_all(xs) == wire(xs[0]) + wire_all(xs.subrange(1, xs.len() as int)),
        valid_all(xs) == (valid(xs[0]) && valid_all(xs.subrange(1, xs.len() as int))),
    decreases xs.len(),
{
    let tail = xs.subrange(1, xs.len() as int);
    if xs.len() == 1 {
        assert(xs.subrange(0, 0) =~= seq![]);
        assert(tail =~= seq![]);
        assert(wire(xs[0]) + seq![] =~= wire(xs[0]));
        assert(seq![] + wire(xs[0]) =~= wire(xs[0]));
    } else {
        let init = xs.subrange(0, xs.len() - 1);
        lemma_wire_all_front(init);
        assert(init.subrange(1, init.len() as int) =~= tail.subrange(0, tail.len() - 1));
        assert(init[0] == xs[0]);
        assert(tail[tail.len() - 1] == xs[xs.len() - 1]);
        assert(wire(xs[0]) + wire_all(tail.subrange(0, tail.len() - 1)) + wire(xs[xs.len() - 1])
            =~= wire(xs[0]) + (wire_all(tail.subrange(0, tail.len() - 1)) + wire(xs[xs.len() - 1])));
    }
}

proof fn lemma_round_trip_line(t: u8, s: Seq<u8>, rest: Seq<u8>)
    requires
        t == 43u8 || t == 45u8,
        is_text(s),
    ensures
        decode(seq![t] + s + crlf() + rest) == Decoded::Done(
            if t == 43u8 { FrameView::Simple(s) } else { FrameView::Error(s) },
            s.len() + 3,
        ),
{
    let b = seq![t] + s + crlf() + rest;
    assert(b.subrange(1, b.len() as int) =~= s + crlf() + rest);
    lemma_line_of(s, rest);
}

proof fn lemma_round_trip_integer(n: u64, rest: Seq<u8>)
    ensures
        decode(seq![58u8] + decimal(n as nat) + crlf() + rest) == Decoded::Done(
            FrameView::Integer(n),
            decimal(n as nat).len() + 3,
        ),
{
    let b = seq![58u8] + decimal(n as nat) + crlf() + rest;
    lemma_decimal(n as nat);
    lemma_line_number(n);
    assert(b.subrange(1, b.len() as int) =~= decimal(n as nat) + crlf() + rest);
    lemma_line_of(decimal(n as nat), rest);
}

proof fn lemma_round_trip_null(rest: Seq<u8>)
    ensures
        decode(seq![36u8, 45u8, 49u8, 13u8, 10u8] + rest) == Decoded::Done(FrameView::Null, 5),
{
    let b = seq![36u8, 45u8, 49u8, 13u8, 10u8] + rest;
    assert(b.subrange(1, b.len() as int) =~= seq![45u8, 49u8] + crlf() + rest);
    lemma_line_of(seq![45u8, 49u8], rest);
}

proof fn lemma_round_trip_bulk(data: Seq<u8>, rest: Seq<u8>)
    requires
        data.len() <= u64::MAX,
    ensures
        decode(seq![36u8] + decimal(data.len()) + crlf() + data + crlf() + rest) == Decoded::Done(
            FrameView::Bulk(data),
            decimal(data.len()).len() + 3 + data.len() + 2,
        ),
{
    let d = decimal(data.len());
    let b = seq![36u8] + d + crlf() + data + crlf() + rest;
    let tail = b.subrange(1, b.len() as int);
    lemma_decimal(data.len());
    lemma_line_number(data.len() as u64);
    assert(tail =~= d + crlf() + (data + crlf() + rest));
    lemma_line_of(d, data + crlf() + rest);
    assert(tail[0] == d[0]);
    let h = d.len() + 3;
    assert(b.subrange(h as int, (h + data.len()) as int) =~= data);
}

proof fn lemma_round_trip_array(xs: Seq<FrameView>, rest: Seq<u8>)
    requires
        xs.len() <= u64::MAX,
        decode_all(wire_all(xs) + rest, xs.len()) == DecodedAll::Done(xs, wire_all(xs).len()),
    ensures
        decode(seq![42u8] + decimal(xs.len()) + crlf() + wire_all(xs) + rest) == Decoded::Done(
            FrameView::Array(xs),
            decimal(xs.len()).len() + 3 + wire_all(xs).len(),
        ),
{
    let d = decimal(xs.len());
    let b = seq![42u8] + d + crlf() + wire_all(xs) + rest;
    lemma_decimal(xs.len());
    lemma_line_number(xs.len() as u64);
    assert(b.subrange(1, b.len() as int) =~= d + crlf() + (wire_all(xs) + rest));
    lemma_line_of(d, wire_all(xs) + rest);
    let h = d.len() + 3;
    assert(b.subrange(h as int, b.len() as int) =~= wire_all(xs) + rest);
}

/// Decoding the encoding of a valid frame gives the frame back, whatever
/// bytes follow it.
pub proof fn law_frame_round_trip(f: FrameView, rest: Seq<u8>)
    requires
        valid(f),
    ensures
        decode(wire(f) + rest) == Decoded::Done(f, wire(f).len()),
    decreases f,
{
    match f {
        FrameView::Simple(s) => {
            assert(wire(f) + rest =~= seq![43u8] + s + crlf() + rest);
            lemma_round_trip_line(43u8, s, rest);
        },
        FrameView::Error(s) => {
            assert(wire(f) + rest =~= seq![45u8] + s + crlf() + rest);
            lemma_round_trip_line(45u8, s, rest);
        },
        FrameView::Integer(n) => {
            assert(wire(f) + rest =~= seq![58u8] + decimal(n as nat) + crlf() + rest);
            lemma_round_trip_integer(n, rest);
        },
        FrameView::Null => {
            lemma_round_trip_null(rest);
        },
        FrameView::Bulk(data) => {
            assert(wire(f) + rest =~= seq![36u8] + decimal(data.len()) + crlf() + data + crlf() + rest);
            lemma_round_trip_bulk(data, rest);
        },
        FrameView::Array(xs) => {
            lemma_round_trip_all(xs, rest);
            assert(wire(f) + rest =~= seq![42u8] + decimal(xs.len()) + crlf() + wire_all(xs) + rest);
            lemma_round_trip_array(xs, rest);
        },
    }
}

/// Decoding the encodings of valid frames, one after the other, gives the
/// frames back.
pub proof fn lemma_round_trip_all(xs: Seq<FrameView>, rest: Seq<u8>)
    requires
        valid_all(xs),
    ensures
        decode_all(wire_all(xs) + rest, xs.len()) == DecodedAll::Done(xs, wire_all(xs).len()),
    decreases xs,
{
    if xs.len() == 0 {
        assert(xs =~= seq![]);
    } else {
        let tail = xs.subrange(1, xs.len() as int);
        lemma_wire_all_front(xs);
        let b = wire_all(xs) + rest;
        assert(b =~= wire(xs[0]) + (wire_all(tail) + rest));
        law_frame_round_trip(xs[0], wire_all(tail) + rest);
        let n = wire(xs[0]).len();
        assert(b.subrange(n as int, b.len() as int) =~= wire_all(tail) + rest);
        lemma_round_trip_all(tail, rest);
        assert(seq![xs[0]] + tail =~= xs);
    }
}

impl Frame {
    /// An empty array frame.
    pub fn array() -> (r: Frame)
        ensures
            r@ == FrameView::Array(seq![]),
    {
        let v: Vec<Frame> = Vec::new();
        proof {
            lemma_array_view(v);
            assert(views(v@) =~= seq![]);
        }
        Frame::Array(v)
    }

    /// Appends a bulk frame to an array frame.
    pub fn push_bulk(&mut self, bytes: Vec<u8>)
        requires
            old(self)@ is Array,
        ensures
            final(self)@ == FrameView::Array(old(self)@->Array_0.push(FrameView::Bulk(bytes@))),
    {
        self.push_frame(Frame::Bulk(bytes));
    }

    /// Appends an integer frame to an array frame.
    pub fn push_int(&mut self, value: u64)
        requires
            old(self)@ is Array,
        ensures
            final(self)@ == FrameView::Array(old(self)@->Array_0.push(FrameView::Integer(value))),
    {
        self.push_frame(Frame::Integer(value));
    }

    fn push_frame(&mut self, f: Frame)
        requires
            old(self)@ is Array,
        ensures
            final(self)@ == FrameView::Array(old(self)@->Array_0.push(f@)),
    {
        let ghost fv = f@;
        match self {
            Frame::Array(v) => {
                proof {
                    lemma_array_view(*v);
                }
                let ghost before = views(v@);
                v.push(f);
                proof {
                    lemma_array_view(*v);
                    assert(views(v@) =~= before.push(fv));
                }
            },
            _ => {},
        }
    }

    /// Whether the frame is a simple, error or bulk frame that carries the
    /// UTF-8 bytes of `text`.
    pub fn eq_text(&self, text: &str) -> (r: bool)
        ensures
            r == match self@ {
                FrameView::Simple(b) => b == text.spec_bytes(),
                FrameView::Error(b) => b == text.spec_bytes(),
                FrameView::Bulk(b) => b == text.spec_bytes(),
                _ => false,
            },
    {
        match self {
            Frame::Simple(b) => same_bytes(b.as_slice(), text.as_bytes()),
            Frame::Error(b) => same_bytes(b.as_slice(), text.as_bytes()),
            Frame::Bulk(b) => same_bytes(b.as_slice(), text.as_bytes()),
            _ => false,
        }
    }
}

fn same_bytes(a: &[u8], b: &[u8]) -> (r: bool)
    ensures
        r == (a@ == b@),
{
    if a.len() != b.len() {
        return false;
    }
    let mut i: usize = 0;
    while i < a.len()
        invariant
            a@.len() == b@.len(),
            i <= a@.len(),
            forall|j: int| 0 <= j < i ==> a@[j] == b@[j],
        decreases a@.len() - i,
    {
        if a[i] != b[i] {
            return false;
        }
        i = i + 1;
    }
    assert(a@ =~= b@);
    true
}

} // verus!
