//! The byte side of a connection: a read buffer that yields whole frames,
//! and an output buffer that frames are encoded into. The program that owns
//! the socket feeds the first and drains the second.
use crate::frame::{
    crlf, decimal, decode, lemma_array_view, views, wire, wire_all, Decoded, Error, Frame,
    FrameView,
};
use vstd::prelude::*;

verus! {

broadcast use vstd::seq::group_seq_axioms;

/// The capacity that the read buffer starts with.
pub const INITIAL_BUFFER: usize = 4096;

/// A connection's buffers.
pub struct Connection {
    buffer: Vec<u8>,
    output: Vec<u8>,
}

/// The model of a connection: the bytes received and not yet decoded, and
/// the bytes encoded and not yet sent.
pub struct ConnectionView {
    pub buffered: Seq<u8>,
    pub pending: Seq<u8>,
}

impl View for Connection {
    type V = ConnectionView;

    closed spec fn view(&self) -> ConnectionView {
        ConnectionView { buffered: self.buffer@, pending: self.output@ }
    }
}

/// Appends the decimal digits of `n`.
pub(crate) fn push_decimal(out: &mut Vec<u8>, n: u64)
    ensures
        final(out)@ == old(out)@ + decimal(n as nat),
    decreases n,
{
    if n >= 10 {
        push_decimal(out, n / 10);
    }
    out.push((48 + n % 10) as u8);
    proof {
        if n >= 10 {
            assert(decimal(n as nat) == decimal((n / 10) as nat).push((48 + n % 10) as u8));
        }
    }
}

pub(crate) fn push_all(out: &mut Vec<u8>, bytes: &[u8])
    ensures
        final(out)@ == old(out)@ + bytes@,
{
    let mut i: usize = 0;
    while i < bytes.len()
        invariant
            i <= bytes@.len(),
            out@ == old(out)@ + bytes@.subrange(0, i as int),
        decreases bytes@.len() - i,
    {
        out.push(bytes[i]);
        i = i + 1;
        assert(out@ =~= old(out)@ + bytes@.subrange(0, i as int));
    }
    assert(bytes@.subrange(0, i as int) =~= bytes@);
}

fn push_crlf(out: &mut Vec<u8>)
    ensures
        final(out)@ == old(out)@ + crlf(),
{
    out.push(13u8);
    out.push(10u8);
    assert(out@ =~= old(out)@ + crlf());
}

/// Appends the encoding of `frame`, at every depth.
fn encode_into(out: &mut Vec<u8>, frame: &Frame)
    ensures
        final(out)@ == old(out)@ + wire(frame@),
    decreases frame,
{
    match frame {
        Frame::Array(v) => {
            proof {
                lemma_array_view(*v);
            }
            let ghost xs = views(v@);
            out.push(42u8);
            push_decimal(out, v.len() as u64);
            push_crlf(out);
            let ghost start = out@;
            let mut i: usize = 0;
            while i < v.len()
                invariant
                    i <= v@.len(),
                    *frame is Array,
                    (*frame)->Array_0 == *v,
                    xs == views(v@),
                    out@ == start + wire_all(xs.subrange(0, i as int)),
                decreases v@.len() - i,
            {
                proof {
                    assert(decreases_to!(*frame => (*frame)->Array_0));
                    assert((*frame)->Array_0 == *v);
                    assert(decreases_to!(*v => v@));
                    assert(decreases_to!(v@ => v@[i as int]));
                    assert(decreases_to!(*frame => v@[i as int]));
                }
                encode_into(out, &v[i]);
                proof {
                    let s = xs.subrange(0, i + 1);
                    assert(s.subrange(0, i as int) =~= xs.subrange(0, i as int));
                    assert(s[i as int] == v@[i as int]@);
                }
                i = i + 1;
                assert(out@ =~= start + wire_all(xs.subrange(0, i as int)));
            }
            assert(xs.subrange(0, i as int) =~= xs);
            assert(old(out)@ + wire(frame@) =~= start + wire_all(xs));
        },
        _ => {
            encode_value(out, frame);
        },
    }
}

/// Appends the encoding of a frame that is not an array.
fn encode_value(out: &mut Vec<u8>, frame: &Frame)
    requires
        !(frame@ is Array),
    ensures
        final(out)@ == old(out)@ + wire(frame@),
{
    match frame {
        Frame::Simple(s) => {
            out.push(43u8);
            push_all(out, s.as_slice());
            push_crlf(out);
        },
        Frame::Error(s) => {
            out.push(45u8);
            push_all(out, s.as_slice());
            push_crlf(out);
        },
        Frame::Integer(n) => {
            out.push(58u8);
            push_decimal(out, *n);
            push_crlf(out);
        },
        Frame::Null => {
            out.push(36u8);
            out.push(45u8);
            out.push(49u8);
            push_crlf(out);
        },
        Frame::Bulk(b) => {
            out.push(36u8);
            push_decimal(out, b.len() as u64);
            push_crlf(out);
            push_all(out, b.as_slice());
            push_crlf(out);
        },
        Frame::Array(_) => {},
    }
    assert(final(out)@ =~= old(out)@ + wire(frame@));
}

impl Connection {
    /// A connection with nothing received and nothing to send.
    pub fn new() -> (r: Connection)
        ensures
            r@.buffered == Seq::<u8>::empty(),
            r@.pending == Seq::<u8>::empty(),
    {
        Connection { buffer: Vec::with_capacity(INITIAL_BUFFER), output: Vec::new() }
    }

    /// Adds bytes read from the peer to the read buffer.
    pub fn receive(&mut self, data: &[u8])
        ensures
            final(self)@.buffered == old(self)@.buffered + data@,
            final(self)@.pending == old(self)@.pending,
    {
        push_all(&mut self.buffer, data);
    }

    /// Takes the next whole frame out of the read buffer. `Ok(None)` means
    /// that more bytes are needed first.
    pub fn parse_frame(&mut self) -> (r: Result<Option<Frame>, Error>)
        ensures
            final(self)@.pending == old(self)@.pending,
            match decode(old(self)@.buffered) {
                Decoded::Done(f, n) => r matches Ok(Some(x)) && x@ == f && final(self)@.buffered
                    == old(self)@.buffered.subrange(n as int, old(self)@.buffered.len() as int),
                Decoded::Incomplete => r matches Ok(None) && final(self)@.buffered == old(
                    self,
                )@.buffered,
                Decoded::Invalid => r matches Err(Error::Other(_)) && final(self)@.buffered == old(
                    self,
                )@.buffered,
            },
    {
        match Frame::check(self.buffer.as_slice()) {
            Ok(_) => {},
            Err(Error::Incomplete) => return Ok(None),
            Err(e) => return Err(e),
        }
        let (frame, len) = match Frame::parse(self.buffer.as_slice()) {
            Ok(x) => x,
            Err(e) => return Err(e),
        };
        let rest = vstd::slice::slice_to_vec(
            vstd::slice::slice_subrange(self.buffer.as_slice(), len, self.buffer.len()),
        );
        self.buffer = rest;
        Ok(Some(frame))
    }

    /// What reading gives once the peer has closed its side: nothing when
    /// the buffer is empty, an error when a frame was cut off.
    pub fn end_of_stream(&self) -> (r: Result<Option<Frame>, Error>)
        ensures
            self@.buffered.len() == 0 ==> r matches Ok(None),
            self@.buffered.len() > 0 ==> r matches Err(Error::Other(_)),
    {
        if self.buffer.len() == 0 {
            Ok(None)
        } else {
            Err(Error::Other("connection reset by peer".to_string()))
        }
    }

    /// Encodes a frame, arrays included, into the output buffer.
    pub fn write_frame(&mut self, frame: &Frame)
        ensures
            final(self)@.pending == old(self)@.pending + wire(frame@),
            final(self)@.buffered == old(self)@.buffered,
    {
        encode_into(&mut self.output, frame);
    }

    /// Encodes a single frame that is not an array.
    pub fn write_value(&mut self, frame: &Frame)
        requires
            !(frame@ is Array),
        ensures
            final(self)@.pending == old(self)@.pending + wire(frame@),
            final(self)@.buffered == old(self)@.buffered,
    {
        encode_value(&mut self.output, frame);
    }

    /// Encodes a number in decimal followed by a line terminator.
    pub fn write_decimal(&mut self, value: u64)
        ensures
            final(self)@.pending == old(self)@.pending + decimal(value as nat) + crlf(),
            final(self)@.buffered == old(self)@.buffered,
    {
        push_decimal(&mut self.output, value);
        push_crlf(&mut self.output);
    }

    /// Hands out the encoded bytes and empties the output buffer.
    pub fn take_output(&mut self) -> (r: Vec<u8>)
        ensures
            r@ == old(self)@.pending,
            final(self)@.pending == Seq::<u8>::empty(),
            final(self)@.buffered == old(self)@.buffered,
    {
        let out = vstd::slice::slice_to_vec(self.output.as_slice());
        self.output = Vec::new();
        out
    }
}

} // verus!
