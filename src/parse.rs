//! Reading the elements of an array frame one by one, as the command
//! decoders need them.
use crate::frame::{line_number, views, Frame, FrameView};
use vstd::prelude::*;
use vstd::utf8::{decode_utf8, valid_utf8};

verus! {

/// The text that a frame carries: a simple or bulk frame whose bytes are
/// well-formed UTF-8.
pub open spec fn text_of(f: FrameView) -> Option<Seq<char>> {
    match f {
        FrameView::Simple(b) => if valid_utf8(b) { Some(decode_utf8(b)) } else { None },
        FrameView::Bulk(b) => if valid_utf8(b) { Some(decode_utf8(b)) } else { None },
        _ => None,
    }
}

/// The raw bytes that a simple or bulk frame carries.
pub open spec fn bytes_of(f: FrameView) -> Option<Seq<u8>> {
    match f {
        FrameView::Simple(b) => Some(b),
        FrameView::Bulk(b) => Some(b),
        _ => None,
    }
}

/// The number that a frame carries: an integer frame, or a simple or bulk
/// frame that holds decimal digits only.
pub open spec fn int_of(f: FrameView) -> Option<u64> {
    match f {
        FrameView::Integer(n) => Some(n),
        FrameView::Simple(b) => line_number(b),
        FrameView::Bulk(b) => line_number(b),
        _ => None,
    }
}

/// Relies on `String::from_utf8`: it succeeds exactly on well-formed UTF-8,
/// and the string then holds the decoded characters.
#[verifier::external_body]
fn utf8_string(bytes: Vec<u8>) -> (r: Option<String>)
    ensures
        r is Some <==> valid_utf8(bytes@),
        r is Some ==> r->0@ == decode_utf8(bytes@),
{
    String::from_utf8(bytes).ok()
}

/// Why the elements of an array do not make a command.
#[derive(Debug)]
pub enum ParseError {
    /// Every element has been read.
    EndOfStream,
    /// An element is not of the kind asked for, or the frame is no array.
    Other(String),
}

/// The elements of an array frame, with a cursor over them.
pub struct Parse {
    parts: Vec<Frame>,
    pos: usize,
}

/// The model of a [`Parse`]: the elements and the index of the next one.
pub struct ParseView {
    pub parts: Seq<FrameView>,
    pub pos: nat,
}

impl View for Parse {
    type V = ParseView;

    closed spec fn view(&self) -> ParseView {
        ParseView { parts: views(self.parts@), pos: self.pos as nat }
    }
}

fn other(msg: &str) -> (e: ParseError)
    ensures
        e is Other,
{
    ParseError::Other(msg.to_string())
}

impl Parse {
    /// Starts reading the elements of `frame`, which must be an array.
    pub fn new(frame: Frame) -> (r: Result<Parse, ParseError>)
        ensures
            match frame@ {
                FrameView::Array(xs) => r is Ok && r->Ok_0@.parts == xs && r->Ok_0@.pos == 0,
                _ => r matches Err(ParseError::Other(_)),
            },
    {
        match frame {
            Frame::Array(parts) => {
                proof {
                    crate::frame::lemma_array_view(parts);
                }
                Ok(Parse { parts, pos: 0 })
            },
            _ => Err(other("protocol error: expected array frame")),
        }
    }

    /// Reads the next element as text.
    pub fn next_string(&mut self) -> (r: Result<String, ParseError>)
        ensures
            final(self)@.parts == old(self)@.parts,
            old(self)@.pos >= old(self)@.parts.len() ==> (r matches Err(ParseError::EndOfStream))
                && final(self)@.pos == old(self)@.pos,
            old(self)@.pos < old(self)@.parts.len() ==> final(self)@.pos == old(self)@.pos + 1
                && match text_of(old(self)@.parts[old(self)@.pos as int]) {
                Some(t) => r matches Ok(s) && s@ == t,
                None => r matches Err(ParseError::Other(_)),
            },
    {
        if self.pos >= self.parts.len() {
            return Err(ParseError::EndOfStream);
        }
        let i = self.pos;
        self.pos = i + 1;
        let bytes = match &self.parts[i] {
            Frame::Simple(b) => vstd::slice::slice_to_vec(b.as_slice()),
            Frame::Bulk(b) => vstd::slice::slice_to_vec(b.as_slice()),
            _ => return Err(other("protocol error: expected simple or bulk frame")),
        };
        match utf8_string(bytes) {
            Some(s) => Ok(s),
            None => Err(other("protocol error: invalid string")),
        }
    }

    /// Reads the next element as raw bytes.
    pub fn next_bytes(&mut self) -> (r: Result<Vec<u8>, ParseError>)
        ensures
            final(self)@.parts == old(self)@.parts,
            old(self)@.pos >= old(self)@.parts.len() ==> (r matches Err(ParseError::EndOfStream))
                && final(self)@.pos == old(self)@.pos,
            old(self)@.pos < old(self)@.parts.len() ==> final(self)@.pos == old(self)@.pos + 1
                && match bytes_of(old(self)@.parts[old(self)@.pos as int]) {
                Some(b) => r matches Ok(v) && v@ == b,
                None => r matches Err(ParseError::Other(_)),
            },
    {
        if self.pos >= self.parts.len() {
            return Err(ParseError::EndOfStream);
        }
        let i = self.pos;
        self.pos = i + 1;
        match &self.parts[i] {
            Frame::Simple(b) => Ok(vstd::slice::slice_to_vec(b.as_slice())),
            Frame::Bulk(b) => Ok(vstd::slice::slice_to_vec(b.as_slice())),
            _ => Err(other("protocol error: expected simple or bulk frame")),
        }
    }

    /// Reads the next element as an unsigned number.
    pub fn next_int(&mut self) -> (r: Result<u64, ParseError>)
        ensures
            final(self)@.parts == old(self)@.parts,
            old(self)@.pos >= old(self)@.parts.len() ==> (r matches Err(ParseError::EndOfStream))
                && final(self)@.pos == old(self)@.pos,
            old(self)@.pos < old(self)@.parts.len() ==> final(self)@.pos == old(self)@.pos + 1
                && match int_of(old(self)@.parts[old(self)@.pos as int]) {
                Some(n) => r matches Ok(m) && m == n,
                None => r matches Err(ParseError::Other(_)),
            },
    {
        if self.pos >= self.parts.len() {
            return Err(ParseError::EndOfStream);
        }
        let i = self.pos;
        self.pos = i + 1;
        let n = match &self.parts[i] {
            Frame::Integer(n) => Some(*n),
            Frame::Simple(b) => crate::frame::parse_decimal(b.as_slice()),
            Frame::Bulk(b) => crate::frame::parse_decimal(b.as_slice()),
            _ => return Err(other("protocol error: expected integer, simple or bulk frame")),
        };
        match n {
            Some(n) => Ok(n),
            None => Err(other("protocol error: invalid number")),
        }
    }

    /// Succeeds when every element has been read.
    pub fn finish(&mut self) -> (r: Result<(), ParseError>)
        ensures
            final(self)@ == old(self)@,
            r is Ok <==> old(self)@.pos >= old(self)@.parts.len(),
            r is Err ==> r matches Err(ParseError::Other(_)),
    {
        if self.pos >= self.parts.len() {
            Ok(())
        } else {
            Err(other("protocol error: expected end of frame, but there was more"))
        }
    }
}

} // verus!
