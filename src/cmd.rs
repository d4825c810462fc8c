//! The commands of the protocol: their model, how each is read from an
//! array frame and written back into one.
use crate::db::{deadline_of, lookup, wakes, Db};
use crate::frame::{decimal, Frame, FrameView};
use crate::parse::{bytes_of, int_of, text_of, Parse, ParseError};
use vstd::prelude::*;
use vstd::string::StringSliceAdditionalSpecFns;
use vstd::utf8::encode_utf8;

verus! {

/// ASCII case folding of one character.
pub open spec fn lower_char(c: char) -> char {
    if 65 <= c as u32 <= 90 {
        ((c as u32 + 32) as u32) as char
    } else {
        c
    }
}

/// ASCII case folding: the letters A to Z become a to z, every other
/// character stays as it is.
pub open spec fn ascii_lower(s: Seq<char>) -> Seq<char> {
    s.map_values(|c: char| lower_char(c))
}

/// Relies on `str::to_ascii_lowercase`: the ASCII letters A to Z become a
/// to z and every other character is kept.
#[verifier::external_body]
fn to_ascii_lower(s: &str) -> (r: String)
    ensures
        r@ == ascii_lower(s@),
{
    s.to_ascii_lowercase()
}

fn same_text(s: &String, lit: &str) -> (r: bool)
    ensures
        r == (s@ == lit@),
{
    let t = lit.to_owned();
    *s == t
}

/// The model of a command.
pub enum CommandView {
    Get { key: Seq<char> },
    SetCmd { key: Seq<char>, value: Seq<u8>, expire: Option<u64> },
    Publish { channel: Seq<char>, message: Seq<u8> },
    Subscribe { channels: Seq<Seq<char>> },
    Unsubscribe { channels: Seq<Seq<char>> },
    Ping { msg: Option<Seq<char>> },
    Unknown { name: Seq<char> },
}

/// Whether the elements from index `from` on all carry text.
pub open spec fn all_text(xs: Seq<FrameView>, from: int) -> bool {
    forall|i: int| from <= i < xs.len() ==> (#[trigger] text_of(xs[i])) is Some
}

/// The texts of the elements from index `from` on.
pub open spec fn texts(xs: Seq<FrameView>, from: int) -> Seq<Seq<char>> {
    Seq::new((xs.len() - from) as nat, |i: int| text_of(xs[from + i])->0)
}

/// An expiry in milliseconds from its unit token and amount: `EX` counts
/// seconds (the product saturates at the largest `u64`), `PX` milliseconds.
pub open spec fn millis_of(unit: Seq<char>, n: u64) -> Option<u64> {
    if ascii_lower(unit) == "ex"@ {
        Some(if n * 1000 > u64::MAX { u64::MAX } else { (n * 1000) as u64 })
    } else if ascii_lower(unit) == "px"@ {
        Some(n)
    } else {
        None
    }
}

/// The arguments of `SET` read from index `p` on: key text, value bytes,
/// then either nothing more, or a unit token that folds to `ex` or `px`
/// followed by a number. Gives the command and the index after what was
/// read; `None` when the arguments break these rules, whatever follows.
pub open spec fn set_args(xs: Seq<FrameView>, p: int) -> Option<(CommandView, int)> {
    if p + 2 > xs.len() || text_of(xs[p]) is None || bytes_of(xs[p + 1]) is None {
        None
    } else if p + 2 == xs.len() {
        Some((CommandView::SetCmd { key: text_of(xs[p])->0, value: bytes_of(xs[p + 1])->0, expire: None }, p + 2))
    } else if text_of(xs[p + 2]) is Some && p + 3 < xs.len() && int_of(xs[p + 3]) is Some && millis_of(
        text_of(xs[p + 2])->0,
        int_of(xs[p + 3])->0,
    ) is Some {
        Some(
            (
                CommandView::SetCmd {
                    key: text_of(xs[p])->0,
                    value: bytes_of(xs[p + 1])->0,
                    expire: millis_of(text_of(xs[p + 2])->0, int_of(xs[p + 3])->0),
                },
                p + 4,
            ),
        )
    } else {
        None
    }
}

/// The `SET` command that the elements of an array describe, if any: its
/// arguments, and nothing after them.
pub open spec fn set_of(xs: Seq<FrameView>) -> Option<CommandView> {
    match set_args(xs, 1) {
        Some((c, q)) => if q == xs.len() { Some(c) } else { None },
        None => None,
    }
}

/// The command that the elements of an array frame describe: the first
/// names it, in any letter case, and the rest are its arguments. A name
/// that is not known gives `Unknown` whatever follows it; `None` is a
/// protocol error.
pub open spec fn command_of(xs: Seq<FrameView>) -> Option<CommandView> {
    if xs.len() == 0 || text_of(xs[0]) is None {
        None
    } else {
        let name = ascii_lower(text_of(xs[0])->0);
        if name == "get"@ {
            if xs.len() == 2 && text_of(xs[1]) is Some {
                Some(CommandView::Get { key: text_of(xs[1])->0 })
            } else {
                None
            }
        } else if name == "set"@ {
            set_of(xs)
        } else if name == "publish"@ {
            if xs.len() == 3 && text_of(xs[1]) is Some && bytes_of(xs[2]) is Some {
                Some(
                    CommandView::Publish { channel: text_of(xs[1])->0, message: bytes_of(xs[2])->0 },
                )
            } else {
                None
            }
        } else if name == "subscribe"@ {
            if xs.len() >= 2 && all_text(xs, 1) {
                Some(CommandView::Subscribe { channels: texts(xs, 1) })
            } else {
                None
            }
        } else if name == "unsubscribe"@ {
            if all_text(xs, 1) {
                Some(CommandView::Unsubscribe { channels: texts(xs, 1) })
            } else {
                None
            }
        } else if name == "ping"@ {
            if xs.len() == 1 {
                Some(CommandView::Ping { msg: None })
            } else if xs.len() == 2 && text_of(xs[1]) is Some {
                Some(CommandView::Ping { msg: text_of(xs[1]) })
            } else {
                None
            }
        } else {
            Some(CommandView::Unknown { name })
        }
    }
}

/// The name of a command, as the server folds it.
pub open spec fn name_of(c: CommandView) -> Seq<char> {
    match c {
        CommandView::Get { .. } => "get"@,
        CommandView::SetCmd { .. } => "set"@,
        CommandView::Publish { .. } => "publish"@,
        CommandView::Subscribe { .. } => "subscribe"@,
        CommandView::Unsubscribe { .. } => "unsubscribe"@,
        CommandView::Ping { .. } => "ping"@,
        CommandView::Unknown { name } => name,
    }
}

pub open spec fn strings_view(v: Seq<String>) -> Seq<Seq<char>> {
    Seq::new(v.len(), |i: int| v[i]@)
}

/// A bulk frame of the UTF-8 bytes of `s`.
pub open spec fn bulk_text(s: Seq<char>) -> FrameView {
    FrameView::Bulk(encode_utf8(s))
}

/// One bulk frame per text.
pub open spec fn bulk_texts(v: Seq<Seq<char>>) -> Seq<FrameView> {
    Seq::new(v.len(), |i: int| bulk_text(v[i]))
}

fn bulk_of(s: &str) -> (f: Frame)
    ensures
        f@ == bulk_text(s@),
{
    Frame::Bulk(vstd::slice::slice_to_vec(s.as_bytes()))
}

pub(crate) fn copy_strings(channels: &[String]) -> (r: Vec<String>)
    ensures
        strings_view(r@) == strings_view(channels@),
{
    let mut r: Vec<String> = Vec::new();
    let mut i: usize = 0;
    while i < channels.len()
        invariant
            i <= channels@.len(),
            r@.len() == i,
            forall|j: int| 0 <= j < i ==> (#[trigger] r@[j])@ == channels@[j]@,
        decreases channels@.len() - i,
    {
        let c = channels[i].clone();
        r.push(c);
        i = i + 1;
    }
    assert(strings_view(r@) =~= strings_view(channels@));
    r
}

/// An array frame of a command name followed by one bulk frame per text.
fn names_frame(name: &str, channels: &Vec<String>) -> (f: Frame)
    ensures
        f@ == FrameView::Array(
            seq![bulk_text(name@)] + bulk_texts(strings_view(channels@)),
        ),
{
    let mut items: Vec<Frame> = Vec::new();
    items.push(bulk_of(name));
    let ghost want = seq![bulk_text(name@)] + bulk_texts(strings_view(channels@));
    let mut i: usize = 0;
    while i < channels.len()
        invariant
            i <= channels@.len(),
            items@.len() == i + 1,
            forall|j: int| 0 <= j <= i ==> (#[trigger] items@[j])@ == want[j],
            want == seq![bulk_text(name@)] + bulk_texts(strings_view(channels@)),
        decreases channels@.len() - i,
    {
        let f = bulk_of(channels[i].as_str());
        assert(want[i + 1] == bulk_text(channels@[i as int]@));
        items.push(f);
        i = i + 1;
    }
    assert(crate::frame::views(items@) =~= want);
    proof {
        crate::frame::lemma_array_view(items);
    }
    Frame::Array(items)
}

/// `GET key`: reads the value stored under a key.
#[derive(Debug)]
pub struct Get {
    key: String,
}

impl View for Get {
    type V = Seq<char>;

    closed spec fn view(&self) -> Seq<char> {
        self.key@
    }
}

impl Get {
    pub fn new(key: &str) -> (r: Get)
        ensures
            r@ == key@,
    {
        Get { key: key.to_owned() }
    }

    pub fn key(&self) -> (r: &str)
        ensures
            r@ == self@,
    {
        self.key.as_str()
    }

    /// Reads the key; the name has been read already.
    pub fn parse_frames(parse: &mut Parse) -> (r: Result<Get, ParseError>)
        ensures
            final(parse)@.parts == old(parse)@.parts,
            r is Ok <==> (old(parse)@.pos < old(parse)@.parts.len() && text_of(
                old(parse)@.parts[old(parse)@.pos as int],
            ) is Some),
            r is Ok ==> r->Ok_0@ == text_of(old(parse)@.parts[old(parse)@.pos as int])->0
                && final(parse)@.pos == old(parse)@.pos + 1,
    {
        let key = parse.next_string()?;
        Ok(Get { key })
    }

    /// The request as a client sends it.
    pub fn into_frame(self) -> (r: Frame)
        ensures
            r@ == FrameView::Array(request_of(CommandView::Get { key: self@ })),
    {
        let mut items: Vec<Frame> = Vec::new();
        items.push(bulk_of("get"));
        items.push(bulk_of(self.key.as_str()));
        proof {
            crate::frame::lemma_array_view(items);
            assert(crate::frame::views(items@) =~= seq![bulk_text("get"@), bulk_text(self@)]);
        }
        Frame::Array(items)
    }
}

/// `SET key value [EX seconds | PX milliseconds]`: stores a value, with an
/// optional time to live kept in milliseconds.
#[derive(Debug)]
pub struct SetCmd {
    key: String,
    value: Vec<u8>,
    expire: Option<u64>,
}

impl View for SetCmd {
    type V = (Seq<char>, Seq<u8>, Option<u64>);

    closed spec fn view(&self) -> (Seq<char>, Seq<u8>, Option<u64>) {
        (self.key@, self.value@, self.expire)
    }
}

impl SetCmd {
    pub fn new(key: &str, value: Vec<u8>, expire: Option<u64>) -> (r: SetCmd)
        ensures
            r@ == (key@, value@, expire),
    {
        SetCmd { key: key.to_owned(), value, expire }
    }

    pub fn key(&self) -> (r: &str)
        ensures
            r@ == self@.0,
    {
        self.key.as_str()
    }

    pub fn value(&self) -> (r: &[u8])
        ensures
            r@ == self@.1,
    {
        self.value.as_slice()
    }

    /// The time to live in milliseconds.
    pub fn expire(&self) -> (r: Option<u64>)
        ensures
            r == self@.2,
    {
        self.expire
    }

    /// Reads key, value and the optional expiry from the cursor on; it
    /// succeeds exactly when [`set_args`] does, whatever follows.
    pub fn parse_frames(parse: &mut Parse) -> (r: Result<SetCmd, ParseError>)
        requires
            old(parse)@.pos <= old(parse)@.parts.len(),
        ensures
            final(parse)@.parts == old(parse)@.parts,
            match set_args(old(parse)@.parts, old(parse)@.pos as int) {
                Some((c, q)) => r is Ok && c == (CommandView::SetCmd {
                    key: r->Ok_0@.0,
                    value: r->Ok_0@.1,
                    expire: r->Ok_0@.2,
                }) && final(parse)@.pos == q,
                None => r is Err,
            },
    {
        let key = parse.next_string()?;
        let value = parse.next_bytes()?;
        let expire = match parse.next_string() {
            Ok(unit) => {
                let unit = to_ascii_lower(unit.as_str());
                if same_text(&unit, "ex") {
                    let secs = parse.next_int()?;
                    if secs > u64::MAX / 1000 {
                        Some(u64::MAX)
                    } else {
                        Some(secs * 1000)
                    }
                } else if same_text(&unit, "px") {
                    Some(parse.next_int()?)
                } else {
                    return Err(ParseError::Other("currently `SET` only supports the expiration option".to_owned()));
                }
            },
            Err(ParseError::EndOfStream) => None,
            Err(e) => return Err(e),
        };
        Ok(SetCmd { key, value, expire })
    }

    /// The request as a client sends it: every argument is a bulk frame,
    /// and the expiry, when there is one, goes as `px` and the decimal
    /// digits of its milliseconds.
    pub fn into_frame(self) -> (r: Frame)
        ensures
            r@ == FrameView::Array(
                request_of(CommandView::SetCmd { key: self@.0, value: self@.1, expire: self@.2 }),
            ),
    {
        let ghost v = self@;
        let mut items: Vec<Frame> = Vec::new();
        items.push(bulk_of("set"));
        items.push(bulk_of(self.key.as_str()));
        items.push(Frame::Bulk(self.value));
        if let Some(ms) = self.expire {
            items.push(bulk_of("px"));
            let mut digits: Vec<u8> = Vec::new();
            crate::connection::push_decimal(&mut digits, ms);
            assert(digits@ =~= decimal(ms as nat));
            items.push(Frame::Bulk(digits));
        }
        proof {
            crate::frame::lemma_array_view(items);
            assert(crate::frame::views(items@) =~= seq![bulk_text("set"@), bulk_text(v.0), FrameView::Bulk(v.1)] + match v.2 {
                Some(ms) => seq![bulk_text("px"@), FrameView::Bulk(decimal(ms as nat))],
                None => seq![],
            });
        }
        Frame::Array(items)
    }
}

/// `PUBLISH channel message`: sends a message to a channel's subscribers.
#[derive(Debug)]
pub struct Publish {
    channel: String,
    message: Vec<u8>,
}

impl View for Publish {
    type V = (Seq<char>, Seq<u8>);

    closed spec fn view(&self) -> (Seq<char>, Seq<u8>) {
        (self.channel@, self.message@)
    }
}

impl Publish {
    pub fn new(channel: &str, message: Vec<u8>) -> (r: Publish)
        ensures
            r@ == (channel@, message@),
    {
        Publish { channel: channel.to_owned(), message }
    }

    pub fn channel(&self) -> (r: &str)
        ensures
            r@ == self@.0,
    {
        self.channel.as_str()
    }

    pub fn message(&self) -> (r: &[u8])
        ensures
            r@ == self@.1,
    {
        self.message.as_slice()
    }

    /// Reads the channel and the message; the name has been read already.
    pub fn parse_frames(parse: &mut Parse) -> (r: Result<Publish, ParseError>)
        requires
            old(parse)@.pos <= old(parse)@.parts.len(),
        ensures
            final(parse)@.parts == old(parse)@.parts,
            ({
                let xs = old(parse)@.parts;
                let p = old(parse)@.pos as int;
                &&& r is Ok <==> (p + 2 <= xs.len() && text_of(xs[p]) is Some && bytes_of(xs[p + 1]) is Some)
                &&& r is Ok ==> r->Ok_0@ == (text_of(xs[p])->0, bytes_of(xs[p + 1])->0) && final(parse)@.pos == p + 2
            }),
    {
        let channel = parse.next_string()?;
        let message = parse.next_bytes()?;
        Ok(Publish { channel, message })
    }

    /// The request as a client sends it.
    pub fn into_frame(self) -> (r: Frame)
        ensures
            r@ == FrameView::Array(request_of(CommandView::Publish { channel: self@.0, message: self@.1 })),
    {
        let ghost v = self@;
        let mut items: Vec<Frame> = Vec::new();
        items.push(bulk_of("publish"));
        items.push(bulk_of(self.channel.as_str()));
        items.push(Frame::Bulk(self.message));
        proof {
            crate::frame::lemma_array_view(items);
            assert(crate::frame::views(items@) =~= seq![bulk_text("publish"@), bulk_text(v.0), FrameView::Bulk(v.1)]);
        }
        Frame::Array(items)
    }
}

/// The texts of `xs[s..p]`.
pub open spec fn texts_between(xs: Seq<FrameView>, s: int, p: int) -> Seq<Seq<char>> {
    Seq::new((p - s) as nat, |i: int| text_of(xs[s + i])->0)
}

/// Reads text elements until the end of the array.
fn read_channels(parse: &mut Parse, channels: &mut Vec<String>, Ghost(start): Ghost<int>) -> (r: Result<(), ParseError>)
    requires
        0 <= start <= old(parse)@.pos <= old(parse)@.parts.len(),
        all_text(old(parse)@.parts.subrange(0, old(parse)@.pos as int), start),
        strings_view(old(channels)@) == texts_between(old(parse)@.parts, start, old(parse)@.pos as int),
    ensures
        final(parse)@.parts == old(parse)@.parts,
        r is Ok <==> all_text(old(parse)@.parts, start),
        r is Ok ==> strings_view(final(channels)@) == texts(old(parse)@.parts, start) && final(parse)@.pos
            == old(parse)@.parts.len(),
        r is Err ==> r matches Err(ParseError::Other(_)),
{
    let ghost xs = parse@.parts;
    loop
        invariant
            parse@.parts == xs,
            0 <= start <= parse@.pos <= xs.len(),
            xs == old(parse)@.parts,
            all_text(xs.subrange(0, parse@.pos as int), start),
            strings_view(channels@) == texts_between(xs, start, parse@.pos as int),
        decreases xs.len() - parse@.pos,
    {
        let ghost p = parse@.pos as int;
        match parse.next_string() {
            Ok(text) => {
                let ghost old_ch = channels@;
                assert(strings_view(old_ch).len() == old_ch.len());
                assert(old_ch.len() == p - start);
                channels.push(text);
                proof {
                    assert(all_text(xs.subrange(0, p + 1), start)) by {
                        assert forall|i: int| start <= i < p + 1 implies (#[trigger] text_of(xs.subrange(0, p + 1)[i])) is Some by {
                            if i < p {
                                assert(xs.subrange(0, p + 1)[i] == xs.subrange(0, p)[i]);
                            }
                        }
                    }
                    assert(strings_view(channels@) =~= texts_between(xs, start, p + 1)) by {
                        assert forall|j: int| 0 <= j < p - start + 1 implies strings_view(channels@)[j] == texts_between(xs, start, p + 1)[j] by {
                            if j < p - start {
                                assert(channels@[j] == old_ch[j]);
                                assert(strings_view(old_ch)[j] == texts_between(xs, start, p)[j]);
                            }
                        }
                    }
                }
            },
            Err(ParseError::EndOfStream) => {
                proof {
                    assert(xs.subrange(0, p) =~= xs);
                    assert(texts_between(xs, start, p) =~= texts(xs, start));
                }
                return Ok(());
            },
            Err(e) => {
                proof {
                    assert(text_of(xs[p]) is None);
                }
                return Err(e);
            },
        }
    }
}


/// `SUBSCRIBE channel [channel ...]`: subscribes the connection to channels.
#[derive(Debug)]
pub struct Subscribe {
    channels: Vec<String>,
}

impl View for Subscribe {
    type V = Seq<Seq<char>>;

    closed spec fn view(&self) -> Seq<Seq<char>> {
        strings_view(self.channels@)
    }
}

impl Subscribe {
    pub fn new(channels: &[String]) -> (r: Subscribe)
        ensures
            r@ == strings_view(channels@),
    {
        Subscribe { channels: copy_strings(channels) }
    }

    pub fn channels(&self) -> (r: &[String])
        ensures
            strings_view(r@) == self@,
    {
        self.channels.as_slice()
    }

    /// Hands out the channels.
    pub fn into_channels(self) -> (r: Vec<String>)
        ensures
            strings_view(r@) == self@,
    {
        self.channels
    }

    /// Reads one channel or more, up to the end of the array; the name has
    /// been read already.
    pub fn parse_frames(parse: &mut Parse) -> (r: Result<Subscribe, ParseError>)
        requires
            old(parse)@.pos <= old(parse)@.parts.len(),
        ensures
            final(parse)@.parts == old(parse)@.parts,
            ({
                let xs = old(parse)@.parts;
                let p = old(parse)@.pos as int;
                &&& r is Ok <==> (p < xs.len() && all_text(xs, p))
                &&& r is Ok ==> r->Ok_0@ == texts(xs, p) && final(parse)@.pos == xs.len()
            }),
    {
        let ghost xs = parse@.parts;
        let ghost p = parse@.pos as int;
        let first = parse.next_string()?;
        let mut channels: Vec<String> = Vec::new();
        channels.push(first);
        proof {
            assert(strings_view(channels@) =~= texts_between(xs, p, p + 1));
            assert(all_text(xs.subrange(0, p + 1), p)) by {
                assert(xs.subrange(0, p + 1)[p] == xs[p]);
            }
        }
        read_channels(parse, &mut channels, Ghost(p))?;
        Ok(Subscribe { channels })
    }

    /// The request as a client sends it.
    pub fn into_frame(self) -> (r: Frame)
        ensures
            r@ == FrameView::Array(request_of(CommandView::Subscribe { channels: self@ })),
    {
        names_frame("subscribe", &self.channels)
    }
}

/// `UNSUBSCRIBE [channel ...]`: ends subscriptions; with no channel, all of
/// them.
#[derive(Debug)]
pub struct Unsubscribe {
    channels: Vec<String>,
}

impl View for Unsubscribe {
    type V = Seq<Seq<char>>;

    closed spec fn view(&self) -> Seq<Seq<char>> {
        strings_view(self.channels@)
    }
}

impl Unsubscribe {
    pub fn new(channels: &[String]) -> (r: Unsubscribe)
        ensures
            r@ == strings_view(channels@),
    {
        Unsubscribe { channels: copy_strings(channels) }
    }

    pub fn channels(&self) -> (r: &[String])
        ensures
            strings_view(r@) == self@,
    {
        self.channels.as_slice()
    }

    /// Hands out the channels.
    pub fn into_channels(self) -> (r: Vec<String>)
        ensures
            strings_view(r@) == self@,
    {
        self.channels
    }

    /// Reads any number of channels, up to the end of the array; the name
    /// has been read already.
    pub fn parse_frames(parse: &mut Parse) -> (r: Result<Unsubscribe, ParseError>)
        requires
            old(parse)@.pos <= old(parse)@.parts.len(),
        ensures
            final(parse)@.parts == old(parse)@.parts,
            ({
                let xs = old(parse)@.parts;
                let p = old(parse)@.pos as int;
                &&& r is Ok <==> all_text(xs, p)
                &&& r is Ok ==> r->Ok_0@ == texts(xs, p) && final(parse)@.pos == xs.len()
            }),
    {
        let ghost xs = parse@.parts;
        let ghost p = parse@.pos as int;
        let mut channels: Vec<String> = Vec::new();
        proof {
            assert(strings_view(channels@) =~= texts_between(xs, p, p));
        }
        read_channels(parse, &mut channels, Ghost(p))?;
        Ok(Unsubscribe { channels })
    }

    /// The request as a client sends it.
    pub fn into_frame(self) -> (r: Frame)
        ensures
            r@ == FrameView::Array(request_of(CommandView::Unsubscribe { channels: self@ })),
    {
        names_frame("unsubscribe", &self.channels)
    }
}

/// `PING [message]`: answers `PONG`, or the message.
#[derive(Debug)]
pub struct Ping {
    msg: Option<String>,
}

impl View for Ping {
    type V = Option<Seq<char>>;

    closed spec fn view(&self) -> Option<Seq<char>> {
        match self.msg {
            Some(m) => Some(m@),
            None => None,
        }
    }
}

impl Ping {
    pub fn new(msg: Option<String>) -> (r: Ping)
        ensures
            r@ == match msg {
                Some(m) => Some(m@),
                None => None::<Seq<char>>,
            },
    {
        Ping { msg }
    }

    /// Reads the optional message; the name has been read already.
    pub fn parse_frames(parse: &mut Parse) -> (r: Result<Ping, ParseError>)
        requires
            old(parse)@.pos <= old(parse)@.parts.len(),
        ensures
            final(parse)@.parts == old(parse)@.parts,
            ({
                let xs = old(parse)@.parts;
                let p = old(parse)@.pos as int;
                &&& r is Ok <==> (p == xs.len() || text_of(xs[p]) is Some)
                &&& r is Ok && p == xs.len() ==> r->Ok_0@ == None::<Seq<char>> && final(parse)@.pos == p
                &&& r is Ok && p < xs.len() ==> r->Ok_0@ == text_of(xs[p]) && final(parse)@.pos == p + 1
            }),
    {
        match parse.next_string() {
            Ok(msg) => Ok(Ping { msg: Some(msg) }),
            Err(ParseError::EndOfStream) => Ok(Ping { msg: None }),
            Err(e) => Err(e),
        }
    }

    /// The request as a client sends it.
    pub fn into_frame(self) -> (r: Frame)
        ensures
            r@ == FrameView::Array(request_of(CommandView::Ping { msg: self@ })),
    {
        let ghost v = self@;
        let mut items: Vec<Frame> = Vec::new();
        items.push(bulk_of("ping"));
        if let Some(m) = &self.msg {
            items.push(bulk_of(m.as_str()));
        }
        proof {
            crate::frame::lemma_array_view(items);
            assert(crate::frame::views(items@) =~= seq![bulk_text("ping"@)] + match v {
                Some(m) => seq![bulk_text(m)],
                None => seq![],
            });
        }
        Frame::Array(items)
    }
}

/// A command whose name the server does not know.
#[derive(Debug)]
pub struct Unknown {
    command: String,
}

impl View for Unknown {
    type V = Seq<char>;

    closed spec fn view(&self) -> Seq<char> {
        self.command@
    }
}

impl Unknown {
    pub fn new(command: &str) -> (r: Unknown)
        ensures
            r@ == command@,
    {
        Unknown { command: command.to_owned() }
    }

    pub fn get_name(&self) -> (r: &str)
        ensures
            r@ == self@,
    {
        self.command.as_str()
    }
}

/// A request that a client sends.
#[derive(Debug)]
pub enum Command {
    Get(Get),
    SetCmd(SetCmd),
    Publish(Publish),
    Subscribe(Subscribe),
    Unsubscribe(Unsubscribe),
    Ping(Ping),
    Unknown(Unknown),
}

impl View for Command {
    type V = CommandView;

    open spec fn view(&self) -> CommandView {
        match self {
            Command::Get(c) => CommandView::Get { key: c@ },
            Command::SetCmd(c) => CommandView::SetCmd { key: c@.0, value: c@.1, expire: c@.2 },
            Command::Publish(c) => CommandView::Publish { channel: c@.0, message: c@.1 },
            Command::Subscribe(c) => CommandView::Subscribe { channels: c@ },
            Command::Unsubscribe(c) => CommandView::Unsubscribe { channels: c@ },
            Command::Ping(c) => CommandView::Ping { msg: c@ },
            Command::Unknown(c) => CommandView::Unknown { name: c@ },
        }
    }
}

impl Command {
    /// Reads a command from a frame: an array whose first element names
    /// the command, in any letter case, and whose other elements are its
    /// arguments. An unknown name is no error: it gives `Unknown` with the
    /// folded name.
    pub fn from_frame(frame: Frame) -> (r: Result<Command, ParseError>)
        ensures
            match frame@ {
                FrameView::Array(xs) => match command_of(xs) {
                    Some(c) => r is Ok && r->Ok_0@ == c,
                    None => r is Err,
                },
                _ => r is Err,
            },
    {
        let mut parse = Parse::new(frame)?;
        let ghost xs = parse@.parts;
        let raw = parse.next_string()?;
        let name = to_ascii_lower(raw.as_str());
        let command = if same_text(&name, "get") {
            Command::Get(Get::parse_frames(&mut parse)?)
        } else if same_text(&name, "set") {
            Command::SetCmd(SetCmd::parse_frames(&mut parse)?)
        } else if same_text(&name, "publish") {
            Command::Publish(Publish::parse_frames(&mut parse)?)
        } else if same_text(&name, "subscribe") {
            Command::Subscribe(Subscribe::parse_frames(&mut parse)?)
        } else if same_text(&name, "unsubscribe") {
            Command::Unsubscribe(Unsubscribe::parse_frames(&mut parse)?)
        } else if same_text(&name, "ping") {
            Command::Ping(Ping::parse_frames(&mut parse)?)
        } else {
            return Ok(Command::Unknown(Unknown::new(name.as_str())));
        };
        parse.finish()?;
        Ok(command)
    }

    /// The command's name, as the server folds it.
    pub fn get_name(&self) -> (r: &str)
        ensures
            r@ == name_of(self@),
    {
        match self {
            Command::Get(_) => "get",
            Command::SetCmd(_) => "set",
            Command::Publish(_) => "publish",
            Command::Subscribe(_) => "subscribe",
            Command::Unsubscribe(_) => "unsubscribe",
            Command::Ping(_) => "ping",
            Command::Unknown(c) => c.get_name(),
        }
    }
}

/// The error that answers a command the server does not take here.
pub open spec fn unknown_reply(name: Seq<char>) -> FrameView {
    FrameView::Error(encode_utf8("Err: unknown command '"@) + encode_utf8(name) + encode_utf8("'"@))
}

/// The answer to `GET`: the value, or null.
pub open spec fn get_reply(found: Option<Seq<u8>>) -> FrameView {
    match found {
        Some(v) => FrameView::Bulk(v),
        None => FrameView::Null,
    }
}

/// The answer to `PING`: `PONG`, or the message back.
pub open spec fn ping_reply(msg: Option<Seq<char>>) -> FrameView {
    match msg {
        Some(m) => FrameView::Bulk(encode_utf8(m)),
        None => FrameView::Simple(encode_utf8("PONG"@)),
    }
}

fn push_str(out: &mut Vec<u8>, s: &str)
    ensures
        final(out)@ == old(out)@ + encode_utf8(s@),
{
    crate::connection::push_all(out, s.as_bytes());
}

fn text_bytes(s: &str) -> (r: Vec<u8>)
    ensures
        r@ == encode_utf8(s@),
{
    vstd::slice::slice_to_vec(s.as_bytes())
}

impl Unknown {
    /// The error frame that answers this command.
    pub fn apply(&self) -> (r: Frame)
        ensures
            r@ == unknown_reply(self@),
    {
        let mut b: Vec<u8> = Vec::new();
        push_str(&mut b, "Err: unknown command '");
        push_str(&mut b, self.command.as_str());
        push_str(&mut b, "'");
        assert(b@ =~= encode_utf8("Err: unknown command '"@) + encode_utf8(self@) + encode_utf8("'"@));
        Frame::Error(b)
    }
}

impl Get {
    /// Looks the key up at time `now`.
    pub fn apply(&self, db: &Db, now: u64) -> (r: Frame)
        ensures
            r@ == get_reply(lookup(db@.store, self@, now)),
    {
        match db.get(self.key.as_str(), now) {
            Some(v) => Frame::Bulk(v),
            None => Frame::Null,
        }
    }
}

impl SetCmd {
    /// Stores the value at time `now`. Gives the `OK` answer and whether
    /// the expiration task must be woken; `None` when no entry id is left.
    pub fn apply(self, db: &mut Db, now: u64) -> (r: Option<(Frame, bool)>)
        requires
            old(db).wf(),
        ensures
            final(db).wf(),
            final(db)@.senders == old(db)@.senders,
            final(db)@.shutdown == old(db)@.shutdown,
            old(db)@.next_id >= u64::MAX ==> r is None && final(db)@ == old(db)@,
            old(db)@.next_id < u64::MAX ==> r is Some && (r->0).0@ == FrameView::Simple(
                encode_utf8("OK"@),
            ) && (r->0).1 == wakes(old(db)@.store, now, self@.2) && final(db)@.store == old(db)@.store.insert(
                self@.0,
                (self@.1, deadline_of(now, self@.2)),
            ) && final(db)@.next_id == old(db)@.next_id + 1,
    {
        match db.set(self.key, self.value, self.expire, now) {
            Some(notify) => Some((Frame::Simple(text_bytes("OK")), notify)),
            None => None,
        }
    }
}

impl Publish {
    /// Sends the message; the answer is the number of receivers it went to.
    pub fn apply(self, db: &Db) -> (r: Frame)
        ensures
            r@ is Integer,
            !db@.channels.contains(self@.0) ==> r@ == FrameView::Integer(0),
    {
        let n = db.publish(self.channel.as_str(), self.message);
        Frame::Integer(n as u64)
    }
}

impl Ping {
    /// The answer: `PONG`, or the message back as a bulk frame.
    pub fn apply(self) -> (r: Frame)
        ensures
            r@ == ping_reply(self@),
    {
        match self.msg {
            Some(m) => Frame::Bulk(text_bytes(m.as_str())),
            None => Frame::Simple(text_bytes("PONG")),
        }
    }
}

/// What a connection in normal mode does after a command.
pub enum Action {
    /// Send the frame; `wake_purge` asks for the expiration task to be woken.
    Reply { frame: Frame, wake_purge: bool },
    /// Switch to subscribed mode with these channels.
    Subscribe(Vec<String>),
    /// Close the connection with this error.
    Fail(String),
}

/// The model of an [`Action`].
pub enum ActionView {
    Reply { frame: FrameView, wake_purge: bool },
    Subscribe(Seq<Seq<char>>),
    Fail,
}

impl View for Action {
    type V = ActionView;

    open spec fn view(&self) -> ActionView {
        match self {
            Action::Reply { frame, wake_purge } => ActionView::Reply { frame: frame@, wake_purge: *wake_purge },
            Action::Subscribe(v) => ActionView::Subscribe(strings_view(v@)),
            Action::Fail(_) => ActionView::Fail,
        }
    }
}

impl Command {
    /// Applies a command received in normal mode against the state at
    /// time `now`. Only `SET` changes the state.
    pub fn apply(self, db: &mut Db, now: u64) -> (r: Action)
        requires
            old(db).wf(),
        ensures
            final(db).wf(),
            final(db)@.senders == old(db)@.senders,
            final(db)@.shutdown == old(db)@.shutdown,
            !(self@ is SetCmd) ==> final(db)@ == old(db)@,
            match self@ {
                CommandView::Get { key } => r@ == ActionView::Reply {
                    frame: get_reply(lookup(old(db)@.store, key, now)),
                    wake_purge: false,
                },
                CommandView::SetCmd { key, value, expire } => if old(db)@.next_id < u64::MAX {
                    &&& r@ is Reply
                    &&& r@->frame == FrameView::Simple(encode_utf8("OK"@))
                    &&& r@->wake_purge == wakes(old(db)@.store, now, expire)
                    &&& final(db)@.store == old(db)@.store.insert(key, (value, deadline_of(now, expire)))
                } else {
                    r@ is Fail
                },
                CommandView::Publish { channel, message } => r@ matches ActionView::Reply { frame, wake_purge: false }
                    && frame is Integer && (!old(db)@.channels.contains(channel) ==> frame == FrameView::Integer(0)),
                CommandView::Subscribe { channels } => r@ == ActionView::Subscribe(channels),
                CommandView::Unsubscribe { .. } => r@ is Fail,
                CommandView::Ping { msg } => r@ == ActionView::Reply { frame: ping_reply(msg), wake_purge: false },
                CommandView::Unknown { name } => r@ == ActionView::Reply { frame: unknown_reply(name), wake_purge: false },
            },
    {
        match self {
            Command::Get(cmd) => Action::Reply { frame: cmd.apply(db, now), wake_purge: false },
            Command::SetCmd(cmd) => match cmd.apply(db, now) {
                Some((frame, notify)) => Action::Reply { frame, wake_purge: notify },
                None => Action::Fail("no entry id is left".to_owned()),
            },
            Command::Publish(cmd) => {
                let frame = cmd.apply(db);
                Action::Reply { frame, wake_purge: false }
            },
            Command::Subscribe(cmd) => {
                let chs = cmd.into_channels();
                let r = Action::Subscribe(chs);
                assert(r@ == ActionView::Subscribe(strings_view(chs@)));
                r
            },
            Command::Unsubscribe(_) => Action::Fail("`UNSUBSCRIBE` is only taken in subscribed mode".to_owned()),
            Command::Ping(cmd) => Action::Reply { frame: cmd.apply(), wake_purge: false },
            Command::Unknown(cmd) => Action::Reply { frame: cmd.apply(), wake_purge: false },
        }
    }
}

/// The elements of the array frame that a client sends for a command.
pub open spec fn request_of(c: CommandView) -> Seq<FrameView> {
    match c {
        CommandView::Get { key } => seq![bulk_text("get"@), bulk_text(key)],
        CommandView::SetCmd { key, value, expire } => seq![
            bulk_text("set"@),
            bulk_text(key),
            FrameView::Bulk(value),
        ] + match expire {
            Some(ms) => seq![bulk_text("px"@), FrameView::Bulk(decimal(ms as nat))],
            None => seq![],
        },
        CommandView::Publish { channel, message } => seq![
            bulk_text("publish"@),
            bulk_text(channel),
            FrameView::Bulk(message),
        ],
        CommandView::Subscribe { channels } => seq![bulk_text("subscribe"@)] + bulk_texts(channels),
        CommandView::Unsubscribe { channels } => seq![bulk_text("unsubscribe"@)] + bulk_texts(channels),
        CommandView::Ping { msg } => seq![bulk_text("ping"@)] + match msg {
            Some(m) => seq![bulk_text(m)],
            None => seq![],
        },
        CommandView::Unknown { name } => seq![bulk_text(name)],
    }
}

proof fn lemma_text_of_bulk(s: Seq<char>)
    ensures
        text_of(bulk_text(s)) == Some(s),
        bytes_of(bulk_text(s)) == Some(encode_utf8(s)),
{
    broadcast use vstd::utf8::encode_utf8_valid_utf8, vstd::utf8::encode_utf8_decode_utf8;
}

proof fn lemma_texts_of_bulks(xs: Seq<FrameView>, head: FrameView, channels: Seq<Seq<char>>)
    requires
        xs == seq![head] + bulk_texts(channels),
    ensures
        all_text(xs, 1),
        texts(xs, 1) == channels,
{
    assert forall|i: int| 1 <= i < xs.len() implies (#[trigger] text_of(xs[i])) is Some by {
        lemma_text_of_bulk(channels[i - 1]);
    }
    assert forall|i: int| 0 <= i < channels.len() implies texts(xs, 1)[i] == channels[i] by {
        lemma_text_of_bulk(channels[i]);
    }
    assert(texts(xs, 1) =~= channels);
}

/// A request that a client sends reads back, on the server, as the
/// command it was made from; a subscription needs one channel at least.
pub proof fn law_request_reads_back(c: CommandView)
    requires
        !(c is Unknown),
        c is Subscribe ==> c->Subscribe_channels.len() > 0,
    ensures
        command_of(request_of(c)) == Some(c),
{
    reveal_strlit("get");
    reveal_strlit("set");
    reveal_strlit("publish");
    reveal_strlit("subscribe");
    reveal_strlit("unsubscribe");
    reveal_strlit("ping");
    reveal_strlit("px");
    reveal_strlit("ex");
    let xs = request_of(c);
    match c {
        CommandView::Get { key } => {
            lemma_text_of_bulk("get"@);
            lemma_text_of_bulk(key);
            assert(ascii_lower("get"@) =~= "get"@);
        },
        CommandView::SetCmd { key, value, expire } => {
            lemma_text_of_bulk("set"@);
            lemma_text_of_bulk(key);
            assert(ascii_lower("set"@) =~= "set"@);
            assert(ascii_lower("set"@) != "get"@);
            if let Some(ms) = expire {
                lemma_text_of_bulk("px"@);
                crate::frame::lemma_line_number(ms);
                assert(ascii_lower("px"@) =~= "px"@);
                assert(ascii_lower("px"@) != "ex"@);
            }
        },
        CommandView::Publish { channel, message } => {
            lemma_text_of_bulk("publish"@);
            lemma_text_of_bulk(channel);
            assert(ascii_lower("publish"@) =~= "publish"@);
        },
        CommandView::Subscribe { channels } => {
            lemma_text_of_bulk("subscribe"@);
            assert(ascii_lower("subscribe"@) =~= "subscribe"@);
            lemma_texts_of_bulks(xs, xs[0], channels);
        },
        CommandView::Unsubscribe { channels } => {
            lemma_text_of_bulk("unsubscribe"@);
            assert(ascii_lower("unsubscribe"@) =~= "unsubscribe"@);
            lemma_texts_of_bulks(xs, xs[0], channels);
        },
        CommandView::Ping { msg } => {
            lemma_text_of_bulk("ping"@);
            assert(ascii_lower("ping"@) =~= "ping"@);
            if let Some(m) = msg {
                lemma_text_of_bulk(m);
            }
        },
        CommandView::Unknown { .. } => {},
    }
}

} // verus!
