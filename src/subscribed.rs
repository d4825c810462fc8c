//! The subscribed mode of a connection: which channels it listens to, the
//! channels it still has to join, and its answers to the commands it gets
//! meanwhile.
use crate::cmd::{bulk_text, command_of, name_of, strings_view, unknown_reply, Command, CommandView};
use crate::db::Db;
use crate::frame::{views, Frame, FrameView};
use crate::parse::ParseError;
use tokio::sync::broadcast::Receiver;
use vstd::prelude::*;

verus! {

/// A frame that reports a subscription change: its kind, the channel and
/// the number of channels subscribed afterwards.
pub open spec fn count_frame(kind: Seq<char>, channel: Seq<char>, n: nat) -> FrameView {
    FrameView::Array(seq![bulk_text(kind), bulk_text(channel), FrameView::Integer(n as u64)])
}

/// The frame that delivers a message published on a channel.
pub open spec fn message_frame(channel: Seq<char>, message: Seq<u8>) -> FrameView {
    FrameView::Array(seq![bulk_text("message"@), bulk_text(channel), FrameView::Bulk(message)])
}

/// `cur` without the channel `name`.
pub open spec fn without(cur: Seq<Seq<char>>, name: Seq<char>) -> Seq<Seq<char>>
    decreases cur.len(),
{
    if cur.len() == 0 {
        cur
    } else {
        let rest = without(cur.subrange(0, cur.len() - 1), name);
        if cur[cur.len() - 1] == name {
            rest
        } else {
            rest.push(cur[cur.len() - 1])
        }
    }
}

/// Leaving the channels `names` in turn, starting from the channels `cur`:
/// one report per name, with the count left after it, and the channels
/// that remain.
pub open spec fn leave_all(cur: Seq<Seq<char>>, names: Seq<Seq<char>>) -> (Seq<FrameView>, Seq<Seq<char>>)
    decreases names.len(),
{
    if names.len() == 0 {
        (seq![], cur)
    } else {
        let (fs, c) = leave_all(cur, names.subrange(0, names.len() - 1));
        let c2 = without(c, names[names.len() - 1]);
        (fs.push(count_frame("unsubscribe"@, names[names.len() - 1], c2.len())), c2)
    }
}

/// Removing `x` keeps every other channel and removes no other, and keeps
/// the channels distinct.
pub proof fn lemma_without(s: Seq<Seq<char>>, x: Seq<char>)
    ensures
        forall|y: Seq<char>| #[trigger] without(s, x).contains(y) <==> (s.contains(y) && y != x),
        s.no_duplicates() ==> without(s, x).no_duplicates(),
    decreases s.len(),
{
    if s.len() > 0 {
        let init = s.subrange(0, s.len() - 1);
        let last = s[s.len() - 1];
        lemma_without(init, x);
        assert(s =~= init.push(last));
        let r = without(init, x);
        assert(without(s, x) == if last == x { r } else { r.push(last) });
        assert forall|y: Seq<char>| #[trigger] without(s, x).contains(y) implies (s.contains(y) && y != x) by {
            let w = without(s, x);
            let j = choose|j: int| 0 <= j < w.len() && w[j] == y;
            if last != x && j == r.len() {
                assert(s[s.len() - 1] == y);
            } else {
                assert(r[j] == y);
                assert(r.contains(y));
                let k = choose|k: int| 0 <= k < init.len() && init[k] == y;
                assert(s[k] == y);
            }
        }
        assert forall|y: Seq<char>| s.contains(y) && y != x implies #[trigger] without(s, x).contains(y) by {
            let j = choose|j: int| 0 <= j < s.len() && s[j] == y;
            if j == s.len() - 1 {
                assert(without(s, x)[r.len() as int] == y);
            } else {
                assert(init[j] == y);
                assert(init.contains(y));
                assert(r.contains(y));
                let k = choose|k: int| 0 <= k < r.len() && r[k] == y;
                assert(without(s, x)[k] == y);
            }
        }
        if s.no_duplicates() {
            assert(init.no_duplicates()) by {
                assert forall|a: int, b: int| 0 <= a < init.len() && 0 <= b < init.len() && a != b implies init[a] != init[b] by {
                    assert(init[a] == s[a] && init[b] == s[b]);
                }
            }
            if last != x {
                assert(!r.contains(last)) by {
                    if r.contains(last) {
                        let j = choose|j: int| 0 <= j < init.len() && init[j] == last;
                        assert(s[j] == s[s.len() - 1]);
                    }
                }
                assert(r.push(last).no_duplicates()) by {
                    assert forall|a: int, b: int| 0 <= a < r.push(last).len() && 0 <= b < r.push(last).len() && a != b implies r.push(last)[a] != r.push(last)[b] by {
                        if a == r.len() {
                            assert(r.contains(r[b]));
                        } else if b == r.len() {
                            assert(r.contains(r[a]));
                        }
                    }
                }
            }
        }
    }
}

/// Leaving channels keeps the remaining ones distinct.
pub proof fn lemma_leave_all_distinct(cur: Seq<Seq<char>>, names: Seq<Seq<char>>)
    requires
        cur.no_duplicates(),
    ensures
        leave_all(cur, names).1.no_duplicates(),
    decreases names.len(),
{
    if names.len() > 0 {
        let init = names.subrange(0, names.len() - 1);
        lemma_leave_all_distinct(cur, init);
        lemma_without(leave_all(cur, init).1, names[names.len() - 1]);
    }
}

/// Removing the first of distinct channels leaves the others in order.
proof fn lemma_without_first(s: Seq<Seq<char>>)
    requires
        s.len() > 0,
        s.no_duplicates(),
    ensures
        without(s, s[0]) == s.subrange(1, s.len() as int),
    decreases s.len(),
{
    if s.len() == 1 {
        assert(s.subrange(0, 0) =~= Seq::<Seq<char>>::empty());
        assert(s.subrange(1, 1) =~= Seq::<Seq<char>>::empty());
        assert(without(s.subrange(0, 0), s[0]) == s.subrange(0, 0));
        assert(without(s, s[0]) == without(s.subrange(0, 0), s[0]));
    } else {
        let init = s.subrange(0, s.len() - 1);
        assert(init.no_duplicates()) by {
            assert forall|a: int, b: int| 0 <= a < init.len() && 0 <= b < init.len() && a != b implies init[a] != init[b] by {
                assert(init[a] == s[a] && init[b] == s[b]);
            }
        }
        lemma_without_first(init);
        assert(init[0] == s[0]);
        assert(s[s.len() - 1] != s[0]);
        assert(without(s, s[0]) == without(init, s[0]).push(s[s.len() - 1]));
        assert(init.subrange(1, init.len() as int).push(s[s.len() - 1]) =~= s.subrange(1, s.len() as int));
    }
}

/// The reports of leaving the first `i` of distinct channels `cur`, in
/// order, with the counts going down, and the channels left.
proof fn lemma_leave_prefix(cur: Seq<Seq<char>>, i: int)
    requires
        cur.no_duplicates(),
        0 <= i <= cur.len(),
    ensures
        leave_all(cur, cur.subrange(0, i)) == (
            Seq::new(i as nat, |j: int| count_frame("unsubscribe"@, cur[j], (cur.len() - 1 - j) as nat)),
            cur.subrange(i, cur.len() as int),
        ),
    decreases i,
{
    let n = cur.len() as int;
    if i == 0 {
        assert(cur.subrange(0, 0) =~= Seq::<Seq<char>>::empty());
        assert(cur.subrange(0, n) =~= cur);
        assert(Seq::new(0, |j: int| count_frame("unsubscribe"@, cur[j], (n - 1 - j) as nat)) =~= Seq::<FrameView>::empty());
    } else {
        lemma_leave_prefix(cur, i - 1);
        let names = cur.subrange(0, i);
        assert(names.subrange(0, i - 1) =~= cur.subrange(0, i - 1));
        assert(names[i - 1] == cur[i - 1]);
        let rest = cur.subrange(i - 1, n);
        assert(rest.no_duplicates()) by {
            assert forall|a: int, b: int| 0 <= a < rest.len() && 0 <= b < rest.len() && a != b implies rest[a] != rest[b] by {
                assert(rest[a] == cur[i - 1 + a] && rest[b] == cur[i - 1 + b]);
            }
        }
        lemma_without_first(rest);
        assert(rest[0] == cur[i - 1]);
        assert(rest.subrange(1, rest.len() as int) =~= cur.subrange(i, n));
        assert(Seq::new((i - 1) as nat, |j: int| count_frame("unsubscribe"@, cur[j], (n - 1 - j) as nat)).push(
            count_frame("unsubscribe"@, cur[i - 1], (n - i) as nat),
        ) =~= Seq::new(i as nat, |j: int| count_frame("unsubscribe"@, cur[j], (n - 1 - j) as nat)));
    }
}

/// Leaving every one of distinct channels reports each, in the order they
/// were joined, with the count of those left going down to 0, and leaves
/// none.
pub proof fn law_unsubscribe_all(cur: Seq<Seq<char>>)
    requires
        cur.no_duplicates(),
    ensures
        leave_all(cur, cur) == (
            Seq::new(cur.len(), |j: int| count_frame("unsubscribe"@, cur[j], (cur.len() - 1 - j) as nat)),
            Seq::<Seq<char>>::empty(),
        ),
{
    lemma_leave_prefix(cur, cur.len() as int);
    assert(cur.subrange(0, cur.len() as int) =~= cur);
    assert(cur.subrange(cur.len() as int, cur.len() as int) =~= Seq::<Seq<char>>::empty());
}

/// The channels of a connection in subscribed mode.
pub struct Subscriptions {
    channels: Vec<String>,
    pending: Vec<String>,
}

/// The model of [`Subscriptions`]: the channels listened to, in the order
/// they were joined, and those still to join.
pub struct SubscriptionsView {
    pub channels: Seq<Seq<char>>,
    pub pending: Seq<Seq<char>>,
}

impl View for Subscriptions {
    type V = SubscriptionsView;

    closed spec fn view(&self) -> SubscriptionsView {
        SubscriptionsView { channels: strings_view(self.channels@), pending: strings_view(self.pending@) }
    }
}

fn bulk_string(s: &String) -> (f: Frame)
    ensures
        f@ == bulk_text(s@),
{
    Frame::Bulk(vstd::slice::slice_to_vec(s.as_str().as_bytes()))
}

fn bulk_str(s: &str) -> (f: Frame)
    ensures
        f@ == bulk_text(s@),
{
    Frame::Bulk(vstd::slice::slice_to_vec(s.as_bytes()))
}

fn three(a: Frame, b: Frame, c: Frame) -> (f: Frame)
    ensures
        f@ == FrameView::Array(seq![a@, b@, c@]),
{
    let mut v: Vec<Frame> = Vec::new();
    v.push(a);
    v.push(b);
    v.push(c);
    proof {
        crate::frame::lemma_array_view(v);
        assert(views(v@) =~= seq![a@, b@, c@]);
    }
    Frame::Array(v)
}

/// The report of a joined channel.
pub fn make_subscribe_frame(channel: &String, count: usize) -> (f: Frame)
    ensures
        f@ == count_frame("subscribe"@, channel@, count as nat),
{
    three(bulk_str("subscribe"), bulk_string(channel), Frame::Integer(count as u64))
}

/// The report of a channel left.
pub fn make_unsubscribe_frame(channel: &String, count: usize) -> (f: Frame)
    ensures
        f@ == count_frame("unsubscribe"@, channel@, count as nat),
{
    three(bulk_str("unsubscribe"), bulk_string(channel), Frame::Integer(count as u64))
}

/// The delivery of a message published on a channel.
pub fn make_message_frame(channel: &String, message: Vec<u8>) -> (f: Frame)
    ensures
        f@ == message_frame(channel@, message@),
{
    three(bulk_str("message"), bulk_string(channel), Frame::Bulk(message))
}

/// `cur` without the channel `name`.
fn remove_channel(cur: &Vec<String>, name: &String) -> (r: Vec<String>)
    ensures
        strings_view(r@) == without(strings_view(cur@), name@),
{
    let mut r: Vec<String> = Vec::new();
    let mut i: usize = 0;
    while i < cur.len()
        invariant
            i <= cur@.len(),
            strings_view(r@) == without(strings_view(cur@).subrange(0, i as int), name@),
        decreases cur@.len() - i,
    {
        let ghost before = r@;
        let keep = !(cur[i] == *name);
        if keep {
            r.push(cur[i].clone());
        }
        proof {
            let s = strings_view(cur@).subrange(0, i + 1);
            assert(s.subrange(0, i as int) =~= strings_view(cur@).subrange(0, i as int));
            assert(s[i as int] == cur@[i as int]@);
            if keep {
                assert(strings_view(r@) =~= strings_view(before).push(cur@[i as int]@));
            }
        }
        i = i + 1;
    }
    assert(strings_view(cur@).subrange(0, i as int) =~= strings_view(cur@));
    r
}

impl Subscriptions {
    /// The state on entering subscribed mode: no channel yet, `channels`
    /// to join.
    pub fn new(channels: Vec<String>) -> (r: Subscriptions)
        ensures
            r@.channels == Seq::<Seq<char>>::empty(),
            r@.channels.no_duplicates(),
            r@.pending == strings_view(channels@),
    {
        let r = Subscriptions { channels: Vec::new(), pending: channels };
        assert(r@.channels =~= Seq::<Seq<char>>::empty());
        r
    }

    /// The channels listened to, in the order they were joined.
    pub fn channels(&self) -> (r: &[String])
        ensures
            strings_view(r@) == self@.channels,
    {
        self.channels.as_slice()
    }

    /// Hands out the channels still to join, and forgets them.
    pub fn take_pending(&mut self) -> (r: Vec<String>)
        ensures
            strings_view(r@) == old(self)@.pending,
            final(self)@.pending == Seq::<Seq<char>>::empty(),
            final(self)@.channels == old(self)@.channels,
    {
        let mut r: Vec<String> = Vec::new();
        std::mem::swap(&mut r, &mut self.pending);
        assert(self@.pending =~= Seq::<Seq<char>>::empty());
        r
    }
}

/// Whether `cur` holds the channel `name`.
fn holds(cur: &Vec<String>, name: &String) -> (r: bool)
    ensures
        r == strings_view(cur@).contains(name@),
{
    let mut i: usize = 0;
    while i < cur.len()
        invariant
            i <= cur@.len(),
            forall|j: int| 0 <= j < i ==> (#[trigger] cur@[j])@ != name@,
        decreases cur@.len() - i,
    {
        if cur[i] == *name {
            assert(strings_view(cur@)[i as int] == name@);
            return true;
        }
        i = i + 1;
    }
    proof {
        if strings_view(cur@).contains(name@) {
            let j = choose|j: int| 0 <= j < strings_view(cur@).len() && strings_view(cur@)[j] == name@;
            assert(cur@[j]@ == name@);
        }
    }
    false
}

impl Subscriptions {
    /// Joins `channel`: gets a receiver for it from the state and reports
    /// the number of channels listened to. Joining a channel twice keeps
    /// one subscription.
    pub fn subscribe_to_channel(&mut self, channel: String, db: &mut Db) -> (r: (Receiver<Vec<u8>>, Frame))
        requires
            old(db).wf(),
            old(self)@.channels.no_duplicates(),
        ensures
            final(self)@.channels.no_duplicates(),
            final(db).wf(),
            final(db)@.channels == old(db)@.channels.insert(channel@),
            old(db)@.senders.contains_key(channel@) ==> final(db)@.senders == old(db)@.senders,
            final(db)@.store == old(db)@.store,
            final(db)@.next_id == old(db)@.next_id,
            final(db)@.shutdown == old(db)@.shutdown,
            final(self)@.pending == old(self)@.pending,
            final(self)@.channels == if old(self)@.channels.contains(channel@) {
                old(self)@.channels
            } else {
                old(self)@.channels.push(channel@)
            },
            r.1@ == count_frame("subscribe"@, channel@, final(self)@.channels.len()),
    {
        let rx = db.subscribe(channel.clone());
        if !holds(&self.channels, &channel) {
            let ghost before = self.channels@;
            self.channels.push(channel.clone());
            assert(strings_view(self.channels@) =~= strings_view(before).push(channel@));
            proof {
                let c = strings_view(self.channels@);
                assert forall|a: int, b: int| 0 <= a < c.len() && 0 <= b < c.len() && a != b implies c[a] != c[b] by {
                    if a == c.len() - 1 {
                        assert(strings_view(before).contains(c[b]));
                    } else if b == c.len() - 1 {
                        assert(strings_view(before).contains(c[a]));
                    }
                }
            }
        }
        let reply = make_subscribe_frame(&channel, self.channels.len());
        (rx, reply)
    }

    /// Answers a frame received in subscribed mode. `SUBSCRIBE` queues its
    /// channels to be joined; `UNSUBSCRIBE` leaves the channels it names,
    /// or every channel when it names none, with one report each; any
    /// other command is answered as unknown, and nothing changes.
    pub fn handle_command(&mut self, frame: Frame) -> (r: Result<Vec<Frame>, ParseError>)
        requires
            old(self)@.channels.no_duplicates(),
        ensures
            final(self)@.channels.no_duplicates(),
            match frame@ {
                FrameView::Array(xs) => match command_of(xs) {
                    Some(CommandView::Subscribe { channels }) => r matches Ok(v) && v@.len() == 0
                        && final(self)@.channels == old(self)@.channels && final(self)@.pending
                        == old(self)@.pending + channels,
                    Some(CommandView::Unsubscribe { channels }) => {
                        let names = if channels.len() == 0 { old(self)@.channels } else { channels };
                        &&& r matches Ok(v) && views(v@) == leave_all(old(self)@.channels, names).0
                        &&& final(self)@.channels == leave_all(old(self)@.channels, names).1
                        &&& final(self)@.pending == old(self)@.pending
                    },
                    Some(c) => r matches Ok(v) && views(v@) == seq![unknown_reply(name_of(c))]
                        && final(self)@ == old(self)@,
                    None => r is Err && final(self)@ == old(self)@,
                },
                _ => r is Err && final(self)@ == old(self)@,
            },
    {
        let cmd = match Command::from_frame(frame) {
            Ok(c) => c,
            Err(e) => return Err(e),
        };
        match cmd {
            Command::Subscribe(sub) => {
                let more = sub.into_channels();
                let ghost before = self.pending@;
                let mut i: usize = 0;
                while i < more.len()
                    invariant
                        i <= more@.len(),
                        self.channels@ == old(self).channels@,
                        strings_view(self.pending@) == strings_view(before) + strings_view(more@).subrange(0, i as int),
                    decreases more@.len() - i,
                {
                    let ghost prev = self.pending@;
                    self.pending.push(more[i].clone());
                    assert(strings_view(self.pending@) =~= strings_view(prev).push(more@[i as int]@));
                    i = i + 1;
                    assert(strings_view(self.pending@) =~= strings_view(before) + strings_view(more@).subrange(0, i as int));
                }
                assert(strings_view(more@).subrange(0, i as int) =~= strings_view(more@));
                Ok(Vec::new())
            },
            Command::Unsubscribe(unsub) => {
                let given = unsub.into_channels();
                let names = if given.len() == 0 {
                    crate::cmd::copy_strings(self.channels.as_slice())
                } else {
                    given
                };
                let ghost c0 = strings_view(self.channels@);
                let ghost ns = strings_view(names@);
                let mut replies: Vec<Frame> = Vec::new();
                let mut i: usize = 0;
                assert(ns.subrange(0, 0) =~= Seq::<Seq<char>>::empty());
                assert(views(replies@) =~= Seq::<FrameView>::empty());
                while i < names.len()
                    invariant
                        i <= names@.len(),
                        ns == strings_view(names@),
                        self.pending@ == old(self).pending@,
                        views(replies@) == leave_all(c0, ns.subrange(0, i as int)).0,
                        strings_view(self.channels@) == leave_all(c0, ns.subrange(0, i as int)).1,
                    decreases names@.len() - i,
                {
                    let ghost prev = replies@;
                    self.channels = remove_channel(&self.channels, &names[i]);
                    let f = make_unsubscribe_frame(&names[i], self.channels.len());
                    replies.push(f);
                    proof {
                        let s = ns.subrange(0, i + 1);
                        assert(s.subrange(0, i as int) =~= ns.subrange(0, i as int));
                        assert(s[i as int] == names@[i as int]@);
                        assert(views(replies@) =~= views(prev).push(f@));
                    }
                    i = i + 1;
                }
                assert(ns.subrange(0, i as int) =~= ns);
                proof {
                    lemma_leave_all_distinct(c0, ns);
                }
                Ok(replies)
            },
            other => {
                let u = crate::cmd::Unknown::new(other.get_name());
                let mut replies: Vec<Frame> = Vec::new();
                replies.push(u.apply());
                assert(views(replies@) =~= seq![unknown_reply(name_of(other@))]);
                Ok(replies)
            },
        }
    }
}

} // verus!
