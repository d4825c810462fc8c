//! The shared state of the server: the key-value entries with their
//! expiration index, and the broadcast channel of each channel name.
//!
//! Time is a number of milliseconds on the caller's clock, handed in to
//! each operation that reads it.
use tokio::sync::broadcast::{Receiver, Sender};
use vstd::hash_map::StringHashMap;
use vstd::prelude::*;

verus! {

/// tokio's broadcast sender, carried as an opaque value.
#[verifier::external_type_specification]
#[verifier::external_body]
#[verifier::reject_recursive_types(T)]
pub struct ExSender<T>(tokio::sync::broadcast::Sender<T>);

/// tokio's broadcast receiver, handed to the caller as an opaque value.
#[verifier::external_type_specification]
#[verifier::external_body]
#[verifier::reject_recursive_types(T)]
pub struct ExReceiver<T>(tokio::sync::broadcast::Receiver<T>);

/// How many messages a channel holds for a receiver that falls behind.
pub const CHANNEL_CAPACITY: usize = 1024;

/// The capacity that a broadcast channel was made with.
pub uninterp spec fn channel_capacity(tx: Sender<Vec<u8>>) -> nat;

/// Relies on `tokio::sync::broadcast::channel`, which panics on a capacity
/// of zero or above `usize::MAX >> 1`: a new channel made with the given
/// capacity, with its one receiver.
#[verifier::external_body]
fn new_channel(capacity: usize) -> (r: (Sender<Vec<u8>>, Receiver<Vec<u8>>))
    requires
        0 < capacity <= usize::MAX / 2,
    ensures
        channel_capacity(r.0) == capacity,
{
    tokio::sync::broadcast::channel(capacity)
}

/// Relies on `tokio::sync::broadcast::Sender::subscribe`: a new receiver
/// of the channel.
#[verifier::external_body]
fn new_receiver(tx: &Sender<Vec<u8>>) -> Receiver<Vec<u8>> {
    tx.subscribe()
}

/// Relies on `tokio::sync::broadcast::Sender::send`: it fails when the
/// channel has no receiver, and otherwise gives the number of receivers,
/// which is at least one.
#[verifier::external_body]
fn send_message(tx: &Sender<Vec<u8>>, message: Vec<u8>) -> (r: Option<usize>)
    ensures
        r is Some ==> r->0 >= 1,
{
    tx.send(message).ok()
}

/// The number of receivers that a broadcast send reached: what it
/// reported, or 0 when it failed.
pub open spec fn receivers_reached_spec(sent: Option<usize>) -> usize {
    match sent {
        Some(n) => n,
        None => 0,
    }
}

/// The count that a publish reports from what the broadcast send gave:
/// the number of receivers, or 0 when the send failed for want of any.
pub fn receivers_reached(sent: Option<usize>) -> (r: usize)
    ensures
        r == receivers_reached_spec(sent),
{
    match sent {
        Some(n) => n,
        None => 0,
    }
}

/// A value stored under a key.
struct Entry {
    id: u64,
    data: Vec<u8>,
    expires_at: Option<u64>,
}

/// A deadline in the expiration index, with the entry it belongs to.
struct Expiration {
    when: u64,
    id: u64,
    key: String,
}

/// The key-value entries, the expiration index and the channels.
pub struct Db {
    entries: StringHashMap<Entry>,
    pub_sub: StringHashMap<Sender<Vec<u8>>>,
    /// One pair per entry that has a deadline, in no particular order: the
    /// earliest is found by a scan.
    expirations: Vec<Expiration>,
    next_id: u64,
    shutdown: bool,
}

/// The model of the state: each key's value and deadline, the channels
/// that have a sender and those senders, the next entry id and the
/// shutdown flag.
pub struct DbView {
    pub store: Map<Seq<char>, (Seq<u8>, Option<u64>)>,
    pub channels: Set<Seq<char>>,
    pub senders: Map<Seq<char>, Sender<Vec<u8>>>,
    pub next_id: nat,
    pub shutdown: bool,
}

/// Whether a deadline has passed at time `now`.
pub open spec fn expired(deadline: Option<u64>, now: u64) -> bool {
    match deadline {
        Some(t) => t <= now,
        None => false,
    }
}

/// What a read of `key` at time `now` finds: the value, unless there is
/// none or its deadline has passed.
pub open spec fn lookup(store: Map<Seq<char>, (Seq<u8>, Option<u64>)>, key: Seq<char>, now: u64) -> Option<Seq<u8>> {
    if store.contains_key(key) && !expired(store[key].1, now) {
        Some(store[key].0)
    } else {
        None
    }
}

/// The deadline of a value stored at `now` to live `expire` milliseconds;
/// it saturates at the largest `u64`.
pub open spec fn deadline_of(now: u64, expire: Option<u64>) -> Option<u64> {
    match expire {
        Some(d) => Some(if now + d > u64::MAX { u64::MAX } else { (now + d) as u64 }),
        None => None,
    }
}

/// Whether storing a value at `now` to live `expire` milliseconds must wake
/// the expiration task: it gets a deadline, and that deadline comes before
/// every deadline stored so far.
pub open spec fn wakes(store: Map<Seq<char>, (Seq<u8>, Option<u64>)>, now: u64, expire: Option<u64>) -> bool {
    match deadline_of(now, expire) {
        Some(t) => forall|k: Seq<char>| #[trigger] store.contains_key(k) && store[k].1 is Some ==> t
            < store[k].1->0,
        None => false,
    }
}

/// The entries that are left once those whose deadline has passed at
/// `now` are removed.
pub open spec fn purged(store: Map<Seq<char>, (Seq<u8>, Option<u64>)>, now: u64) -> Map<Seq<char>, (Seq<u8>, Option<u64>)> {
    Map::new(|k: Seq<char>| store.contains_key(k) && !expired(store[k].1, now), |k: Seq<char>| store[k])
}

/// `t` is the earliest deadline of the store; `None` when no entry has one.
pub open spec fn is_earliest(store: Map<Seq<char>, (Seq<u8>, Option<u64>)>, r: Option<u64>) -> bool {
    match r {
        None => forall|k: Seq<char>| #[trigger] store.contains_key(k) ==> store[k].1 is None,
        Some(t) => (exists|k: Seq<char>| #[trigger] store.contains_key(k) && store[k].1 == Some(t))
            && forall|k: Seq<char>| #[trigger] store.contains_key(k) && store[k].1 is Some ==> t
            <= store[k].1->0,
    }
}

spec fn pair_ok(m: Map<Seq<char>, Entry>, x: Expiration) -> bool {
    &&& m.contains_key(x.key@)
    &&& m[x.key@].id == x.id
    &&& m[x.key@].expires_at == Some(x.when)
}

spec fn has_pair(e: Seq<Expiration>, k: Seq<char>) -> bool {
    exists|i: int| 0 <= i < e.len() && (#[trigger] e[i]).key@ == k
}

impl View for Db {
    type V = DbView;

    closed spec fn view(&self) -> DbView {
        DbView {
            store: Map::new(
                |k: Seq<char>| self.entries@.contains_key(k),
                |k: Seq<char>| (self.entries@[k].data@, self.entries@[k].expires_at),
            ),
            channels: self.pub_sub@.dom(),
            senders: self.pub_sub@,
            next_id: self.next_id as nat,
            shutdown: self.shutdown,
        }
    }
}

impl Db {
    /// The state is consistent: every deadline of an entry stands in the
    /// index under the entry's id, every pair of the index belongs to the
    /// entry it names, ids in the index are unique, and every id is below
    /// the next one to hand out.
    pub closed spec fn wf(&self) -> bool {
        let m = self.entries@;
        let e = self.expirations@;
        &&& forall|k: Seq<char>| #[trigger] m.contains_key(k) ==> m[k].id < self.next_id
        &&& forall|i: int| 0 <= i < e.len() ==> pair_ok(m, #[trigger] e[i])
        &&& forall|k: Seq<char>| #[trigger] m.contains_key(k) && m[k].expires_at is Some ==> has_pair(e, k)
        &&& forall|i: int, j: int|
            0 <= i < e.len() && 0 <= j < e.len() && i != j ==> (#[trigger] e[i]).id != (#[trigger] e[j]).id
    }

    /// An empty state.
    pub fn new() -> (r: Db)
        ensures
            r.wf(),
            r@.store == Map::<Seq<char>, (Seq<u8>, Option<u64>)>::empty(),
            r@.channels == Set::<Seq<char>>::empty(),
            r@.senders == Map::<Seq<char>, Sender<Vec<u8>>>::empty(),
            r@.next_id == 0,
            !r@.shutdown,
    {
        let r = Db {
            entries: StringHashMap::new(),
            pub_sub: StringHashMap::new(),
            expirations: Vec::new(),
            next_id: 0,
            shutdown: false,
        };
        assert(r@.store =~= Map::<Seq<char>, (Seq<u8>, Option<u64>)>::empty());
        r
    }

    /// The value stored under `key`, unless its deadline has passed at
    /// `now`.
    pub fn get(&self, key: &str, now: u64) -> (r: Option<Vec<u8>>)
        ensures
            match r {
                Some(v) => lookup(self@.store, key@, now) == Some(v@),
                None => lookup(self@.store, key@, now) is None,
            },
    {
        match self.entries.get(key) {
            Some(entry) => {
                match entry.expires_at {
                    Some(t) => if t <= now {
                        return None;
                    },
                    None => {},
                }
                Some(vstd::slice::slice_to_vec(entry.data.as_slice()))
            },
            None => None,
        }
    }
}

impl Db {
    /// The index of the pair `(when, id)` in the expiration index.
    fn find_expiration(&self, when: u64, id: u64) -> (r: usize)
        requires
            exists|j: int|
                0 <= j < self.expirations@.len() && (#[trigger] self.expirations@[j]).when == when
                    && self.expirations@[j].id == id,
        ensures
            r < self.expirations@.len(),
            self.expirations@[r as int].when == when,
            self.expirations@[r as int].id == id,
    {
        let mut i: usize = 0;
        while i < self.expirations.len()
            invariant
                i <= self.expirations@.len(),
                forall|j: int|
                    0 <= j < i ==> !((#[trigger] self.expirations@[j]).when == when
                        && self.expirations@[j].id == id),
            decreases self.expirations@.len() - i,
        {
            if self.expirations[i].when == when && self.expirations[i].id == id {
                return i;
            }
            i = i + 1;
        }
        proof {
            let j = choose|j: int|
                0 <= j < self.expirations@.len() && (#[trigger] self.expirations@[j]).when == when
                    && self.expirations@[j].id == id;
            assert(self.expirations@[j].when == when);
        }
        0
    }

    /// The index of a pair whose deadline has passed at `now`, if any.
    fn find_expired(&self, now: u64) -> (r: Option<usize>)
        ensures
            match r {
                Some(i) => i < self.expirations@.len() && self.expirations@[i as int].when <= now,
                None => forall|j: int|
                    0 <= j < self.expirations@.len() ==> (#[trigger] self.expirations@[j]).when > now,
            },
    {
        let mut i: usize = 0;
        while i < self.expirations.len()
            invariant
                i <= self.expirations@.len(),
                forall|j: int| 0 <= j < i ==> (#[trigger] self.expirations@[j]).when > now,
            decreases self.expirations@.len() - i,
        {
            if self.expirations[i].when <= now {
                return Some(i);
            }
            i = i + 1;
        }
        None
    }

    /// Removes the pair at index `i` together with the entry it belongs to.
    fn remove_expired_at(&mut self, i: usize)
        requires
            old(self).wf(),
            i < old(self).expirations@.len(),
        ensures
            final(self).wf(),
            final(self).entries@ == old(self).entries@.remove(old(self).expirations@[i as int].key@),
            final(self).expirations@ == old(self).expirations@.remove(i as int),
            final(self).next_id == old(self).next_id,
            final(self).shutdown == old(self).shutdown,
            final(self).pub_sub@ == old(self).pub_sub@,
    {
        let ghost m = self.entries@;
        let ghost e = self.expirations@;
        let x = self.expirations.remove(i);
        self.entries.remove(x.key.as_str());
        proof {
            let k = x.key@;
            let m2 = self.entries@;
            let e2 = self.expirations@;
            assert(pair_ok(m, e[i as int]));
            assert forall|j: int| 0 <= j < e2.len() implies pair_ok(m2, #[trigger] e2[j]) by {
                let j0 = if j < i { j } else { j + 1 };
                assert(e2[j] == e[j0]);
                assert(pair_ok(m, e[j0]));
                assert(e[j0].id != e[i as int].id);
            }
            assert forall|key: Seq<char>| #[trigger] m2.contains_key(key) && m2[key].expires_at is Some implies has_pair(e2, key) by {
                assert(m.contains_key(key) && m[key] == m2[key]);
                assert(has_pair(e, key));
                let j0 = choose|j0: int| 0 <= j0 < e.len() && (#[trigger] e[j0]).key@ == key;
                assert(j0 != i);
                let j = if j0 < i { j0 } else { j0 - 1 };
                assert(e2[j] == e[j0]);
            }
            assert forall|a: int, b: int| 0 <= a < e2.len() && 0 <= b < e2.len() && a != b implies (#[trigger] e2[a]).id != (#[trigger] e2[b]).id by {
                let a0 = if a < i { a } else { a + 1 };
                let b0 = if b < i { b } else { b + 1 };
                assert(e2[a] == e[a0]);
                assert(e2[b] == e[b0]);
            }
        }
    }

    /// The earliest deadline in the expiration index.
    pub fn next_expiration(&self) -> (r: Option<u64>)
        requires
            self.wf(),
        ensures
            is_earliest(self@.store, r),
    {
        let mut best: Option<u64> = None;
        let mut i: usize = 0;
        while i < self.expirations.len()
            invariant
                i <= self.expirations@.len(),
                best is None ==> i == 0,
                best is Some ==> exists|j: int| 0 <= j < i && (#[trigger] self.expirations@[j]).when == best->0,
                best is Some ==> forall|j: int| 0 <= j < i ==> best->0 <= (#[trigger] self.expirations@[j]).when,
            decreases self.expirations@.len() - i,
        {
            let w = self.expirations[i].when;
            best = match best {
                Some(b) => if w < b { Some(w) } else { Some(b) },
                None => Some(w),
            };
            i = i + 1;
        }
        proof {
            let m = self.entries@;
            let e = self.expirations@;
            let store = self@.store;
            match best {
                None => {
                    assert forall|k: Seq<char>| #[trigger] store.contains_key(k) implies store[k].1 is None by {
                        if m[k].expires_at is Some {
                            assert(m.contains_key(k));
                            assert(has_pair(e, k));
                        }
                    }
                },
                Some(t) => {
                    let j = choose|j: int| 0 <= j < i && (#[trigger] e[j]).when == t;
                    assert(pair_ok(m, e[j]));
                    assert(store.contains_key(e[j].key@) && store[e[j].key@].1 == Some(t));
                    assert forall|k: Seq<char>| #[trigger] store.contains_key(k) && store[k].1 is Some implies t <= store[k].1->0 by {
                        assert(m.contains_key(k));
                        assert(has_pair(e, k));
                        let j0 = choose|j0: int| 0 <= j0 < e.len() && (#[trigger] e[j0]).key@ == k;
                        assert(pair_ok(m, e[j0]));
                    }
                },
            }
        }
        best
    }
}

impl Db {
    /// Stores `value` under `key` at time `now`, to live `expire`
    /// milliseconds when given. The new entry replaces any earlier one
    /// under the key, with its deadline. The result says whether the
    /// expiration task must be woken: the new deadline comes before every
    /// deadline that was stored. `None` when every entry id has been used;
    /// nothing changes then.
    pub fn set(&mut self, key: String, value: Vec<u8>, expire: Option<u64>, now: u64) -> (r: Option<bool>)
        requires
            old(self).wf(),
        ensures
            final(self).wf(),
            final(self)@.senders == old(self)@.senders,
            final(self)@.shutdown == old(self)@.shutdown,
            old(self)@.next_id >= u64::MAX ==> r is None && final(self)@ == old(self)@,
            old(self)@.next_id < u64::MAX ==> {
                &&& r is Some
                &&& final(self)@.store == old(self)@.store.insert(key@, (value@, deadline_of(now, expire)))
                &&& final(self)@.next_id == old(self)@.next_id + 1
                &&& r->0 == wakes(old(self)@.store, now, expire)
            },
    {
        if self.next_id == u64::MAX {
            return None;
        }
        let ghost store0 = self@.store;
        let id = self.next_id;
        let when = match expire {
            Some(d) => Some(if d > u64::MAX - now { u64::MAX } else { now + d }),
            None => None,
        };
        let notify = match when {
            Some(t) => match self.next_expiration() {
                Some(earliest) => t < earliest,
                None => true,
            },
            None => false,
        };
        let mut prior: Option<(u64, u64)> = None;
        match self.entries.get(key.as_str()) {
            Some(prev) => {
                if let Some(t0) = prev.expires_at {
                    prior = Some((t0, prev.id));
                }
            },
            None => {},
        }
        if let Some((t0, id0)) = prior {
            proof {
                let e = self.expirations@;
                assert(self.entries@.contains_key(key@));
                assert(has_pair(e, key@));
                let j = choose|j: int| 0 <= j < e.len() && (#[trigger] e[j]).key@ == key@;
                assert(pair_ok(self.entries@, e[j]));
            }
            let idx = self.find_expiration(t0, id0);
            proof {
                let e = self.expirations@;
                assert(pair_ok(self.entries@, e[idx as int]));
            }
            self.remove_expired_at(idx);
        }
        let ghost m1 = self.entries@;
        let ghost e1 = self.expirations@;
        proof {
            assert forall|j: int| 0 <= j < e1.len() implies (#[trigger] e1[j]).key@ != key@ by {
                assert(pair_ok(m1, e1[j]));
            }
        }
        self.next_id = id + 1;
        match when {
            Some(t) => {
                self.expirations.push(Expiration { when: t, id, key: key.clone() });
            },
            None => {},
        }
        self.entries.insert(key, Entry { id, data: value, expires_at: when });
        proof {
            let m = self.entries@;
            let e = self.expirations@;
            assert forall|j: int| 0 <= j < e.len() implies pair_ok(m, #[trigger] e[j]) by {
                if j < e1.len() {
                    assert(e[j] == e1[j]);
                    assert(pair_ok(m1, e1[j]));
                }
            }
            assert forall|k: Seq<char>| #[trigger] m.contains_key(k) && m[k].expires_at is Some implies has_pair(e, k) by {
                if k == key@ {
                    assert(e[e.len() - 1].key@ == k);
                } else {
                    assert(has_pair(e1, k));
                    let j0 = choose|j0: int| 0 <= j0 < e1.len() && (#[trigger] e1[j0]).key@ == k;
                    assert(e[j0] == e1[j0]);
                }
            }
            assert forall|a: int, b: int| 0 <= a < e.len() && 0 <= b < e.len() && a != b implies (#[trigger] e[a]).id != (#[trigger] e[b]).id by {
                if a < e1.len() {
                    assert(e[a] == e1[a]);
                    assert(pair_ok(m1, e1[a]));
                }
                if b < e1.len() {
                    assert(e[b] == e1[b]);
                    assert(pair_ok(m1, e1[b]));
                }
            }
            assert(self@.store =~= store0.insert(key@, (value@, deadline_of(now, expire))));
        }
        Some(notify)
    }

    /// Removes every entry whose deadline has passed at `now` and gives the
    /// earliest deadline left. Once shutdown is requested it does nothing
    /// and gives `None`.
    pub fn purge_expired_keys(&mut self, now: u64) -> (r: Option<u64>)
        requires
            old(self).wf(),
        ensures
            final(self).wf(),
            final(self)@.senders == old(self)@.senders,
            final(self)@.shutdown == old(self)@.shutdown,
            final(self)@.next_id == old(self)@.next_id,
            old(self)@.shutdown ==> r is None && final(self)@.store == old(self)@.store,
            !old(self)@.shutdown ==> final(self)@.store == purged(old(self)@.store, now) && is_earliest(
                final(self)@.store,
                r,
            ),
    {
        if self.shutdown {
            return None;
        }
        let ghost m0 = self.entries@;
        loop
            invariant
                self.wf(),
                !self.shutdown,
                self.next_id == old(self).next_id,
                self.pub_sub@ == old(self).pub_sub@,
                m0 == old(self).entries@,
                forall|k: Seq<char>| #[trigger] self.entries@.contains_key(k) ==> m0.contains_key(k)
                    && self.entries@[k] == m0[k],
                forall|k: Seq<char>| #[trigger] m0.contains_key(k) && !expired(m0[k].expires_at, now)
                    ==> self.entries@.contains_key(k),
            ensures
                self.wf(),
                !self.shutdown,
                self.next_id == old(self).next_id,
                self.pub_sub@ == old(self).pub_sub@,
                forall|k: Seq<char>| #[trigger] self.entries@.contains_key(k) ==> m0.contains_key(k)
                    && self.entries@[k] == m0[k],
                forall|k: Seq<char>| #[trigger] m0.contains_key(k) && !expired(m0[k].expires_at, now)
                    ==> self.entries@.contains_key(k),
                forall|j: int|
                    0 <= j < self.expirations@.len() ==> (#[trigger] self.expirations@[j]).when > now,
            decreases self.expirations@.len(),
        {
            match self.find_expired(now) {
                Some(i) => {
                    proof {
                        assert(pair_ok(self.entries@, self.expirations@[i as int]));
                    }
                    self.remove_expired_at(i);
                },
                None => break,
            }
        }
        proof {
            let m = self.entries@;
            let e = self.expirations@;
            assert forall|k: Seq<char>| #[trigger] m.contains_key(k) implies !expired(m[k].expires_at, now) by {
                if m[k].expires_at is Some {
                    assert(has_pair(e, k));
                    let j = choose|j: int| 0 <= j < e.len() && (#[trigger] e[j]).key@ == k;
                    assert(pair_ok(m, e[j]));
                }
            }
            assert(self@.store =~= purged(old(self)@.store, now));
        }
        self.next_expiration()
    }

    /// A new receiver on the channel named `channel`; its sender is made,
    /// with room for [`CHANNEL_CAPACITY`] messages, when the channel has
    /// none yet.
    pub fn subscribe(&mut self, channel: String) -> (r: Receiver<Vec<u8>>)
        requires
            old(self).wf(),
        ensures
            final(self).wf(),
            final(self)@.channels == old(self)@.channels.insert(channel@),
            old(self)@.senders.contains_key(channel@) ==> final(self)@.senders == old(self)@.senders,
            !old(self)@.senders.contains_key(channel@) ==> final(self)@.senders == old(self)@.senders.insert(
                channel@,
                final(self)@.senders[channel@],
            ) && channel_capacity(final(self)@.senders[channel@]) == CHANNEL_CAPACITY,
            final(self)@.store == old(self)@.store,
            final(self)@.next_id == old(self)@.next_id,
            final(self)@.shutdown == old(self)@.shutdown,
    {
        let found = match self.pub_sub.get(channel.as_str()) {
            Some(tx) => Some(new_receiver(tx)),
            None => None,
        };
        match found {
            Some(rx) => {
                assert(old(self)@.channels.insert(channel@) =~= old(self)@.channels);
                rx
            },
            None => {
                let (tx, rx) = new_channel(CHANNEL_CAPACITY);
                self.pub_sub.insert(channel, tx);
                assert(self@.channels =~= old(self)@.channels.insert(channel@));
                rx
            },
        }
    }

    /// Sends `message` on the channel named `channel` and gives the number
    /// of receivers it went to: 0 when the channel has no sender, or no
    /// receiver is left.
    pub fn publish(&self, channel: &str, message: Vec<u8>) -> (r: usize)
        ensures
            !self@.channels.contains(channel@) ==> r == 0,
    {
        match self.pub_sub.get(channel) {
            Some(tx) => receivers_reached(send_message(tx, message)),
            None => 0,
        }
    }

    /// Marks the state as shut down, so that the expiration task stops.
    pub fn shutdown_purge_task(&mut self)
        requires
            old(self).wf(),
        ensures
            final(self).wf(),
            final(self)@.shutdown,
            final(self)@.store == old(self)@.store,
            final(self)@.senders == old(self)@.senders,
            final(self)@.next_id == old(self)@.next_id,
    {
        self.shutdown = true;
    }

    /// Whether shutdown has been requested.
    pub fn is_shutdown(&self) -> (r: bool)
        ensures
            r == self@.shutdown,
    {
        self.shutdown
    }
}

/// A value set without an expiry is read back at any time, after any
/// number of sets of other keys and of purges of expired entries, until the
/// key is set again.
pub proof fn law_get_after_set(
    store: Map<Seq<char>, (Seq<u8>, Option<u64>)>,
    key: Seq<char>,
    value: Seq<u8>,
    set_at: u64,
    read_at: u64,
)
    ensures
        ({
            let s1 = store.insert(key, (value, deadline_of(set_at, None)));
            &&& lookup(s1, key, read_at) == Some(value)
            &&& forall|other: Seq<char>, v: Seq<u8>, d: Option<u64>|
                other != key ==> lookup(#[trigger] s1.insert(other, (v, d)), key, read_at) == Some(
                    value,
                )
            &&& forall|t: u64| lookup(#[trigger] purged(s1, t), key, read_at) == Some(value)
        }),
{
    let s1 = store.insert(key, (value, deadline_of(set_at, None)));
    assert forall|t: u64| lookup(#[trigger] purged(s1, t), key, read_at) == Some(value) by {
        assert(purged(s1, t).contains_key(key));
    }
}

/// A value set at `set_at` to live `ttl` milliseconds is read back before
/// its deadline and not from its deadline on; a purge from the deadline on
/// removes it.
pub proof fn law_expiration(
    store: Map<Seq<char>, (Seq<u8>, Option<u64>)>,
    key: Seq<char>,
    value: Seq<u8>,
    set_at: u64,
    ttl: u64,
    read_at: u64,
)
    requires
        set_at + ttl <= u64::MAX,
    ensures
        ({
            let s1 = store.insert(key, (value, deadline_of(set_at, Some(ttl))));
            &&& read_at < set_at + ttl ==> lookup(s1, key, read_at) == Some(value)
            &&& read_at >= set_at + ttl ==> lookup(s1, key, read_at) is None
            &&& read_at >= set_at + ttl ==> !purged(s1, read_at).contains_key(key)
        }),
{
}

} // verus!
