//! The table of live connections, each with its idle countdown.

use vstd::prelude::*;

verus! {

/// How long a connection may stay idle before it is closed: five seconds,
/// in nanoseconds.
pub const DEFAULT_LIFETIME: u64 = 5_000_000_000;

/// One accepted connection: its socket, the peer's port (which is also its key
/// in the table) and how many nanoseconds of idleness it has left.
#[derive(Debug)]
pub struct Client<S> {
    pub stream: S,
    pub port: u16,
    pub lifetime: u64,
}

/// The key under which a connection is kept.
pub open spec fn key_of<S>(c: Client<S>) -> usize {
    c.port as usize
}

/// A connection with another remaining lifetime.
pub open spec fn with_lifetime<S>(c: Client<S>, lifetime: u64) -> Client<S> {
    Client { stream: c.stream, port: c.port, lifetime }
}

/// `a - b`, or zero where `b` is the larger.
pub open spec fn sat_sub(a: u64, b: u64) -> u64 {
    if a >= b {
        (a - b) as u64
    } else {
        0
    }
}

/// Keys are unique and no lifetime exceeds the default.
pub open spec fn table_wf<S>(s: Seq<Client<S>>) -> bool {
    &&& forall|i: int, j: int|
        0 <= i < s.len() && 0 <= j < s.len() && #[trigger] key_of(s[i]) == #[trigger] key_of(s[j])
            ==> i == j
    &&& forall|i: int| 0 <= i < s.len() ==> #[trigger] s[i].lifetime <= DEFAULT_LIFETIME
}

/// Whether some connection in `s` has this key.
pub open spec fn has_key<S>(s: Seq<Client<S>>, key: usize) -> bool {
    exists|i: int| 0 <= i < s.len() && key_of(#[trigger] s[i]) == key
}

/// The position of the connection with this key (meaningful where there is one).
pub open spec fn index_of<S>(s: Seq<Client<S>>, key: usize) -> int {
    choose|i: int| 0 <= i < s.len() && key_of(#[trigger] s[i]) == key
}

/// Every lifetime lowered by `elapsed`, stopping at zero.
pub open spec fn ticked<S>(s: Seq<Client<S>>, elapsed: u64) -> Seq<Client<S>> {
    s.map_values(|c: Client<S>| with_lifetime(c, sat_sub(c.lifetime, elapsed)))
}

/// Whether a connection has used up its lifetime.
pub open spec fn is_expired<S>(c: Client<S>) -> bool {
    c.lifetime == 0
}

/// `m` is the smallest lifetime in `s`, and some connection has it.
pub open spec fn is_lowest<S>(s: Seq<Client<S>>, m: u64) -> bool {
    &&& exists|i: int| 0 <= i < s.len() && #[trigger] s[i].lifetime == m
    &&& forall|i: int| 0 <= i < s.len() ==> m <= #[trigger] s[i].lifetime
}

/// A connection as it enters the table.
pub open spec fn fresh<S>(stream: S, port: u16) -> Client<S> {
    Client { stream, port, lifetime: DEFAULT_LIFETIME }
}

impl<S> Client<S> {
    /// A fresh connection with the default idle lifetime.
    pub fn new(stream: S, port: u16) -> (r: Client<S>)
        ensures
            r == fresh(stream, port),
    {
        Client { stream, port, lifetime: DEFAULT_LIFETIME }
    }
}

/// The live connections, in the order they were accepted. They are held in
/// one vector whose keys are kept unique, which serves both as the map from
/// key to connection and as the accept order: lookups hand out a mutable
/// borrow of an entry and ticks update entries in place, which a hash map's
/// verified interface does not offer.
#[derive(Debug)]
pub struct Clients<S> {
    clients: Vec<Client<S>>,
}

impl<S> View for Clients<S> {
    type V = Seq<Client<S>>;

    closed spec fn view(&self) -> Seq<Client<S>> {
        self.clients@
    }
}

impl<S> Clients<S> {
    pub open spec fn wf(&self) -> bool {
        table_wf(self@)
    }

    /// An empty table.
    pub fn new() -> (r: Clients<S>)
        ensures
            r@ == Seq::<Client<S>>::empty(),
            r.wf(),
    {
        Clients { clients: Vec::new() }
    }

    /// The number of live connections.
    pub fn len(&self) -> (r: usize)
        ensures
            r == self@.len(),
    {
        self.clients.len()
    }

    /// The position of the connection with this key, if there is one.
    fn find(&self, key: usize) -> (r: Option<usize>)
        requires
            self.wf(),
        ensures
            r is Some <==> has_key(self@, key),
            r is Some ==> r->0 < self@.len() && key_of(self@[r->0 as int]) == key
                && r->0 == index_of(self@, key),
    {
        let mut i: usize = 0;
        while i < self.clients.len()
            invariant
                0 <= i <= self@.len(),
                self@ == self.clients@,
                self.wf(),
                forall|j: int| 0 <= j < i ==> key_of(#[trigger] self@[j]) != key,
            decreases self@.len() - i,
        {
            if self.clients[i].port as usize == key {
                assert(key_of(self@[i as int]) == key);
                let ghost k = index_of(self@, key);
                assert(key_of(self@[k]) == key_of(self@[i as int]));
                return Some(i);
            }
            i = i + 1;
        }
        None
    }

    /// Looks up a connection by key.
    pub fn get(&self, key: usize) -> (r: Option<&Client<S>>)
        requires
            self.wf(),
        ensures
            r is Some <==> has_key(self@, key),
            r is Some ==> *r->0 == self@[index_of(self@, key)],
    {
        match self.find(key) {
            Some(i) => Some(&self.clients[i]),
            None => None,
        }
    }
}

impl<S> Clients<S> {
    /// The socket of the connection with this key, for reading and writing.
    pub fn get_mut(&mut self, key: usize) -> (r: Option<&mut S>)
        requires
            old(self).wf(),
        ensures
            r is Some <==> has_key(old(self)@, key),
            r is None ==> final(self)@ == old(self)@,
            r is Some ==> {
                let i = index_of(old(self)@, key);
                &&& *r->0 == old(self)@[i].stream
                &&& final(self)@ == old(self)@.update(
                    i,
                    Client { stream: *final(r->0), port: old(self)@[i].port, lifetime: old(self)@[i].lifetime },
                )
            },
    {
        match self.find(key) {
            Some(i) => Some(&mut self.clients[i].stream),
            None => None,
        }
    }

    /// Adds a fresh connection with the default lifetime at the end of the
    /// order, keyed by the peer's port. A connection that held the same key is
    /// taken out of the table and handed back, so that it can be closed.
    pub fn add(&mut self, stream: S, port: u16) -> (r: (usize, Option<Client<S>>))
        requires
            old(self).wf(),
        ensures
            final(self).wf(),
            r.0 == port as usize,
            has_key(old(self)@, r.0) ==> {
                let i = index_of(old(self)@, r.0);
                &&& r.1 == Some(old(self)@[i])
                &&& final(self)@ == old(self)@.remove(i).push(fresh(stream, port))
            },
            !has_key(old(self)@, r.0) ==> r.1 is None && final(self)@ == old(self)@.push(fresh(stream, port)),
    {
        let key = port as usize;
        let displaced = match self.find(key) {
            Some(i) => Some(self.clients.remove(i)),
            None => None,
        };
        let ghost mid = self@;
        self.clients.push(Client::new(stream, port));
        proof {
            assert forall|i: int, j: int|
                0 <= i < self@.len() && 0 <= j < self@.len() && #[trigger] key_of(self@[i])
                    == #[trigger] key_of(self@[j]) implies i == j by {
                if i < mid.len() && j < mid.len() {
                    assert(key_of(mid[i]) == key_of(mid[j]));
                    if displaced is Some {
                        let k = index_of(old(self)@, key);
                        let ii = if i < k { i } else { i + 1 };
                        let jj = if j < k { j } else { j + 1 };
                        assert(mid[i] == old(self)@[ii]);
                        assert(mid[j] == old(self)@[jj]);
                    }
                } else if i < mid.len() {
                    if displaced is Some {
                        let k = index_of(old(self)@, key);
                        let ii = if i < k { i } else { i + 1 };
                        assert(mid[i] == old(self)@[ii]);
                        assert(key_of(old(self)@[ii]) == key_of(old(self)@[k]));
                    } else {
                        assert(key_of(mid[i]) == key);
                    }
                } else if j < mid.len() {
                    if displaced is Some {
                        let k = index_of(old(self)@, key);
                        let jj = if j < k { j } else { j + 1 };
                        assert(mid[j] == old(self)@[jj]);
                        assert(key_of(old(self)@[jj]) == key_of(old(self)@[k]));
                    } else {
                        assert(key_of(mid[j]) == key);
                    }
                }
            }
            assert forall|i: int| 0 <= i < self@.len() implies #[trigger] self@[i].lifetime
                <= DEFAULT_LIFETIME by {
                if i < mid.len() && displaced is Some {
                    let k = index_of(old(self)@, key);
                    let ii = if i < k { i } else { i + 1 };
                    assert(mid[i] == old(self)@[ii]);
                }
            }
        }
        (key, displaced)
    }

    /// Takes the connection with this key out of the table; nothing happens
    /// where there is none.
    pub fn remove(&mut self, key: &usize) -> (r: Option<Client<S>>)
        requires
            old(self).wf(),
        ensures
            final(self).wf(),
            has_key(old(self)@, *key) ==> {
                let i = index_of(old(self)@, *key);
                &&& r == Some(old(self)@[i])
                &&& final(self)@ == old(self)@.remove(i)
            },
            !has_key(old(self)@, *key) ==> r is None && final(self)@ == old(self)@,
    {
        match self.find(*key) {
            Some(i) => {
                let c = self.clients.remove(i);
                proof {
                    assert forall|a: int, b: int|
                        0 <= a < self@.len() && 0 <= b < self@.len() && #[trigger] key_of(self@[a])
                            == #[trigger] key_of(self@[b]) implies a == b by {
                        let aa = if a < i { a } else { a + 1 };
                        let bb = if b < i { b } else { b + 1 };
                        assert(self@[a] == old(self)@[aa]);
                        assert(self@[b] == old(self)@[bb]);
                    }
                    assert forall|a: int| 0 <= a < self@.len() implies #[trigger] self@[a].lifetime
                        <= DEFAULT_LIFETIME by {
                        let aa = if a < i { a } else { a + 1 };
                        assert(self@[a] == old(self)@[aa]);
                    }
                }
                Some(c)
            },
            None => None,
        }
    }
}

impl<S> Clients<S> {
    /// Lowers every lifetime by `elapsed` nanoseconds, stopping at zero.
    pub fn sub_duration(&mut self, elapsed: u64)
        requires
            old(self).wf(),
        ensures
            final(self).wf(),
            final(self)@ == ticked(old(self)@, elapsed),
    {
        let mut i: usize = 0;
        while i < self.clients.len()
            invariant
                0 <= i <= self@.len(),
                self@.len() == old(self)@.len(),
                forall|j: int| 0 <= j < i ==> #[trigger] self@[j] == with_lifetime(
                    old(self)@[j],
                    sat_sub(old(self)@[j].lifetime, elapsed),
                ),
                forall|j: int| i <= j < self@.len() ==> #[trigger] self@[j] == old(self)@[j],
            decreases self@.len() - i,
        {
            let l = self.clients[i].lifetime;
            self.clients[i].lifetime = l.saturating_sub(elapsed);
            i = i + 1;
        }
        assert(self@ =~= ticked(old(self)@, elapsed));
        proof {
            assert forall|a: int, b: int|
                0 <= a < self@.len() && 0 <= b < self@.len() && #[trigger] key_of(self@[a])
                    == #[trigger] key_of(self@[b]) implies a == b by {
                assert(key_of(old(self)@[a]) == key_of(old(self)@[b]));
            }
            assert forall|a: int| 0 <= a < self@.len() implies #[trigger] self@[a].lifetime
                <= DEFAULT_LIFETIME by {
                assert(old(self)@[a].lifetime <= DEFAULT_LIFETIME);
            }
        }
    }

    /// Takes out every connection whose lifetime is used up, keeping the order
    /// of both those taken and those left.
    pub fn remove_inactive(&mut self) -> (r: Vec<Client<S>>)
        requires
            old(self).wf(),
        ensures
            final(self).wf(),
            r@ == old(self)@.filter(|c: Client<S>| is_expired(c)),
            final(self)@ == old(self)@.filter(|c: Client<S>| !is_expired(c)),
    {
        let ghost orig = self@;
        let ghost dead_p = |c: Client<S>| is_expired(c);
        let ghost live_p = |c: Client<S>| !is_expired(c);
        let mut dead: Vec<Client<S>> = Vec::new();
        let mut i: usize = 0;
        let ghost mut p: int = 0;
        assert(orig.take(0) =~= Seq::<Client<S>>::empty());
        reveal(Seq::filter);
        while i < self.clients.len()
            invariant
                0 <= i <= p <= orig.len(),
                self.wf(),
                dead@ == orig.take(p).filter(dead_p),
                self@ == orig.take(p).filter(live_p) + orig.skip(p),
                i == orig.take(p).filter(live_p).len(),
                dead_p == (|c: Client<S>| is_expired(c)),
                live_p == (|c: Client<S>| !is_expired(c)),
            decreases orig.len() - p,
        {
            proof {
                assert(orig.take(p + 1) =~= orig.take(p).push(orig[p]));
                orig.take(p).lemma_filter_push(orig[p], dead_p);
                orig.take(p).lemma_filter_push(orig[p], live_p);
                assert(self@[i as int] == orig[p]);
            }
            if self.clients[i].lifetime == 0 {
                let ghost before = self@;
                let c = self.clients.remove(i);
                dead.push(c);
                proof {
                    assert(self@ =~= orig.take(p + 1).filter(live_p) + orig.skip(p + 1));
                    assert forall|a: int, b: int|
                        0 <= a < self@.len() && 0 <= b < self@.len() && #[trigger] key_of(self@[a])
                            == #[trigger] key_of(self@[b]) implies a == b by {
                        let aa = if a < i { a } else { a + 1 };
                        let bb = if b < i { b } else { b + 1 };
                        assert(self@[a] == before[aa]);
                        assert(self@[b] == before[bb]);
                    }
                    assert forall|a: int| 0 <= a < self@.len() implies #[trigger] self@[a].lifetime
                        <= DEFAULT_LIFETIME by {
                        let aa = if a < i { a } else { a + 1 };
                        assert(self@[a] == before[aa]);
                    }
                }
            } else {
                proof {
                    assert(self@ =~= orig.take(p + 1).filter(live_p) + orig.skip(p + 1));
                }
                i = i + 1;
            }
            proof {
                p = p + 1;
            }
        }
        proof {
            assert(orig.skip(p).len() == self@.len() - i);
            assert(p == orig.len());
            assert(orig.take(p) =~= orig);
            assert(self@ =~= orig.filter(live_p));
        }
        dead
    }

    /// The smallest remaining lifetime, or nothing for an empty table.
    pub fn lowest_lifetime(&self) -> (r: Option<u64>)
        ensures
            r is None <==> self@.len() == 0,
            r is Some ==> is_lowest(self@, r->0),
    {
        if self.clients.len() == 0 {
            return None;
        }
        let mut low: u64 = self.clients[0].lifetime;
        let ghost mut at: int = 0;
        let mut i: usize = 1;
        while i < self.clients.len()
            invariant
                1 <= i <= self@.len(),
                0 <= at < i,
                self@[at].lifetime == low,
                forall|j: int| 0 <= j < i ==> low <= #[trigger] self@[j].lifetime,
            decreases self@.len() - i,
        {
            if self.clients[i].lifetime < low {
                low = self.clients[i].lifetime;
                proof {
                    at = i as int;
                }
            }
            i = i + 1;
        }
        assert(self@[at].lifetime == low);
        Some(low)
    }
}

/// A filter keeps every element of a sequence whose elements all satisfy it.
proof fn lemma_filter_keeps_all<A>(s: Seq<A>, pred: spec_fn(A) -> bool)
    requires
        forall|i: int| 0 <= i < s.len() ==> pred(#[trigger] s[i]),
    ensures
        s.filter(pred) == s,
    decreases s.len(),
{
    reveal(Seq::filter);
    if s.len() > 0 {
        lemma_filter_keeps_all(s.drop_last(), pred);
        assert(s.drop_last().push(s.last()) =~= s);
    }
}

/// A filter that no element satisfies leaves nothing.
proof fn lemma_filter_drops_all<A>(s: Seq<A>, pred: spec_fn(A) -> bool)
    requires
        forall|i: int| 0 <= i < s.len() ==> !pred(#[trigger] s[i]),
    ensures
        s.filter(pred) == Seq::<A>::empty(),
    decreases s.len(),
{
    reveal(Seq::filter);
    if s.len() > 0 {
        lemma_filter_drops_all(s.drop_last(), pred);
    }
    assert(s.filter(pred) =~= Seq::<A>::empty());
}

/// A tick lowers each lifetime by the time elapsed and stops at zero, however
/// much time has passed; no lifetime grows and nothing else changes.
pub proof fn lemma_tick_saturates<S>(s: Seq<Client<S>>, elapsed: u64)
    ensures
        ticked(s, elapsed).len() == s.len(),
        forall|i: int| 0 <= i < s.len() ==> {
            let after = #[trigger] ticked(s, elapsed)[i];
            &&& after.lifetime as int == if s[i].lifetime >= elapsed {
                s[i].lifetime - elapsed
            } else {
                0
            }
            &&& after.lifetime <= s[i].lifetime
            &&& after.stream == s[i].stream
            &&& after.port == s[i].port
        },
{
}

/// The table after a run of ticks, the earliest first.
pub open spec fn ticked_all<S>(s: Seq<Client<S>>, ticks: Seq<u64>) -> Seq<Client<S>>
    decreases ticks.len(),
{
    if ticks.len() == 0 {
        s
    } else {
        ticked(ticked_all(s, ticks.drop_last()), ticks.last())
    }
}

/// The time that a run of ticks adds up to.
pub open spec fn total(ticks: Seq<u64>) -> int
    decreases ticks.len(),
{
    if ticks.len() == 0 {
        0
    } else {
        total(ticks.drop_last()) + ticks.last()
    }
}

/// A run of ticks lowers each lifetime by the time it adds up to, stopping at
/// zero, as one tick of that length would.
pub proof fn lemma_ticks_add_up<S>(s: Seq<Client<S>>, ticks: Seq<u64>)
    ensures
        total(ticks) >= 0,
        ticked_all(s, ticks).len() == s.len(),
        forall|i: int| 0 <= i < s.len() ==> {
            let after = #[trigger] ticked_all(s, ticks)[i];
            &&& after.lifetime as int == if s[i].lifetime >= total(ticks) {
                s[i].lifetime - total(ticks)
            } else {
                0
            }
            &&& after.stream == s[i].stream
            &&& after.port == s[i].port
        },
    decreases ticks.len(),
{
    if ticks.len() > 0 {
        lemma_ticks_add_up(s, ticks.drop_last());
        let before = ticked_all(s, ticks.drop_last());
        assert forall|i: int| 0 <= i < s.len() implies {
            let after = #[trigger] ticked_all(s, ticks)[i];
            &&& after.lifetime as int == if s[i].lifetime >= total(ticks) {
                s[i].lifetime - total(ticks)
            } else {
                0
            }
            &&& after.stream == s[i].stream
            &&& after.port == s[i].port
        } by {
            assert(ticked_all(s, ticks)[i] == with_lifetime(
                before[i],
                sat_sub(before[i].lifetime, ticks.last()),
            ));
        }
    }
}

/// Connections that see no traffic all run out together, over any run of
/// ticks: once the ticks add up to the default lifetime, a sweep takes out
/// every one of them, in order, and leaves the table empty.
pub proof fn lemma_idle_connections_expire_over_ticks<S>(s: Seq<Client<S>>, ticks: Seq<u64>)
    requires
        table_wf(s),
        total(ticks) >= DEFAULT_LIFETIME,
    ensures
        ticked_all(s, ticks).filter(|c: Client<S>| is_expired(c)) == ticked_all(s, ticks),
        ticked_all(s, ticks).filter(|c: Client<S>| is_expired(c)).len() == s.len(),
        ticked_all(s, ticks).filter(|c: Client<S>| !is_expired(c)) == Seq::<Client<S>>::empty(),
{
    lemma_ticks_add_up(s, ticks);
    let t = ticked_all(s, ticks);
    assert forall|i: int| 0 <= i < t.len() implies is_expired(#[trigger] t[i]) by {
        assert(s[i].lifetime <= DEFAULT_LIFETIME);
    }
    lemma_filter_keeps_all(t, |c: Client<S>| is_expired(c));
    lemma_filter_drops_all(t, |c: Client<S>| !is_expired(c));
}

/// Without renewal the lowest lifetime falls by the time that a run of ticks
/// adds up to, stopping at zero; it never rises.
pub proof fn lemma_lowest_over_ticks<S>(s: Seq<Client<S>>, ticks: Seq<u64>, before: u64, after: u64)
    requires
        is_lowest(s, before),
        is_lowest(ticked_all(s, ticks), after),
    ensures
        after as int == if before >= total(ticks) { before - total(ticks) } else { 0 },
        after <= before,
{
    lemma_ticks_add_up(s, ticks);
    let t = ticked_all(s, ticks);
    let i = choose|i: int| 0 <= i < s.len() && #[trigger] s[i].lifetime == before;
    assert(t[i].lifetime >= after);
    let j = choose|j: int| 0 <= j < t.len() && #[trigger] t[j].lifetime == after;
    assert(s[j].lifetime >= before);
}

} // verus!
