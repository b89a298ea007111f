//! The decisions of the readiness loop: what to do with each event the
//! multiplexer reports and with what the socket calls gave back. The loop
//! itself, which waits, accepts, reads and writes, runs outside and hands the
//! outcomes in.

use vstd::prelude::*;
use vstd::string::StringSliceAdditionalSpecFns;
use crate::client::{
    Client, Clients, fresh, has_key, index_of, is_expired, is_lowest, key_of, table_wf, ticked,
};
use crate::request::{parse_of, parse_request, ParseStatus, Parsed, Request};
use crate::response::{Response, Status};

verus! {

/// The multiplexer key of the listening socket.
pub const LISTENER_KEY: usize = 0;

/// How many bytes one read on a connection takes at most.
pub const READ_BUFFER_SIZE: usize = 2048;

/// How many headers a request may carry.
pub const MAX_HEADERS: usize = 32;

/// What an event's key asks for.
#[derive(Clone, Copy, Debug, PartialEq, Eq, Structural)]
pub enum Dispatch {
    /// The listener is ready: accept one connection.
    Accept,
    /// A live connection is ready: read from it once.
    Read,
    /// No live connection has this key (it was already closed): ignore it.
    Unknown,
}

/// The keys of the connections in a table.
pub open spec fn keys<S>(s: Seq<Client<S>>) -> Set<usize> {
    Set::new(|k: usize| has_key(s, k))
}

/// What the event with this key asks for.
pub open spec fn dispatch_of<S>(s: Seq<Client<S>>, key: usize) -> Dispatch {
    if key == LISTENER_KEY {
        Dispatch::Accept
    } else if has_key(s, key) {
        Dispatch::Read
    } else {
        Dispatch::Unknown
    }
}

/// Decides what the event with this key asks for.
pub fn dispatch<S>(clients: &Clients<S>, key: usize) -> (r: Dispatch)
    requires
        clients.wf(),
    ensures
        r == dispatch_of(clients@, key),
{
    if key == LISTENER_KEY {
        Dispatch::Accept
    } else if clients.get(key).is_some() {
        Dispatch::Read
    } else {
        Dispatch::Unknown
    }
}

/// The table after an accept: unchanged where it failed, else with the new
/// connection at the end (and without an older one of the same key).
pub open spec fn accept_step<S>(s: Seq<Client<S>>, accepted: Option<(S, u16)>) -> Seq<Client<S>> {
    match accepted {
        None => s,
        Some((stream, port)) => if has_key(s, port as usize) {
            s.remove(index_of(s, port as usize)).push(fresh(stream, port))
        } else {
            s.push(fresh(stream, port))
        },
    }
}

/// Takes in the outcome of one accept: the new socket and its peer's port, or
/// nothing where the accept failed. Returns the key to register with the
/// multiplexer and the connection it displaced, if any, to deregister.
pub fn on_accept<S>(clients: &mut Clients<S>, accepted: Option<(S, u16)>) -> (r: Option<
    (usize, Option<Client<S>>),
>)
    requires
        old(clients).wf(),
    ensures
        final(clients).wf(),
        final(clients)@ == accept_step(old(clients)@, accepted),
        accepted is None ==> r is None,
        accepted is Some ==> {
            let key = (accepted->0).1 as usize;
            &&& r is Some
            &&& (r->0).0 == key
            &&& has_key(old(clients)@, key) ==> (r->0).1 == Some(
                old(clients)@[index_of(old(clients)@, key)],
            )
            &&& !has_key(old(clients)@, key) ==> (r->0).1 is None
        },
{
    match accepted {
        Some((stream, port)) => Some(clients.add(stream, port)),
        None => None,
    }
}

/// What one read on a connection gave.
#[derive(Debug)]
pub enum ReadOutcome {
    /// Zero bytes: the peer has closed its side.
    Closed,
    /// These bytes (at least one).
    Data(Vec<u8>),
    /// The read failed.
    Failed,
}

/// What the loop must do after a read.
#[derive(Debug)]
pub enum Reply<S> {
    /// The connection is gone from the table: deregister it and let it drop.
    Close(Client<S>),
    /// A complete request: hand it to the handler and send back its response.
    Handle(Request),
    /// Send these bytes back on the connection.
    Send(Vec<u8>),
    /// Nothing to do.
    Nothing,
}

/// The answer to bytes that do not form a whole, well-formed request.
pub fn bad_request() -> (r: Response)
    ensures
        r.status == Status::BadRequest,
        r.headers@.len() == 0,
        r.body@ == "400 Bad Request".spec_bytes(),
{
    Response::text(Status::BadRequest, "400 Bad Request")
}

/// The bytes of the answer to bytes that do not form a request.
pub open spec fn bad_request_wire() -> Seq<u8> {
    crate::response::wire(Status::BadRequest, Seq::empty(), "400 Bad Request".spec_bytes())
}

/// What to do with the parser's outcome: a complete request goes to the
/// handler; anything else is answered with 400 Bad Request.
pub fn answer_parsed<S>(parsed: Parsed) -> (r: Reply<S>)
    ensures
        parsed@.0 == ParseStatus::Complete ==> (r matches Reply::Handle(req) && req@ == parsed@.1),
        parsed@.0 != ParseStatus::Complete ==> (r matches Reply::Send(bytes) && bytes@
            == bad_request_wire()),
{
    match parsed {
        Parsed::Complete(req) => Reply::Handle(req),
        Parsed::Partial | Parsed::Invalid => {
            let resp = bad_request();
            assert(crate::response::headers_view(resp.headers@) =~= Seq::empty());
            Reply::Send(resp.try_into_bytes())
        },
    }
}

/// The table after a read: a connection whose peer closed is removed; nothing
/// else changes it.
pub open spec fn read_step<S>(s: Seq<Client<S>>, key: usize, closed: bool) -> Seq<Client<S>> {
    if closed && has_key(s, key) {
        s.remove(index_of(s, key))
    } else {
        s
    }
}

/// Takes in the outcome of one read on the connection with this key.
/// A closed peer takes the connection out of the table (once: an event that
/// comes after for the same key finds nothing and changes nothing). Bytes are
/// parsed; a complete request goes to the handler, anything else gets 400 Bad
/// Request, and the connection stays. A failed read changes nothing.
pub fn on_read<S>(clients: &mut Clients<S>, key: usize, outcome: ReadOutcome) -> (r: Reply<S>)
    requires
        old(clients).wf(),
    ensures
        final(clients).wf(),
        final(clients)@ == read_step(old(clients)@, key, outcome is Closed),
        outcome is Closed && has_key(old(clients)@, key) ==> r == Reply::Close(
            old(clients)@[index_of(old(clients)@, key)],
        ),
        outcome is Closed && !has_key(old(clients)@, key) ==> r is Nothing,
        outcome is Failed ==> r is Nothing,
        outcome matches ReadOutcome::Data(bytes) ==> {
            let parsed = parse_of(bytes@, MAX_HEADERS);
            &&& parsed.0 == ParseStatus::Complete ==> (r matches Reply::Handle(req) && req@
                == parsed.1)
            &&& parsed.0 != ParseStatus::Complete ==> (r matches Reply::Send(b) && b@
                == bad_request_wire())
        },
{
    match outcome {
        ReadOutcome::Closed => match clients.remove(&key) {
            Some(c) => Reply::Close(c),
            None => Reply::Nothing,
        },
        ReadOutcome::Data(bytes) => answer_parsed(parse_request(bytes.as_slice(), MAX_HEADERS)),
        ReadOutcome::Failed => Reply::Nothing,
    }
}

/// How long the multiplexer may wait for an event, in nanoseconds: until the
/// earliest idle lifetime runs out, or without bound (`None`) while no
/// connection is open.
pub fn wait_bound<S>(clients: &Clients<S>) -> (r: Option<u64>)
    ensures
        r is None <==> clients@.len() == 0,
        r is Some ==> is_lowest(clients@, r->0),
{
    clients.lowest_lifetime()
}

/// Takes in a return from the multiplexer's wait: every lifetime is lowered by
/// the nanoseconds elapsed since the last one. Where the wait timed out with no
/// event, the connections whose lifetime is used up are taken out and handed
/// back, in order, to be deregistered and closed.
pub fn on_wake<S>(clients: &mut Clients<S>, elapsed: u64, had_events: bool) -> (r: Vec<Client<S>>)
    requires
        old(clients).wf(),
    ensures
        final(clients).wf(),
        had_events ==> final(clients)@ == ticked(old(clients)@, elapsed) && r@.len() == 0,
        !had_events ==> final(clients)@ == ticked(old(clients)@, elapsed).filter(
            |c: Client<S>| !is_expired(c),
        ) && r@ == ticked(old(clients)@, elapsed).filter(|c: Client<S>| is_expired(c)),
{
    clients.sub_duration(elapsed);
    if had_events {
        Vec::new()
    } else {
        clients.remove_inactive()
    }
}

/// The keys registered with the multiplexer after an accept: the new
/// connection's key is registered (a connection it displaced had the same key
/// and is deregistered); a failed accept registers nothing.
pub open spec fn registered_after_accept<S>(reg: Set<usize>, accepted: Option<(S, u16)>) -> Set<usize> {
    match accepted {
        None => reg,
        Some((_, port)) => reg.insert(port as usize),
    }
}

/// Removing the connection with a key from a table takes exactly that key out
/// of its key set.
proof fn lemma_keys_after_remove<S>(s: Seq<Client<S>>, key: usize)
    requires
        table_wf(s),
        has_key(s, key),
    ensures
        keys(s.remove(index_of(s, key))) == keys(s).remove(key),
        table_wf(s.remove(index_of(s, key))),
{
    let i = index_of(s, key);
    let t = s.remove(i);
    assert forall|k: usize| has_key(t, k) <==> (has_key(s, k) && k != key) by {
        if has_key(t, k) {
            let j = choose|j: int| 0 <= j < t.len() && key_of(#[trigger] t[j]) == k;
            let jj = if j < i { j } else { j + 1 };
            assert(t[j] == s[jj]);
            assert(key_of(s[jj]) != key_of(s[i]));
        }
        if has_key(s, k) && k != key {
            let j = choose|j: int| 0 <= j < s.len() && key_of(#[trigger] s[j]) == k;
            let jj = if j < i { j } else { j - 1 };
            assert(t[jj] == s[j]);
        }
    }
    assert(keys(t) =~= keys(s).remove(key));
    assert forall|a: int, b: int|
        0 <= a < t.len() && 0 <= b < t.len() && #[trigger] key_of(t[a]) == #[trigger] key_of(t[b])
            implies a == b by {
        let aa = if a < i { a } else { a + 1 };
        let bb = if b < i { b } else { b + 1 };
        assert(t[a] == s[aa]);
        assert(t[b] == s[bb]);
    }
}

/// The table and the multiplexer stay in step through accepts: where the keys
/// of the table are the registered keys before, they are after. A failed
/// accept changes neither, and every later event is dispatched as before.
pub proof fn lemma_accept_keeps_registration<S>(
    s: Seq<Client<S>>,
    reg: Set<usize>,
    accepted: Option<(S, u16)>,
)
    requires
        table_wf(s),
        keys(s) == reg,
    ensures
        keys(accept_step(s, accepted)) == registered_after_accept(reg, accepted),
        accepted is None ==> accept_step(s, accepted) == s,
        accepted is None ==> forall|k: usize| #[trigger]
            dispatch_of(accept_step(s, accepted), k) == dispatch_of(s, k),
{
    match accepted {
        None => {},
        Some((stream, port)) => {
            let key = port as usize;
            let t = accept_step(s, accepted);
            let base = if has_key(s, key) {
                lemma_keys_after_remove(s, key);
                s.remove(index_of(s, key))
            } else {
                s
            };
            assert(t == base.push(fresh(stream, port)));
            assert forall|k: usize| has_key(t, k) <==> (has_key(base, k) || k == key) by {
                if has_key(t, k) {
                    let j = choose|j: int| 0 <= j < t.len() && key_of(#[trigger] t[j]) == k;
                    if j < base.len() {
                        assert(t[j] == base[j]);
                    }
                }
                if has_key(base, k) {
                    let j = choose|j: int| 0 <= j < base.len() && key_of(#[trigger] base[j]) == k;
                    assert(t[j] == base[j]);
                }
                if k == key {
                    assert(key_of(t[base.len() as int]) == key);
                }
            }
            assert(keys(t) =~= reg.insert(key));
        },
    }
}

/// The table and the multiplexer stay in step through a timeout sweep: the
/// keys of the connections left and of those taken out (which the loop
/// deregisters) are disjoint and together make up the keys before.
pub proof fn lemma_sweep_keeps_registration<S>(s: Seq<Client<S>>, reg: Set<usize>)
    requires
        table_wf(s),
        keys(s) == reg,
    ensures
        keys(s.filter(|c: Client<S>| !is_expired(c))) == reg.difference(
            keys(s.filter(|c: Client<S>| is_expired(c))),
        ),
        keys(s.filter(|c: Client<S>| !is_expired(c))) + keys(s.filter(|c: Client<S>| is_expired(c)))
            == reg,
{
    let dead_p = |c: Client<S>| is_expired(c);
    let live_p = |c: Client<S>| !is_expired(c);
    let dead = s.filter(dead_p);
    let live = s.filter(live_p);
    assert forall|k: usize| #[trigger] has_key(dead, k) ==> has_key(s, k) by {
        if has_key(dead, k) {
            let j = choose|j: int| 0 <= j < dead.len() && key_of(#[trigger] dead[j]) == k;
            assert(dead.contains(dead[j]));
            s.lemma_filter_contains_rev(dead_p, dead[j]);
        }
    }
    assert forall|k: usize| #[trigger] has_key(live, k) ==> has_key(s, k) by {
        if has_key(live, k) {
            let j = choose|j: int| 0 <= j < live.len() && key_of(#[trigger] live[j]) == k;
            assert(live.contains(live[j]));
            s.lemma_filter_contains_rev(live_p, live[j]);
        }
    }
    assert forall|k: usize| has_key(s, k) implies #[trigger] has_key(live, k) || has_key(dead, k) by {
        let i = choose|i: int| 0 <= i < s.len() && key_of(#[trigger] s[i]) == k;
        if is_expired(s[i]) {
            s.lemma_filter_contains(dead_p, i);
            let j = choose|j: int| 0 <= j < dead.len() && dead[j] == s[i];
            assert(key_of(dead[j]) == k);
        } else {
            s.lemma_filter_contains(live_p, i);
            let j = choose|j: int| 0 <= j < live.len() && live[j] == s[i];
            assert(key_of(live[j]) == k);
        }
    }
    assert forall|k: usize| !(#[trigger] has_key(live, k) && has_key(dead, k)) by {
        if has_key(live, k) && has_key(dead, k) {
            let a = choose|j: int| 0 <= j < live.len() && key_of(#[trigger] live[j]) == k;
            let b = choose|j: int| 0 <= j < dead.len() && key_of(#[trigger] dead[j]) == k;
            s.lemma_filter_pred(live_p, a);
            s.lemma_filter_pred(dead_p, b);
            assert(live.contains(live[a]));
            assert(dead.contains(dead[b]));
            s.lemma_filter_contains_rev(live_p, live[a]);
            s.lemma_filter_contains_rev(dead_p, dead[b]);
            let ia = choose|i: int| 0 <= i < s.len() && s[i] == live[a];
            let ib = choose|i: int| 0 <= i < s.len() && s[i] == dead[b];
            assert(key_of(s[ia]) == key_of(s[ib]));
        }
    }
    assert(keys(live) =~= reg.difference(keys(dead)));
    assert(keys(live) + keys(dead) =~= reg);
}

/// A connection whose peer closed leaves the table and the multiplexer once:
/// its key is no longer registered, an event that comes later for it is
/// dispatched as unknown, and a second close on it changes nothing.
pub proof fn lemma_closed_connection_forgotten<S>(s: Seq<Client<S>>, key: usize)
    requires
        table_wf(s),
        has_key(s, key),
        key != LISTENER_KEY,
    ensures
        table_wf(read_step(s, key, true)),
        keys(read_step(s, key, true)) == keys(s).remove(key),
        !has_key(read_step(s, key, true), key),
        dispatch_of(read_step(s, key, true), key) == Dispatch::Unknown,
        read_step(read_step(s, key, true), key, true) == read_step(s, key, true),
{
    lemma_keys_after_remove(s, key);
    let t = read_step(s, key, true);
    assert(!keys(t).contains(key));
}

/// Bytes that do not parse leave the connection where it was: the table is
/// unchanged, the connection stays registered, and its next event is read
/// again, so a well-formed request that follows is handled.
pub proof fn lemma_bad_request_keeps_connection<S>(s: Seq<Client<S>>, key: usize)
    requires
        table_wf(s),
        has_key(s, key),
        key != LISTENER_KEY,
    ensures
        read_step(s, key, false) == s,
        keys(read_step(s, key, false)) == keys(s),
        keys(s).contains(key),
        dispatch_of(read_step(s, key, false), key) == Dispatch::Read,
{
}

} // verus!
