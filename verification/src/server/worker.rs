//! One worker of the server: the connections that arrive on its sockets, by
//! slot, and which of them want looking after.

use vstd::multiset::Multiset;
use vstd::prelude::*;

use crate::engine::conn::{H3Event, Nanos};
use crate::server::exchange::{Exchange, ExchangeView, Pending};
use crate::server::exchange;
use crate::server::ids::IdTable;
use crate::timers::{Timer, Timers};

verus! {

/// The length of the connection IDs this server hands out, which is how long
/// the destination connection ID of every short-header packet is.
pub const CID_LEN: usize = 16;

/// Datagrams read off one socket before the others get their turn.
pub const READ_BUDGET: usize = 1024;

pub struct Client {
    /// Whether its HTTP/3 side is set up.
    h3: bool,
    sock: usize,
    ids: Vec<Vec<u8>>,
    exchange: Exchange,
    deadline: Option<Nanos>,
    scheduled: Option<Nanos>,
    dirty: bool,
}

#[verifier::ext_equal]
pub struct ClientView {
    pub h3: bool,
    /// The socket it arrived on.
    pub sock: usize,
    /// The connection IDs it was given and came with.
    pub ids: Seq<Seq<u8>>,
    pub exchange: ExchangeView,
    pub deadline: Option<Nanos>,
    pub scheduled: Option<Nanos>,
    pub dirty: bool,
}

impl View for Client {
    type V = ClientView;

    closed spec fn view(&self) -> ClientView {
        ClientView {
            h3: self.h3,
            sock: self.sock,
            ids: self.ids@.map_values(|id: Vec<u8>| id@),
            exchange: self.exchange@,
            deadline: self.deadline,
            scheduled: self.scheduled,
            dirty: self.dirty,
        }
    }
}

#[verifier::ext_equal]
pub struct ServerView {
    pub clients: Seq<Option<ClientView>>,
    pub free: Seq<usize>,
    pub ids: Map<Seq<u8>, usize>,
    pub timers: Multiset<Timer>,
    pub dirty: Seq<usize>,
    /// The sockets that may have datagrams to read.
    pub unread: Seq<usize>,
    pub payload: usize,
}

/// What to do with a datagram.
#[derive(Clone, Copy)]
pub enum Route {
    /// It is for the connection in a slot.
    To(usize),
    /// It opens no connection and belongs to none.
    Ignore,
    /// It speaks a version the server does not.
    Negotiate,
    /// It opens a connection.
    Accept,
}

impl ServerView {
    pub open spec fn client(self, i: int) -> Option<ClientView> {
        if 0 <= i < self.clients.len() {
            self.clients[i]
        } else {
            None
        }
    }

    pub open spec fn with_client(self, i: int, c: ClientView) -> ServerView {
        ServerView { clients: self.clients.update(i, Some(c)), ..self }
    }

    /// Where a datagram goes that is for a connection ID: to its connection, or
    /// if it has none and the datagram is an Initial, to a new one.
    pub open spec fn route(self, dcid: Seq<u8>, initial: bool, version_ok: bool) -> Route {
        if self.ids.contains_key(dcid) {
            Route::To(self.ids[dcid])
        } else if !initial {
            Route::Ignore
        } else if !version_ok {
            Route::Negotiate
        } else {
            Route::Accept
        }
    }

    /// The slot of the next connection: the one that was freed last, or a new
    /// one.
    pub open spec fn next_slot(self) -> usize {
        if self.free.len() > 0 {
            self.free.last()
        } else {
            self.clients.len() as usize
        }
    }

    /// A connection was accepted. It is reached by its own ID, and by the one the
    /// client chose first, for the Initials it sends again before it has heard
    /// from the server.
    pub open spec fn accept(self, sock: usize, scid: Seq<u8>, odcid: Seq<u8>) -> ServerView {
        let i = self.next_slot();
        let c = ClientView {
            h3: false,
            sock,
            ids: seq![scid, odcid],
            exchange: ExchangeView { reqs: Map::empty(), pending: Seq::empty(), payload: self.payload },
            deadline: None,
            scheduled: None,
            dirty: false,
        };
        ServerView {
            clients: if self.free.len() > 0 {
                self.clients.update(i as int, Some(c))
            } else {
                self.clients.push(Some(c))
            },
            free: if self.free.len() > 0 {
                self.free.drop_last()
            } else {
                self.free
            },
            ids: self.ids.insert(scid, i).insert(odcid, i),
            ..self
        }
    }

    pub open spec fn mark_dirty(self, i: int) -> ServerView {
        match self.client(i) {
            Some(c) => if c.dirty {
                self
            } else {
                ServerView {
                    dirty: self.dirty.push(i as usize),
                    ..self.with_client(i, ClientView { dirty: true, ..c })
                }
            },
            None => self,
        }
    }

    /// A connection is gone, and with it the IDs that are still its own.
    pub open spec fn remove(self, i: int) -> ServerView {
        match self.client(i) {
            Some(c) => ServerView {
                clients: self.clients.update(i, None),
                free: self.free.push(i as usize),
                ids: taken_from(self.ids, c.ids, i as usize),
                ..self
            },
            None => self,
        }
    }

    /// A connection's datagrams were written to its socket; it is closed, or its
    /// transport wants to be looked at again at `timeout`.
    pub open spec fn flushed(self, i: int, closed: bool, timeout: Option<Nanos>) -> ServerView {
        match self.client(i) {
            None => self,
            Some(c) => if closed {
                self.with_client(i, ClientView { dirty: false, ..c }).remove(i)
            } else if timeout is Some && (c.scheduled is None || timeout->Some_0
                < c.scheduled->Some_0) {
                ServerView {
                    timers: self.timers.insert((timeout->Some_0, i as usize)),
                    ..self.with_client(
                        i,
                        ClientView { dirty: false, deadline: timeout, scheduled: timeout, ..c },
                    )
                }
            } else {
                self.with_client(i, ClientView { dirty: false, deadline: timeout, ..c })
            },
        }
    }

    pub open spec fn owes_flush(self, i: usize) -> bool {
        match self.client(i as int) {
            Some(c) => c.dirty,
            None => false,
        }
    }

    /// Whether a timer is the one that was set last for its slot.
    pub open spec fn current(self, t: Timer) -> bool {
        match self.client(t.1 as int) {
            Some(c) => c.scheduled == Some(t.0),
            None => false,
        }
    }

    /// The slot whose timer has run out by now.
    pub open spec fn timer_due(self, now: Nanos) -> Option<usize> {
        match crate::timers::first(self.timers) {
            Some(t) => if t.0 <= now && self.current(t) {
                Some(t.1)
            } else {
                None
            },
            None => None,
        }
    }

    /// The timer that has run out is taken: its connection owes a flush.
    pub open spec fn fire_timer(self) -> ServerView {
        let t = crate::timers::first(self.timers)->Some_0;
        let c = self.clients[t.1 as int]->Some_0;
        ServerView {
            timers: self.timers.remove(t),
            ..self.with_client(t.1 as int, ClientView { scheduled: None, ..c })
        }.mark_dirty(t.1 as int)
    }

    /// When the worker must look again.
    pub open spec fn wake(self) -> Wake {
        if self.unread.len() > 0 {
            Wake::Now
        } else {
            match crate::timers::first(self.timers) {
                Some(t) => Wake::At(t.0),
                None => Wake::Never,
            }
        }
    }

    /// What to do about a connection whose handshake is so far.
    pub open spec fn look(self, i: int, established: bool, early: bool) -> Look {
        match self.client(i) {
            None => Look::Rest,
            Some(c) => if c.h3 {
                Look::Poll
            } else if established || early {
                Look::Setup
            } else {
                Look::Rest
            },
        }
    }

    pub open spec fn readable(self, s: usize) -> ServerView {
        if self.unread.contains(s) {
            self
        } else {
            ServerView { unread: self.unread.push(s), ..self }
        }
    }
}

/// The table without those of the IDs that are a slot's.
pub open spec fn taken_from(m: Map<Seq<u8>, usize>, ids: Seq<Seq<u8>>, slot: usize) -> Map<Seq<u8>, usize> {
    Map::new(
        |id: Seq<u8>| m.contains_key(id) && !(ids.contains(id) && m[id] == slot),
        |id: Seq<u8>| m[id],
    )
}

/// The list without the slots at its end that owe no flush.
pub open spec fn trimmed(w: ServerView, dirty: Seq<usize>) -> Seq<usize>
    decreases dirty.len(),
{
    if dirty.len() == 0 || w.owes_flush(dirty.last()) {
        dirty
    } else {
        trimmed(w, dirty.drop_last())
    }
}

/// The timers without those at the front that have run out by now and were set
/// before another.
pub open spec fn fresh_timers(w: ServerView, timers: Multiset<Timer>, now: Nanos) -> Multiset<Timer>
    decreases timers.len(),
{
    match crate::timers::first(timers) {
        Some(t) => if timers.count(t) > 0 && t.0 <= now && !w.current(t) {
            fresh_timers(w, timers.remove(t), now)
        } else {
            timers
        },
        None => timers,
    }
}

// ---------------------------------------------------------------------------
// What every worker keeps to.

/// The free slots are those that hold no connection, each once.
pub open spec fn free_ok(w: ServerView) -> bool {
    &&& w.clients.len() <= usize::MAX
    &&& w.free.no_duplicates()
    &&& forall|k: int|
        0 <= k < w.free.len() ==> (#[trigger] w.free[k]) < w.clients.len() && w.clients[w.free[k] as int] is None
    &&& forall|i: int|
        0 <= i < w.clients.len() && (#[trigger] w.clients[i]) is None ==> w.free.contains(i as usize)
}

/// An ID leads to a connection that is there, and that it is an ID of.
pub open spec fn ids_ok(w: ServerView) -> bool {
    forall|id: Seq<u8>| #[trigger]
        w.ids.contains_key(id) ==> {
            &&& w.client(w.ids[id] as int) is Some
            &&& w.clients[w.ids[id] as int]->Some_0.ids.contains(id)
        }
}

pub open spec fn client_ok(w: ServerView, i: int) -> bool {
    let c = w.clients[i]->Some_0;
    &&& c.scheduled matches Some(s) ==> w.timers.count((s, i as usize)) > 0
    &&& !c.dirty ==> (c.deadline matches Some(d) ==> c.scheduled is Some && c.scheduled->Some_0 <= d)
    &&& c.dirty ==> w.dirty.contains(i as usize)
}

/// A connection that owes a flush is on the list of those that do, and one that
/// owes none has a timer set for when it is due, or for before.
pub open spec fn clients_ok(w: ServerView) -> bool {
    forall|i: int| 0 <= i < w.clients.len() && (#[trigger] w.clients[i]) is Some ==> client_ok(w, i)
}

pub open spec fn inv(w: ServerView) -> bool {
    &&& free_ok(w)
    &&& ids_ok(w)
    &&& clients_ok(w)
    &&& w.unread.no_duplicates()
}

/// A change to one connection that keeps its IDs.
proof fn lemma_client(w: ServerView, v: ServerView, i: int, c: ClientView)
    requires
        inv(w),
        w.client(i) is Some,
        v.clients == w.clients.update(i, Some(c)),
        c.ids == w.clients[i]->Some_0.ids,
        v.free == w.free,
        v.ids == w.ids,
        v.unread == w.unread,
        client_ok(v, i),
        forall|k: int|
            k != i && 0 <= k < w.clients.len() && (#[trigger] w.clients[k]) is Some ==> client_ok(v, k),
    ensures
        inv(v),
{
    assert(free_ok(v)) by {
        assert forall|k: int| 0 <= k < v.clients.len() && (
        #[trigger] v.clients[k]) is None implies v.free.contains(k as usize) by {
            assert(w.clients[k] is None);
        }
    }
    assert(ids_ok(v)) by {
        assert forall|id: Seq<u8>| #[trigger] v.ids.contains_key(id) implies {
            &&& v.client(v.ids[id] as int) is Some
            &&& v.clients[v.ids[id] as int]->Some_0.ids.contains(id)
        } by {
            assert(w.ids.contains_key(id));
        }
    }
    assert(clients_ok(v)) by {
        assert forall|k: int| 0 <= k < v.clients.len() && (
        #[trigger] v.clients[k]) is Some implies client_ok(v, k) by {
            if k != i {
                assert(w.clients[k] is Some);
            }
        }
    }
}

pub proof fn lemma_mark_dirty(w: ServerView, i: int)
    requires
        inv(w),
    ensures
        inv(w.mark_dirty(i)),
{
    let v = w.mark_dirty(i);
    match w.client(i) {
        Some(c) => if !c.dirty {
            assert(v.dirty[w.dirty.len() as int] == i as usize);
            assert forall|k: int| k != i && 0 <= k < w.clients.len() && (
            #[trigger] w.clients[k]) is Some implies client_ok(v, k) by {
                assert(client_ok(w, k));
                if w.clients[k]->Some_0.dirty {
                    let a = choose|a: int| 0 <= a < w.dirty.len() && w.dirty[a] == k as usize;
                    assert(v.dirty[a] == k as usize);
                }
            }
            assert(client_ok(w, i));
            lemma_client(w, v, i, ClientView { dirty: true, ..c });
        },
        None => {},
    }
}

pub proof fn lemma_accept(w: ServerView, sock: usize, scid: Seq<u8>, odcid: Seq<u8>)
    requires
        inv(w),
        w.clients.len() < usize::MAX,
    ensures
        inv(w.accept(sock, scid, odcid)),
        w.free.len() > 0 ==> w.next_slot() < w.clients.len(),
        w.accept(sock, scid, odcid).client(w.next_slot() as int) is Some,
{
    let v = w.accept(sock, scid, odcid);
    let i = w.next_slot() as int;
    if w.free.len() > 0 {
        assert(w.clients[w.free[w.free.len() - 1] as int] is None);
    }
    assert(free_ok(v)) by {
        assert forall|k: int| 0 <= k < v.clients.len() && (
        #[trigger] v.clients[k]) is None implies v.free.contains(k as usize) by {
            assert(w.clients[k] is None);
            let a = choose|a: int| 0 <= a < w.free.len() && w.free[a] == k as usize;
            assert(v.free[a] == w.free[a]);
        }
        assert forall|a: int| 0 <= a < v.free.len() implies (#[trigger] v.free[a]) < v.clients.len()
            && v.clients[v.free[a] as int] is None by {
            assert(v.free[a] == w.free[a]);
            assert(w.clients[w.free[a] as int] is None);
        }
    }
    assert(ids_ok(v)) by {
        assert forall|id: Seq<u8>| #[trigger] v.ids.contains_key(id) implies {
            &&& v.client(v.ids[id] as int) is Some
            &&& v.clients[v.ids[id] as int]->Some_0.ids.contains(id)
        } by {
            let own = v.clients[i]->Some_0.ids;
            assert(own[0] == scid);
            assert(own[1] == odcid);
            if id == scid {
                assert(own.contains(id));
            } else if id == odcid {
                assert(own.contains(id));
            } else {
                assert(w.ids.contains_key(id));
                assert(w.client(w.ids[id] as int) is Some);
            }
        }
    }
    assert(clients_ok(v)) by {
        assert forall|k: int| 0 <= k < v.clients.len() && (
        #[trigger] v.clients[k]) is Some implies client_ok(v, k) by {
            if k != i {
                assert(v.clients[k] == w.clients[k]);
                assert(client_ok(w, k));
            }
        }
    }
}

pub proof fn lemma_remove(w: ServerView, i: int)
    requires
        free_ok(w),
        ids_ok(w),
        w.unread.no_duplicates(),
        forall|k: int|
            k != i && 0 <= k < w.clients.len() && (#[trigger] w.clients[k]) is Some ==> client_ok(w, k),
        w.client(i) is Some,
    ensures
        inv(w.remove(i)),
{
    let v = w.remove(i);
    let c = w.clients[i]->Some_0;
    assert(free_ok(v)) by {
        assert(!w.free.contains(i as usize)) by {
            if w.free.contains(i as usize) {
                let a = choose|a: int| 0 <= a < w.free.len() && w.free[a] == i as usize;
                assert(w.clients[w.free[a] as int] is None);
            }
        }
        assert forall|k: int| 0 <= k < v.clients.len() && (
        #[trigger] v.clients[k]) is None implies v.free.contains(k as usize) by {
            if k == i {
                assert(v.free[w.free.len() as int] == i as usize);
            } else {
                assert(w.clients[k] is None);
                let a = choose|a: int| 0 <= a < w.free.len() && w.free[a] == k as usize;
                assert(v.free[a] == k as usize);
            }
        }
    }
    assert(ids_ok(v)) by {
        assert forall|id: Seq<u8>| #[trigger] v.ids.contains_key(id) implies {
            &&& v.client(v.ids[id] as int) is Some
            &&& v.clients[v.ids[id] as int]->Some_0.ids.contains(id)
        } by {
            assert(w.ids.contains_key(id));
            assert(w.clients[w.ids[id] as int]->Some_0.ids.contains(id));
        }
    }
    assert(clients_ok(v)) by {
        assert forall|k: int| 0 <= k < v.clients.len() && (
        #[trigger] v.clients[k]) is Some implies client_ok(v, k) by {
            assert(w.clients[k] is Some && k != i);
            assert(client_ok(w, k));
        }
    }
}

pub proof fn lemma_flushed(w: ServerView, i: int, closed: bool, timeout: Option<Nanos>)
    requires
        inv(w),
        w.client(i) is Some,
    ensures
        inv(w.flushed(i, closed, timeout)),
{
    broadcast use vstd::multiset::group_multiset_axioms;

    let v = w.flushed(i, closed, timeout);
    let c = w.clients[i]->Some_0;
    assert(client_ok(w, i));
    if closed {
        let x = w.with_client(i, ClientView { dirty: false, ..c });
        assert forall|k: int| k != i && 0 <= k < x.clients.len() && (
        #[trigger] x.clients[k]) is Some implies client_ok(x, k) by {
            assert(w.clients[k] is Some);
            assert(client_ok(w, k));
        }
        assert(free_ok(x)) by {
            assert forall|k: int| 0 <= k < x.clients.len() && (
            #[trigger] x.clients[k]) is None implies x.free.contains(k as usize) by {
                assert(w.clients[k] is None);
            }
        }
        assert(ids_ok(x)) by {
            assert forall|id: Seq<u8>| #[trigger] x.ids.contains_key(id) implies {
                &&& x.client(x.ids[id] as int) is Some
                &&& x.clients[x.ids[id] as int]->Some_0.ids.contains(id)
            } by {
                assert(w.ids.contains_key(id));
            }
        }
        lemma_remove(x, i);
    } else {
        let d = v.clients[i]->Some_0;
        assert forall|k: int| k != i && 0 <= k < w.clients.len() && (
        #[trigger] w.clients[k]) is Some implies client_ok(v, k) by {
            assert(client_ok(w, k));
        }
        lemma_client(w, v, i, d);
    }
}

proof fn lemma_fresh_timers(w: ServerView, timers: Multiset<Timer>, now: Nanos)
    ensures
        forall|t: Timer|
            w.current(t) ==> #[trigger] fresh_timers(w, timers, now).count(t) == timers.count(t),
    decreases timers.len(),
{
    broadcast use vstd::multiset::group_multiset_axioms;

    match crate::timers::first(timers) {
        Some(t) => if timers.count(t) > 0 && t.0 <= now && !w.current(t) {
            let rest = timers.remove(t);
            lemma_fresh_timers(w, rest, now);
            assert(fresh_timers(w, timers, now) == fresh_timers(w, rest, now));
            assert forall|x: Timer| w.current(x) implies #[trigger] fresh_timers(
                w,
                timers,
                now,
            ).count(x) == timers.count(x) by {
                assert(x != t);
                assert(rest.count(x) == timers.count(x));
                assert(fresh_timers(w, rest, now).count(x) == rest.count(x));
            }
        },
        None => {},
    }
}

pub proof fn lemma_drop_stale(w: ServerView, now: Nanos)
    requires
        inv(w),
    ensures
        inv(ServerView { timers: fresh_timers(w, w.timers, now), ..w }),
{
    let v = ServerView { timers: fresh_timers(w, w.timers, now), ..w };
    lemma_fresh_timers(w, w.timers, now);
    assert(clients_ok(v)) by {
        assert forall|k: int| 0 <= k < v.clients.len() && (
        #[trigger] v.clients[k]) is Some implies client_ok(v, k) by {
            assert(client_ok(w, k));
            let c = w.clients[k]->Some_0;
            if c.scheduled is Some {
                assert(w.current((c.scheduled->Some_0, k as usize)));
            }
        }
    }
    assert(ids_ok(v)) by {
        assert forall|id: Seq<u8>| #[trigger] v.ids.contains_key(id) implies {
            &&& v.client(v.ids[id] as int) is Some
            &&& v.clients[v.ids[id] as int]->Some_0.ids.contains(id)
        } by {
            assert(w.ids.contains_key(id));
        }
    }
}

pub proof fn lemma_fire_timer(w: ServerView, now: Nanos)
    requires
        inv(w),
        w.timer_due(now) is Some,
    ensures
        inv(w.fire_timer()),
{
    broadcast use vstd::multiset::group_multiset_axioms;

    let t = crate::timers::first(w.timers)->Some_0;
    let i = t.1 as int;
    let c = w.clients[i]->Some_0;
    let y = w.mark_dirty(i);
    lemma_mark_dirty(w, i);
    let d = y.clients[i]->Some_0;
    let v = w.fire_timer();
    let e = ClientView { scheduled: None, ..d };
    assert(client_ok(y, i));
    assert(v.clients =~= y.clients.update(i, Some(e)));
    assert(v.dirty == y.dirty);
    assert forall|k: int| k != i && 0 <= k < y.clients.len() && (
    #[trigger] y.clients[k]) is Some implies client_ok(v, k) by {
        assert(client_ok(y, k));
        let o = y.clients[k]->Some_0;
        if o.scheduled is Some {
            assert((o.scheduled->Some_0, k as usize) != t);
        }
    }
    lemma_client(y, v, i, e);
}

proof fn lemma_trimmed(w: ServerView, dirty: Seq<usize>)
    ensures
        forall|i: usize|
            w.owes_flush(i) && dirty.contains(i) ==> #[trigger] trimmed(w, dirty).contains(i),
    decreases dirty.len(),
{
    if dirty.len() > 0 && !w.owes_flush(dirty.last()) {
        lemma_trimmed(w, dirty.drop_last());
        assert forall|i: usize| w.owes_flush(i) && dirty.contains(i) implies #[trigger] trimmed(
            w,
            dirty,
        ).contains(i) by {
            let a = choose|a: int| 0 <= a < dirty.len() && dirty[a] == i;
            assert(dirty.drop_last()[a] == i);
            assert(dirty.drop_last().contains(i));
            assert(trimmed(w, dirty.drop_last()).contains(i));
        }
    }
}

pub proof fn lemma_trim_dirty(w: ServerView)
    requires
        inv(w),
    ensures
        inv(ServerView { dirty: trimmed(w, w.dirty), ..w }),
{
    let v = ServerView { dirty: trimmed(w, w.dirty), ..w };
    lemma_trimmed(w, w.dirty);
    assert(clients_ok(v)) by {
        assert forall|k: int| 0 <= k < v.clients.len() && (
        #[trigger] v.clients[k]) is Some implies client_ok(v, k) by {
            assert(client_ok(w, k));
            if w.clients[k]->Some_0.dirty {
                assert(w.owes_flush(k as usize));
                assert(trimmed(w, w.dirty).contains(k as usize));
            }
        }
    }
    assert(ids_ok(v)) by {
        assert forall|id: Seq<u8>| #[trigger] v.ids.contains_key(id) implies {
            &&& v.client(v.ids[id] as int) is Some
            &&& v.clients[v.ids[id] as int]->Some_0.ids.contains(id)
        } by {
            assert(w.ids.contains_key(id));
        }
    }
}

// ---------------------------------------------------------------------------
// What that comes to.

/// A datagram that is for a connection goes to one that is there and that has
/// its ID, and never to one that is gone.
pub proof fn datagrams_reach_their_connection(
    w: ServerView,
    dcid: Seq<u8>,
    initial: bool,
    version_ok: bool,
)
    requires
        inv(w),
    ensures
        w.route(dcid, initial, version_ok) matches Route::To(i) ==> w.client(i as int) is Some
            && w.clients[i as int]->Some_0.ids.contains(dcid),
{
    if w.ids.contains_key(dcid) {
        assert(w.client(w.ids[dcid] as int) is Some);
    }
}

/// A connection that was accepted is reached by the ID it was given and by the
/// one the client chose first, whatever else the datagram is.
pub proof fn an_accepted_connection_is_reached(
    w: ServerView,
    sock: usize,
    scid: Seq<u8>,
    odcid: Seq<u8>,
    initial: bool,
    version_ok: bool,
)
    ensures
        w.accept(sock, scid, odcid).route(scid, initial, version_ok) == Route::To(w.next_slot()),
        w.accept(sock, scid, odcid).route(odcid, initial, version_ok) == Route::To(w.next_slot()),
{
}

/// A connection that is gone is reached no more.
pub proof fn a_removed_connection_is_not_reached(
    w: ServerView,
    i: int,
    id: Seq<u8>,
    initial: bool,
    version_ok: bool,
)
    requires
        inv(w),
        w.client(i) is Some,
    ensures
        w.remove(i).route(id, initial, version_ok) != Route::To(i as usize),
{
    if w.ids.contains_key(id) {
        assert(w.clients[w.ids[id] as int]->Some_0.ids.contains(id));
    }
}

/// A datagram goes to a connection if its ID is one that leads to it. If its ID
/// leads nowhere, only an Initial is answered: with a new connection if the
/// version is one that the server speaks, and with those that it does if not.
pub proof fn only_an_initial_opens_a_connection(
    w: ServerView,
    dcid: Seq<u8>,
    initial: bool,
    version_ok: bool,
)
    ensures
        w.route(dcid, initial, version_ok) is To <==> w.ids.dom().contains(dcid),
        w.route(dcid, initial, version_ok) matches Route::To(i) ==> w.ids[dcid] == i,
        w.route(dcid, initial, version_ok) is Accept <==> !w.ids.dom().contains(dcid) && initial
            && version_ok,
        w.route(dcid, initial, version_ok) is Negotiate <==> !w.ids.dom().contains(dcid) && initial
            && !version_ok,
        w.route(dcid, initial, version_ok) is Ignore <==> !w.ids.dom().contains(dcid) && !initial,
{
}

/// A connection that was accepted takes a slot that no other has. It sends its
/// answers on the socket it came on, has no request yet and owes nothing, and all
/// other connections stay as they are, reached as they were.
pub proof fn an_accepted_connection_starts_with_nothing(
    w: ServerView,
    sock: usize,
    scid: Seq<u8>,
    odcid: Seq<u8>,
)
    requires
        inv(w),
        w.clients.len() < usize::MAX,
    ensures
        w.client(w.next_slot() as int) is None,
        ({
            let v = w.accept(sock, scid, odcid);
            let i = w.next_slot() as int;
            &&& v.client(i) matches Some(c) && {
                &&& c.sock == sock
                &&& c.h3 == false
                &&& c.dirty == false
                &&& c.deadline is None
                &&& c.scheduled is None
                &&& c.exchange.reqs.dom() == Set::<u64>::empty()
                &&& c.exchange.pending.len() == 0
                &&& c.exchange.payload == w.payload
                &&& forall|id: Seq<u8>| #[trigger] c.ids.contains(id) <==> id == scid || id == odcid
            }
            &&& forall|k: int| k != i ==> #[trigger] v.client(k) == w.client(k)
            &&& v.clients.len() == if w.free.len() > 0 {
                w.clients.len()
            } else {
                w.clients.len() + 1
            }
            &&& forall|id: Seq<u8>, initial: bool, ok: bool|
                id != scid && id != odcid ==> #[trigger] v.route(id, initial, ok) == w.route(
                    id,
                    initial,
                    ok,
                )
            &&& v.timers == w.timers
            &&& v.dirty == w.dirty
            &&& v.unread == w.unread
            &&& v.payload == w.payload
        }),
{
    let v = w.accept(sock, scid, odcid);
    let i = w.next_slot() as int;
    if w.free.len() > 0 {
        assert(w.clients[w.free[w.free.len() - 1] as int] is None);
    }
    let c = v.clients[i]->Some_0;
    assert(c.exchange.reqs.dom() =~= Set::<u64>::empty());
    assert(c.ids[0] == scid && c.ids[1] == odcid);
}

/// When a connection is gone, its slot is free for the next, which takes it. All
/// other connections stay as they are, reached as they were.
pub proof fn a_removed_connection_leaves_its_slot(w: ServerView, i: int)
    requires
        inv(w),
        w.client(i) is Some,
    ensures
        w.remove(i).client(i) is None,
        w.remove(i).next_slot() == i,
        forall|k: int| k != i ==> #[trigger] w.remove(i).client(k) == w.client(k),
        forall|id: Seq<u8>, initial: bool, ok: bool|
            w.route(id, initial, ok) != Route::To(i as usize) ==> #[trigger] w.remove(i).route(
                id,
                initial,
                ok,
            ) == w.route(id, initial, ok),
        w.remove(i).clients.len() == w.clients.len(),
        w.remove(i).timers == w.timers,
        w.remove(i).dirty == w.dirty,
        w.remove(i).unread == w.unread,
        w.remove(i).payload == w.payload,
{
}

/// A connection is marked for a flush once, whatever marks it, and nothing else
/// of it or of the others changes.
pub proof fn a_connection_is_marked_once(w: ServerView, i: usize)
    requires
        inv(w),
        w.client(i as int) is Some,
    ensures
        ({
            let v = w.mark_dirty(i as int);
            let c = w.clients[i as int]->Some_0;
            &&& v.owes_flush(i)
            &&& v.dirty.contains(i)
            &&& v.client(i as int) == Some(ClientView { dirty: true, ..c })
            &&& forall|k: int| k != i ==> #[trigger] v.client(k) == w.client(k)
            &&& v.dirty.to_multiset() == if c.dirty {
                w.dirty.to_multiset()
            } else {
                w.dirty.to_multiset().insert(i)
            }
            &&& v.mark_dirty(i as int) == v
            &&& v.ids == w.ids
            &&& v.free == w.free
            &&& v.timers == w.timers
            &&& v.unread == w.unread
            &&& v.payload == w.payload
        }),
{
    w.dirty.to_multiset_ensures();
    assert(client_ok(w, i as int));
    let v = w.mark_dirty(i as int);
    let c = w.clients[i as int]->Some_0;
    if !c.dirty {
        assert(v.dirty[w.dirty.len() as int] == i);
    } else {
        assert(c == (ClientView { dirty: true, ..c }));
    }
}

/// A connection that was flushed owes no flush. A closed one is gone. One that
/// stays is due when its transport says, and the worker looks at it no later than
/// that: a timer is set if none was set for so early, and none is set if one was.
pub proof fn a_flushed_connection_is_looked_at_in_time(
    w: ServerView,
    i: usize,
    closed: bool,
    timeout: Option<Nanos>,
)
    requires
        inv(w),
        w.client(i as int) is Some,
    ensures
        ({
            let v = w.flushed(i as int, closed, timeout);
            let c = w.clients[i as int]->Some_0;
            &&& !v.owes_flush(i)
            &&& v.client(i as int) is None <==> closed
            &&& forall|k: int| k != i ==> #[trigger] v.client(k) == w.client(k)
            &&& v.dirty == w.dirty
            &&& v.unread == w.unread
            &&& v.payload == w.payload
            &&& closed ==> {
                &&& v.timers == w.timers
                &&& forall|id: Seq<u8>, initial: bool, ok: bool|
                    w.route(id, initial, ok) != Route::To(i) ==> #[trigger] v.route(
                        id,
                        initial,
                        ok,
                    ) == w.route(id, initial, ok)
                &&& forall|id: Seq<u8>, initial: bool, ok: bool| #[trigger]
                    v.route(id, initial, ok) != Route::To(i)
            }
            &&& !closed ==> {
                let d = v.clients[i as int]->Some_0;
                &&& v.ids == w.ids
                &&& v.free == w.free
                &&& d.deadline == timeout
                &&& d.h3 == c.h3
                &&& d.sock == c.sock
                &&& d.ids == c.ids
                &&& d.exchange == c.exchange
                &&& timeout matches Some(at) ==> d.scheduled is Some && d.scheduled->Some_0 <= at
                &&& c.scheduled is Some ==> d.scheduled is Some && d.scheduled->Some_0
                    <= c.scheduled->Some_0
                &&& d.scheduled == c.scheduled || d.scheduled == timeout
                &&& d.scheduled == c.scheduled <==> v.timers == w.timers
                &&& d.scheduled != c.scheduled ==> v.timers == w.timers.insert(
                    (timeout->Some_0, i),
                )
            }
        }),
{
    broadcast use vstd::multiset::group_multiset_axioms;

    let v = w.flushed(i as int, closed, timeout);
    let c = w.clients[i as int]->Some_0;
    if closed {
        let x = w.with_client(i as int, ClientView { dirty: false, ..c });
        assert forall|id: Seq<u8>, initial: bool, ok: bool| #[trigger]
            v.route(id, initial, ok) != Route::To(i) by {
            if w.ids.contains_key(id) {
                assert(w.clients[w.ids[id] as int]->Some_0.ids.contains(id));
            }
        }
    } else if timeout is Some && (c.scheduled is None || timeout->Some_0 < c.scheduled->Some_0) {
        assert(v.timers.len() == w.timers.len() + 1);
    }
}

/// The timer that is due is one that was set, that has run out, and than which
/// none is earlier. While one has run out that still counts, one is due as soon
/// as those that count no more are out of the way.
pub proof fn the_earliest_timer_is_due(w: ServerView, now: Nanos)
    ensures
        w.timer_due(now) matches Some(i) ==> {
            &&& w.client(i as int) is Some
            &&& w.clients[i as int]->Some_0.scheduled matches Some(at) && at <= now
                && w.timers.contains((at, i)) && forall|t: Timer| #[trigger]
                w.timers.contains(t) ==> at <= t.0
        },
        ({
            let v = ServerView { timers: fresh_timers(w, w.timers, now), ..w };
            &&& forall|t: Timer| #[trigger] v.timers.contains(t) ==> w.timers.contains(t)
            &&& forall|t: Timer|
                #[trigger] w.timers.contains(t) && !v.timers.contains(t) ==> t.0 <= now
                    && !w.current(t)
            &&& v.timer_due(now) is None <==> forall|t: Timer| #[trigger]
                w.timers.contains(t) && w.current(t) ==> t.0 > now
        }),
{
    broadcast use vstd::multiset::group_multiset_axioms;

    lemma_first(w.timers);
    lemma_fresh_timers(w, w.timers, now);
    lemma_stale_are_dropped(w, w.timers, now);
    let fresh = fresh_timers(w, w.timers, now);
    let v = ServerView { timers: fresh, ..w };
    lemma_first(fresh);
    assert forall|t: Timer| #[trigger] w.timers.contains(t) && w.current(t) implies fresh.contains(
        t,
    ) by {
        assert(fresh.count(t) == w.timers.count(t));
    }
    if v.timer_due(now) is Some {
        let t = crate::timers::first(fresh)->Some_0;
        assert(fresh.contains(t));
        assert(w.timers.contains(t) && w.current(t));
    } else {
        assert forall|t: Timer| #[trigger] w.timers.contains(t) && w.current(t) implies t.0
            > now by {
            assert(fresh.contains(t));
            assert(crate::timers::no_later(crate::timers::first(fresh)->Some_0, t));
        }
    }
}

/// The first of some timers is one of them; where there is no first, there are none.
proof fn lemma_first(m: Multiset<Timer>)
    ensures
        crate::timers::first(m) matches Some(e) ==> m.contains(e) && forall|x: Timer| #[trigger]
            m.contains(x) ==> crate::timers::no_later(e, x),
        crate::timers::first(m) is None ==> forall|x: Timer| !#[trigger] m.contains(x),
{
    broadcast use vstd::multiset::group_multiset_axioms;

    vstd::multiset::lemma_multiset_empty_len(m);
    if m.len() > 0 {
        crate::timers::one_comes_first(m);
        let e = crate::timers::first(m)->Some_0;
        assert forall|x: Timer| #[trigger] m.contains(x) implies crate::timers::no_later(e, x) by {
            assert(m.count(x) > 0);
        }
    }
}

proof fn lemma_stale_are_dropped(w: ServerView, timers: Multiset<Timer>, now: Nanos)
    ensures
        ({
            let fresh = fresh_timers(w, timers, now);
            &&& forall|t: Timer| #[trigger] fresh.contains(t) ==> timers.contains(t)
            &&& forall|t: Timer|
                #[trigger] timers.contains(t) && !fresh.contains(t) ==> t.0 <= now && !w.current(t)
            &&& crate::timers::first(fresh) matches Some(t) ==> t.0 > now || w.current(t)
        }),
    decreases timers.len(),
{
    broadcast use vstd::multiset::group_multiset_axioms;

    lemma_first(timers);
    match crate::timers::first(timers) {
        Some(t) => if timers.count(t) > 0 && t.0 <= now && !w.current(t) {
            let rest = timers.remove(t);
            lemma_stale_are_dropped(w, rest, now);
            let fresh = fresh_timers(w, rest, now);
            assert(fresh_timers(w, timers, now) == fresh);
            assert forall|x: Timer| #[trigger] fresh.contains(x) implies timers.contains(x) by {
                assert(rest.contains(x));
            }
            assert forall|x: Timer| #[trigger] timers.contains(x) && !fresh.contains(x) implies x.0
                <= now && !w.current(x) by {
                if x != t {
                    assert(rest.contains(x));
                }
            }
        },
        None => {},
    }
}

/// A timer that fires is set no more, its connection owes a flush, and nothing
/// else changes.
pub proof fn a_fired_timer_asks_for_a_flush(w: ServerView, now: Nanos)
    requires
        inv(w),
        w.timer_due(now) is Some,
    ensures
        ({
            let v = w.fire_timer();
            let i = w.timer_due(now)->Some_0;
            let c = w.clients[i as int]->Some_0;
            &&& v.owes_flush(i)
            &&& v.dirty.contains(i)
            &&& v.client(i as int) == Some(ClientView { dirty: true, scheduled: None, ..c })
            &&& forall|k: int| k != i ==> #[trigger] v.client(k) == w.client(k)
            &&& v.timers.insert((c.scheduled->Some_0, i)) == w.timers
            &&& v.ids == w.ids
            &&& v.free == w.free
            &&& v.unread == w.unread
            &&& v.payload == w.payload
        }),
{
    broadcast use vstd::multiset::group_multiset_axioms;

    lemma_fire_timer(w, now);
    lemma_first(w.timers);
    let v = w.fire_timer();
    let i = w.timer_due(now)->Some_0;
    let c = w.clients[i as int]->Some_0;
    assert(client_ok(v, i as int));
    let t = crate::timers::first(w.timers)->Some_0;
    assert(w.timers.remove(t).insert(t) =~= w.timers);
}

/// A socket that may have datagrams is read once, however often that is said of
/// it, and the others stay as they are.
pub proof fn a_socket_is_read_once(w: ServerView, s: usize)
    requires
        inv(w),
    ensures
        w.readable(s).unread.no_duplicates(),
        forall|x: usize| #[trigger]
            w.readable(s).unread.contains(x) <==> w.unread.contains(x) || x == s,
        w.unread.is_prefix_of(w.readable(s).unread),
        w.readable(s).readable(s) == w.readable(s),
        w.readable(s) == (ServerView { unread: w.readable(s).unread, ..w }),
{
    let v = w.readable(s);
    if !w.unread.contains(s) {
        assert(v.unread[w.unread.len() as int] == s);
        assert forall|x: usize| w.unread.contains(x) implies #[trigger] v.unread.contains(x) by {
            let a = choose|a: int| 0 <= a < w.unread.len() && w.unread[a] == x;
            assert(v.unread[a] == x);
        }
    }
}

/// The connections that are dropped from the end of a list are those that owe no
/// flush.
pub proof fn those_that_owe_a_flush_stay(w: ServerView, list: Seq<usize>)
    ensures
        trimmed(w, list).is_prefix_of(list),
        trimmed(w, list).len() > 0 ==> w.owes_flush(trimmed(w, list).last()),
        forall|k: int|
            trimmed(w, list).len() <= k < list.len() ==> !w.owes_flush(#[trigger] list[k]),
    decreases list.len(),
{
    if list.len() > 0 && !w.owes_flush(list.last()) {
        those_that_owe_a_flush_stay(w, list.drop_last());
        assert forall|k: int| trimmed(w, list).len() <= k < list.len() implies !w.owes_flush(
            #[trigger] list[k],
        ) by {
            if k < list.len() - 1 {
                assert(list.drop_last()[k] == list[k]);
            }
        }
    }
}

/// A worker sleeps only when it has read its sockets, and no longer than until the
/// first of its connections is due that owe no flush. It sleeps without end only
/// if none is due at all.
pub proof fn sleeps_no_longer_than_it_may(w: ServerView)
    requires
        inv(w),
    ensures
        w.wake() is Now <==> w.unread.len() > 0,
        w.wake() matches Wake::At(at) ==> {
            &&& exists|t: Timer| #[trigger] w.timers.contains(t) && t.0 == at
            &&& forall|i: int| (#[trigger] w.client(i)) is Some && !w.clients[i]->Some_0.dirty ==> (
            w.clients[i]->Some_0.deadline matches Some(d) ==> at <= d)
        },
        w.wake() is Never ==> forall|i: int|
            (#[trigger] w.client(i)) is Some && !w.clients[i]->Some_0.dirty
                ==> w.clients[i]->Some_0.deadline is None,
{
    broadcast use vstd::multiset::group_multiset_axioms;

    lemma_first(w.timers);
    if w.wake() is At {
        let t = crate::timers::first(w.timers)->Some_0;
        assert(w.timers.contains(t));
    }
    assert forall|i: int| (#[trigger] w.client(i)) is Some && !w.clients[i]->Some_0.dirty
        && w.clients[i]->Some_0.deadline is Some && w.unread.len() == 0 implies w.wake() is At
        && w.wake()->At_0 <= w.clients[i]->Some_0.deadline->Some_0 by {
        assert(client_ok(w, i));
        let s = w.clients[i]->Some_0.scheduled->Some_0;
        assert(w.timers.contains((s, i as usize)));
        assert(crate::timers::no_later(crate::timers::first(w.timers)->Some_0, (s, i as usize)));
    }
}

/// A connection is looked at if it is there and its handshake is done, or so far
/// that requests may come early. Its HTTP/3 side is set up once, and read from then
/// on.
pub proof fn http3_is_set_up_once(w: ServerView, i: int, established: bool, early: bool)
    ensures
        w.look(i, established, early) is Poll <==> w.client(i) is Some && w.clients[i]->Some_0.h3,
        w.look(i, established, early) is Setup <==> {
            &&& w.client(i) is Some
            &&& !w.clients[i]->Some_0.h3
            &&& established || early
        },
{
}

// ---------------------------------------------------------------------------

pub open spec fn client_view(c: Option<Client>) -> Option<ClientView> {
    match c {
        Some(x) => Some(x@),
        None => None,
    }
}

/// When a worker must look again.
#[derive(Clone, Copy)]
pub enum Wake {
    /// At once: a socket has more to read.
    Now,
    At(Nanos),
    /// When something arrives.
    Never,
}

/// What to do about a connection.
#[derive(Clone, Copy)]
pub enum Look {
    /// Nothing yet: its handshake is not complete.
    Rest,
    /// Set its HTTP/3 side up.
    Setup,
    /// Read what its HTTP/3 side has.
    Poll,
}

pub struct Worker {
    clients: Vec<Option<Client>>,
    free: Vec<usize>,
    ids: IdTable,
    timers: Timers,
    dirty: Vec<usize>,
    unread: Vec<usize>,
    payload: usize,
}

impl View for Worker {
    type V = ServerView;

    closed spec fn view(&self) -> ServerView {
        ServerView {
            clients: self.clients@.map_values(|c: Option<Client>| client_view(c)),
            free: self.free@,
            ids: self.ids@,
            timers: self.timers@,
            dirty: self.dirty@,
            unread: self.unread@,
            payload: self.payload,
        }
    }
}

impl Worker {
    spec fn parts_wf(&self) -> bool {
        &&& self.ids.wf()
        &&& self.timers.wf()
        &&& forall|i: int|
            0 <= i < self.clients@.len() ==> (#[trigger] self.clients@[i] matches Some(c)
                ==> c.exchange.wf())
    }

    /// Whether the worker is as every worker is.
    pub closed spec fn wf(&self) -> bool {
        self.parts_wf() && inv(self@)
    }

    /// What every worker keeps to.
    pub proof fn lemma_inv(&self)
        requires
            self.wf(),
        ensures
            inv(self@),
    {
    }

    pub fn new(payload: usize) -> (w: Self)
        ensures
            w.wf(),
            w@ == (ServerView {
                clients: Seq::empty(),
                free: Seq::empty(),
                ids: Map::empty(),
                timers: Multiset::empty(),
                dirty: Seq::empty(),
                unread: Seq::empty(),
                payload,
            }),
    {
        let w = Worker {
            clients: Vec::new(),
            free: Vec::new(),
            ids: IdTable::new(),
            timers: Timers::new(),
            dirty: Vec::new(),
            unread: Vec::new(),
            payload,
        };
        assert(w@.clients =~= Seq::<Option<ClientView>>::empty());
        w
    }

    /// Where a datagram goes.
    pub fn route(&self, dcid: &[u8], initial: bool, version_ok: bool) -> (r: Route)
        requires
            self.wf(),
        ensures
            r == self@.route(dcid@, initial, version_ok),
    {
        match self.ids.get(dcid) {
            Some(i) => Route::To(i),
            None => if !initial {
                Route::Ignore
            } else if !version_ok {
                Route::Negotiate
            } else {
                Route::Accept
            },
        }
    }

    /// A connection was accepted, and goes into that slot.
    pub fn accepted(&mut self, sock: usize, scid: Vec<u8>, odcid: Vec<u8>) -> (i: usize)
        requires
            old(self).wf(),
            old(self)@.clients.len() < usize::MAX,
        ensures
            final(self).wf(),
            final(self)@ == old(self)@.accept(sock, scid@, odcid@),
            i == old(self)@.next_slot(),
            final(self)@.client(i as int) is Some,
    {
        let ghost before = self@;
        let ghost a = scid@;
        let ghost b = odcid@;
        proof {
            lemma_accept(before, sock, a, b);
        }
        let reused: Option<usize> = self.free.pop();
        proof {
            if reused is Some {
                assert(self.free@ =~= before.free.drop_last());
            }
        }
        let i: usize = match reused {
            Some(i) => i,
            None => self.clients.len(),
        };
        self.ids.insert(copied(&scid), i);
        self.ids.insert(copied(&odcid), i);
        let mut ids: Vec<Vec<u8>> = Vec::new();
        ids.push(scid);
        ids.push(odcid);
        let c = Client {
            h3: false,
            sock,
            ids,
            exchange: Exchange::new(self.payload),
            deadline: None,
            scheduled: None,
            dirty: false,
        };
        assert(c@.ids =~= seq![a, b]);
        if reused.is_some() {
            self.clients.set(i, Some(c));
        } else {
            self.clients.push(Some(c));
        }
        proof {
            let v = before.accept(sock, a, b);
            assert(self@.clients =~= v.clients);
            assert(self@ =~= v);
        }
        i
    }

    /// What to do about a connection whose handshake is complete or that is in
    /// early data, if it is.
    pub fn look(&self, i: usize, established: bool, early: bool) -> (r: Look)
        ensures
            r == self@.look(i as int, established, early),
    {
        if i >= self.clients.len() {
            return Look::Rest;
        }
        assert(self@.clients[i as int] == client_view(self.clients@[i as int]));
        match &self.clients[i] {
            None => Look::Rest,
            Some(c) => if c.h3 {
                Look::Poll
            } else if established || early {
                Look::Setup
            } else {
                Look::Rest
            },
        }
    }

    /// The HTTP/3 side of a connection is set up.
    pub fn set_up(&mut self, i: usize)
        requires
            old(self).wf(),
            old(self)@.client(i as int) is Some,
        ensures
            final(self).wf(),
            final(self)@ == old(self)@.with_client(
                i as int,
                ClientView { h3: true, ..old(self)@.clients[i as int]->Some_0 },
            ),
    {
        let ghost before = self@;
        assert(before.clients[i as int] == client_view(self.clients@[i as int]));
        match &mut self.clients[i] {
            Some(c) => {
                c.h3 = true;
            },
            None => {},
        }
        proof {
            let d = ClientView { h3: true, ..before.clients[i as int]->Some_0 };
            let v = before.with_client(i as int, d);
            assert(self@.clients =~= v.clients);
            assert(self@ =~= v);
            lemma_unchanged(before, v, i as int, d);
        }
    }

    /// The HTTP/3 side of a connection reported something. Says what response it
    /// calls for.
    pub fn event(&mut self, i: usize, ev: &H3Event) -> (r: Option<Pending>)
        requires
            old(self).wf(),
            old(self)@.client(i as int) is Some,
        ensures
            final(self).wf(),
            ({
                let c = old(self)@.clients[i as int]->Some_0;
                let (x, p) = c.exchange.step(ev@);
                &&& final(self)@ == old(self)@.with_client(i as int, ClientView { exchange: x, ..c })
                &&& exchange::pending_view(r) == p
            }),
    {
        let ghost before = self@;
        assert(before.clients[i as int] == client_view(self.clients@[i as int]));
        let mut r: Option<Pending> = None;
        match &mut self.clients[i] {
            Some(c) => {
                r = c.exchange.event(ev);
            },
            None => {},
        }
        proof {
            let c = before.clients[i as int]->Some_0;
            let d = ClientView { exchange: c.exchange.step(ev@).0, ..c };
            let v = before.with_client(i as int, d);
            assert(self@.clients =~= v.clients);
            assert(self@ =~= v);
            lemma_unchanged(before, v, i as int, d);
        }
        r
    }

    /// How many of a connection's responses wait for room.
    pub fn pending_count(&self, i: usize) -> (n: usize)
        ensures
            n == (match self@.client(i as int) {
                Some(c) => c.exchange.pending.len(),
                None => 0,
            }),
    {
        if i >= self.clients.len() {
            return 0;
        }
        assert(self@.clients[i as int] == client_view(self.clients@[i as int]));
        match &self.clients[i] {
            Some(c) => c.exchange.pending_count(),
            None => 0,
        }
    }

    /// Takes the `k`th of a connection's responses that wait for room.
    pub fn take_pending(&mut self, i: usize, k: usize) -> (r: Option<Pending>)
        requires
            old(self).wf(),
        ensures
            final(self).wf(),
            match old(self)@.client(i as int) {
                Some(c) => if k < c.exchange.pending.len() {
                    &&& exchange::pending_view(r) == Some(c.exchange.pending[k as int])
                    &&& final(self)@ == old(self)@.with_client(
                        i as int,
                        ClientView {
                            exchange: ExchangeView {
                                pending: c.exchange.pending.remove(k as int),
                                ..c.exchange
                            },
                            ..c
                        },
                    )
                } else {
                    r is None && final(self)@ == old(self)@
                },
                None => r is None && final(self)@ == old(self)@,
            },
    {
        let ghost before = self@;
        if k >= self.pending_count(i) {
            return None;
        }
        assert(before.clients[i as int] == client_view(self.clients@[i as int]));
        let mut r: Option<Pending> = None;
        match &mut self.clients[i] {
            Some(c) => {
                r = Some(c.exchange.take_pending(k));
            },
            None => {},
        }
        proof {
            let c = before.clients[i as int]->Some_0;
            let d = ClientView {
                exchange: ExchangeView {
                    pending: c.exchange.pending.remove(k as int),
                    ..c.exchange
                },
                ..c
            };
            let v = before.with_client(i as int, d);
            assert(self@.clients =~= v.clients);
            assert(self@ =~= v);
            lemma_unchanged(before, v, i as int, d);
        }
        r
    }

    /// Puts a response that waits for room in the `k`th place of a connection's.
    pub fn put_pending(&mut self, i: usize, k: usize, p: Pending)
        requires
            old(self).wf(),
            old(self)@.client(i as int) is Some,
            k <= old(self)@.clients[i as int]->Some_0.exchange.pending.len(),
        ensures
            final(self).wf(),
            ({
                let c = old(self)@.clients[i as int]->Some_0;
                final(self)@ == old(self)@.with_client(
                    i as int,
                    ClientView {
                        exchange: ExchangeView {
                            pending: c.exchange.pending.insert(k as int, p@),
                            ..c.exchange
                        },
                        ..c
                    },
                )
            }),
    {
        let ghost before = self@;
        let ghost x = p@;
        assert(before.clients[i as int] == client_view(self.clients@[i as int]));
        match &mut self.clients[i] {
            Some(c) => {
                c.exchange.put_pending(k, p);
            },
            None => {},
        }
        proof {
            let c = before.clients[i as int]->Some_0;
            let d = ClientView {
                exchange: ExchangeView {
                    pending: c.exchange.pending.insert(k as int, x),
                    ..c.exchange
                },
                ..c
            };
            let v = before.with_client(i as int, d);
            assert(self@.clients =~= v.clients);
            assert(self@ =~= v);
            lemma_unchanged(before, v, i as int, d);
        }
    }

    /// The connection owes a flush.
    pub fn mark_dirty(&mut self, i: usize)
        requires
            old(self).wf(),
        ensures
            final(self).wf(),
            final(self)@ == old(self)@.mark_dirty(i as int),
    {
        let ghost before = self@;
        proof {
            lemma_mark_dirty(before, i as int);
        }
        if i >= self.clients.len() {
            return;
        }
        assert(before.clients[i as int] == client_view(self.clients@[i as int]));
        let mut marked = false;
        match &mut self.clients[i] {
            Some(c) => {
                if !c.dirty {
                    c.dirty = true;
                    marked = true;
                }
            },
            None => {},
        }
        if marked {
            self.dirty.push(i);
        }
        proof {
            let v = before.mark_dirty(i as int);
            assert(self@.clients =~= v.clients);
            assert(self@ =~= v);
        }
    }

    /// The socket a connection arrived on.
    pub fn socket_of(&self, i: usize) -> (r: Option<usize>)
        ensures
            r == (match self@.client(i as int) {
                Some(c) => Some(c.sock),
                None => None,
            }),
    {
        if i >= self.clients.len() {
            return None;
        }
        assert(self@.clients[i as int] == client_view(self.clients@[i as int]));
        match &self.clients[i] {
            Some(c) => Some(c.sock),
            None => None,
        }
    }
}

/// What the rest of the worker does not go by changed in a connection.
proof fn lemma_unchanged(w: ServerView, v: ServerView, i: int, d: ClientView)
    requires
        inv(w),
        w.client(i) is Some,
        v == w.with_client(i, d),
        d.ids == w.clients[i]->Some_0.ids,
        d.deadline == w.clients[i]->Some_0.deadline,
        d.scheduled == w.clients[i]->Some_0.scheduled,
        d.dirty == w.clients[i]->Some_0.dirty,
    ensures
        inv(v),
{
    assert(client_ok(w, i));
    assert forall|k: int| k != i && 0 <= k < w.clients.len() && (
    #[trigger] w.clients[k]) is Some implies client_ok(v, k) by {
        assert(client_ok(w, k));
    }
    lemma_client(w, v, i, d);
}

fn copied(v: &Vec<u8>) -> (r: Vec<u8>)
    ensures
        r@ == v@,
{
    let mut r: Vec<u8> = Vec::new();
    r.extend_from_slice(v.as_slice());
    assert(r@ =~= v@);
    r
}

impl Worker {
    fn remove(&mut self, i: usize)
        requires
            old(self).parts_wf(),
        ensures
            final(self).parts_wf(),
            final(self)@ == old(self)@.remove(i as int),
    {
        let ghost before = self@;
        if i >= self.clients.len() {
            return;
        }
        assert(before.clients[i as int] == client_view(self.clients@[i as int]));
        if self.clients[i].is_none() {
            return;
        }
        let gone: Option<Client> = self.clients[i].take();
        match gone {
            Some(c) => {
                assert(c@ == before.clients[i as int]->Some_0);
                drop_ids(&mut self.ids, &c.ids, i);
                self.free.push(i);
                proof {
                    let v = before.remove(i as int);
                    assert(self@.clients =~= v.clients);
                    assert(self@ =~= v);
                }
            },
            None => {},
        }
    }

    /// A connection's datagrams were written to its socket; it is closed, or its
    /// transport wants to be looked at again at `timeout`.
    pub fn flushed(&mut self, i: usize, closed: bool, timeout: Option<Nanos>)
        requires
            old(self).wf(),
        ensures
            final(self).wf(),
            final(self)@ == old(self)@.flushed(i as int, closed, timeout),
    {
        let ghost before = self@;
        proof {
            if before.client(i as int) is Some {
                lemma_flushed(before, i as int, closed, timeout);
            }
        }
        if i >= self.clients.len() {
            return;
        }
        assert(before.clients[i as int] == client_view(self.clients@[i as int]));
        if self.clients[i].is_none() {
            return;
        }
        let mut set: Option<Nanos> = None;
        match &mut self.clients[i] {
            Some(c) => {
                c.dirty = false;
                if !closed {
                    c.deadline = timeout;
                    match timeout {
                        Some(d) => {
                            let needed: bool = match c.scheduled {
                                Some(s) => d < s,
                                None => true,
                            };
                            if needed {
                                c.scheduled = Some(d);
                                set = Some(d);
                            }
                        },
                        None => {},
                    }
                }
            },
            None => {},
        }
        if closed {
            proof {
                let c = before.clients[i as int]->Some_0;
                let x = before.with_client(i as int, ClientView { dirty: false, ..c });
                assert(self@.clients =~= x.clients);
                assert(self@ =~= x);
            }
            self.remove(i);
            return;
        }
        match set {
            Some(d) => {
                self.timers.push(d, i);
            },
            None => {},
        }
        proof {
            let v = before.flushed(i as int, closed, timeout);
            assert(self@.clients =~= v.clients);
            assert(self@ =~= v);
        }
    }

    /// A connection that owes a flush.
    pub fn next_dirty(&mut self) -> (r: Option<usize>)
        requires
            old(self).wf(),
        ensures
            final(self).wf(),
            final(self)@ == (ServerView { dirty: trimmed(old(self)@, old(self)@.dirty), ..old(self)@ }),
            match r {
                Some(i) => final(self)@.owes_flush(i),
                None => forall|i: usize| !#[trigger] final(self)@.owes_flush(i),
            },
    {
        let ghost before = self@;
        proof {
            lemma_trim_dirty(before);
        }
        while self.dirty.len() > 0
            invariant
                self.parts_wf(),
                before == old(self)@,
                self@ == (ServerView { dirty: self.dirty@, ..before }),
                trimmed(before, self.dirty@) == trimmed(before, before.dirty),
                inv(ServerView { dirty: trimmed(before, before.dirty), ..before }),
            decreases self.dirty@.len(),
        {
            let i: usize = self.dirty[self.dirty.len() - 1];
            let mut owes = false;
            if i < self.clients.len() {
                assert(self@.clients[i as int] == client_view(self.clients@[i as int]));
                match &self.clients[i] {
                    Some(c) => {
                        owes = c.dirty;
                    },
                    None => {},
                }
            }
            assert(owes == before.owes_flush(i));
            assert(i == self.dirty@.last());
            if owes {
                return Some(i);
            }
            let ghost was = self.dirty@;
            let _ = self.dirty.pop();
            proof {
                assert(self.dirty@ =~= was.drop_last());
                assert(self@ =~= (ServerView { dirty: self.dirty@, ..before }));
            }
        }
        proof {
            assert forall|i: usize| !#[trigger] self@.owes_flush(i) by {
                if self@.owes_flush(i) {
                    assert(self@.clients[i as int] is Some);
                    assert(client_ok(self@, i as int));
                }
            }
        }
        None
    }

    /// The slot whose timer has run out by now.
    pub fn timer_due(&mut self, now: Nanos) -> (r: Option<usize>)
        requires
            old(self).wf(),
        ensures
            final(self).wf(),
            final(self)@ == (ServerView {
                timers: fresh_timers(old(self)@, old(self)@.timers, now),
                ..old(self)@
            }),
            r == final(self)@.timer_due(now),
    {
        let ghost before = self@;
        proof {
            lemma_drop_stale(before, now);
        }
        loop
            invariant
                self.parts_wf(),
                before == old(self)@,
                self@ == (ServerView { timers: self.timers@, ..before }),
                fresh_timers(before, self.timers@, now) == fresh_timers(before, before.timers, now),
                inv(ServerView { timers: fresh_timers(before, before.timers, now), ..before }),
            decreases self.timers@.len(),
        {
            let next: Option<Timer> = self.timers.peek();
            match next {
                None => {
                    return None;
                },
                Some(t) => {
                    if t.0 > now {
                        return None;
                    }
                    let mut live = false;
                    if t.1 < self.clients.len() {
                        assert(self@.clients[t.1 as int] == client_view(self.clients@[t.1 as int]));
                        match &self.clients[t.1] {
                            Some(c) => {
                                live = match c.scheduled {
                                    Some(s) => s == t.0,
                                    None => false,
                                };
                            },
                            None => {},
                        }
                    }
                    assert(live == before.current(t));
                    if live {
                        return Some(t.1);
                    }
                    proof {
                        broadcast use vstd::multiset::group_multiset_axioms;

                        assert(self.timers@.remove(t).len() < self.timers@.len());
                    }
                    self.timers.pop();
                    assert(self@ =~= (ServerView { timers: self.timers@, ..before }));
                },
            }
        }
    }

    /// Takes the timer that has run out. Its connection owes a flush, and its
    /// transport is to be told first if it is due.
    pub fn fire_timer(&mut self, now: Nanos) -> (expired: bool)
        requires
            old(self).wf(),
            old(self)@.timer_due(now) is Some,
        ensures
            final(self).wf(),
            final(self)@ == old(self)@.fire_timer(),
            expired == (old(self)@.clients[old(self)@.timer_due(now)->Some_0 as int]->Some_0.deadline matches Some(
                d,
            ) && d <= now),
    {
        let ghost before = self@;
        proof {
            lemma_fire_timer(before, now);
        }
        let next: Option<Timer> = self.timers.peek();
        let i: usize = match next {
            Some(t) => t.1,
            None => 0,
        };
        assert(before.clients[i as int] == client_view(self.clients@[i as int]));
        self.timers.pop();
        let mut expired = false;
        let mut marked = false;
        match &mut self.clients[i] {
            Some(c) => {
                c.scheduled = None;
                expired = match c.deadline {
                    Some(d) => d <= now,
                    None => false,
                };
                if !c.dirty {
                    c.dirty = true;
                    marked = true;
                }
            },
            None => {},
        }
        if marked {
            self.dirty.push(i);
        }
        proof {
            let v = before.fire_timer();
            assert(self@.clients =~= v.clients);
            assert(self@ =~= v);
        }
        expired
    }

    /// A socket may have datagrams to read.
    pub fn readable(&mut self, s: usize)
        requires
            old(self).wf(),
        ensures
            final(self).wf(),
            final(self)@ == old(self)@.readable(s),
    {
        let ghost before = self@;
        let mut k: usize = 0;
        while k < self.unread.len()
            invariant
                *self == *old(self),
                before == self@,
                self.wf(),
                k <= self.unread@.len(),
                forall|a: int| 0 <= a < k ==> self.unread@[a] != s,
            decreases self.unread@.len() - k,
        {
            if self.unread[k] == s {
                assert(before.unread[k as int] == s);
                return;
            }
            k += 1;
        }
        self.unread.push(s);
        proof {
            assert(self@ =~= before.readable(s));
            lemma_unread(before, self@.unread);
        }
    }

    /// Takes the sockets that may have datagrams to read. Those that are read up
    /// to their budget are put back, since an edge-triggered poll will not
    /// report what is still queued.
    pub fn take_unread(&mut self) -> (list: Vec<usize>)
        requires
            old(self).wf(),
        ensures
            final(self).wf(),
            list@ == old(self)@.unread,
            final(self)@ == (ServerView { unread: Seq::empty(), ..old(self)@ }),
    {
        let ghost before = self@;
        let mut list: Vec<usize> = Vec::new();
        std::mem::swap(&mut list, &mut self.unread);
        proof {
            assert(self@ =~= (ServerView { unread: Seq::empty(), ..before }));
            lemma_unread(before, Seq::empty());
        }
        list
    }

    /// How many slots there are.
    pub fn slot_count(&self) -> (n: usize)
        ensures
            n == self@.clients.len(),
    {
        self.clients.len()
    }

    /// When the worker must look again.
    pub fn wake(&self) -> (w: Wake)
        requires
            self.wf(),
        ensures
            w == self@.wake(),
    {
        if self.unread.len() > 0 {
            return Wake::Now;
        }
        match self.timers.peek() {
            Some(t) => Wake::At(t.0),
            None => Wake::Never,
        }
    }
}

proof fn lemma_unread(w: ServerView, unread: Seq<usize>)
    requires
        inv(w),
        unread.no_duplicates(),
    ensures
        inv(ServerView { unread, ..w }),
{
    let v = ServerView { unread, ..w };
    assert(clients_ok(v)) by {
        assert forall|k: int| 0 <= k < v.clients.len() && (
        #[trigger] v.clients[k]) is Some implies client_ok(v, k) by {
            assert(client_ok(w, k));
        }
    }
    assert(ids_ok(v)) by {
        assert forall|id: Seq<u8>| #[trigger] v.ids.contains_key(id) implies {
            &&& v.client(v.ids[id] as int) is Some
            &&& v.clients[v.ids[id] as int]->Some_0.ids.contains(id)
        } by {
            assert(w.ids.contains_key(id));
        }
    }
}

/// Takes from the table those of the IDs that are a slot's.
fn drop_ids(table: &mut IdTable, ids: &Vec<Vec<u8>>, slot: usize)
    requires
        old(table).wf(),
    ensures
        final(table).wf(),
        final(table)@ == taken_from(old(table)@, ids@.map_values(|id: Vec<u8>| id@), slot),
{
    let ghost all = ids@.map_values(|id: Vec<u8>| id@);
    let ghost start = table@;
    let mut k: usize = 0;
    assert(taken_from(start, all.take(0), slot) =~= start);
    while k < ids.len()
        invariant
            k <= ids@.len(),
            all == ids@.map_values(|id: Vec<u8>| id@),
            table.wf(),
            table@ == taken_from(start, all.take(k as int), slot),
        decreases ids@.len() - k,
    {
        table.remove_from(ids[k].as_slice(), slot);
        proof {
            let before = all.take(k as int);
            let after = all.take(k + 1);
            assert(all[k as int] == ids@[k as int]@);
            assert(after =~= before.push(all[k as int]));
            assert forall|id: Seq<u8>| #[trigger] after.contains(id) <==> before.contains(id) || id
                == all[k as int] by {
                if before.contains(id) {
                    let a = choose|a: int| 0 <= a < before.len() && before[a] == id;
                    assert(after[a] == id);
                }
                if id == all[k as int] {
                    assert(after[k as int] == id);
                }
            }
            assert(table@ =~= taken_from(start, after, slot));
        }
        k += 1;
    }
    assert(all.take(k as int) =~= all);
}

} // verus!
