//! What every worker keeps to, whatever happens to it.

use vstd::prelude::*;

use crate::engine::conn;
use crate::engine::conn::{
    BodySent, ConnView, DialJob, EventView, H3View, Nanos, Purpose, QueuedView, ReqKind,
    ReqView, State,
};
use crate::engine::count;
use crate::engine::model;
use crate::engine::model::{
    FlushView, OpView, PhaseView, RatePhase, SentView, Tick, WorkerView, MAX_BATCHES_IN_FLIGHT,
};

verus! {

/// A dial or a round trip that stands nowhere in the worker because it is just
/// being dealt with.
pub enum Hand {
    Nothing,
    Dial(DialJob),
    /// A round trip on the connection in that slot.
    Echo(usize),
}

pub open spec fn hand(op: OpView) -> Hand {
    match op {
        OpView::Nothing => Hand::Nothing,
        OpView::Dial(job) => Hand::Dial(job),
        OpView::Send { idx, kind, body, queued } => match kind {
            ReqKind::Echo { start } => Hand::Echo(idx),
            _ => Hand::Nothing,
        },
    }
}

pub open spec fn hand_job(h: Hand, f: spec_fn(DialJob) -> bool) -> nat {
    match h {
        Hand::Dial(job) => count::one(f(job)),
        _ => 0,
    }
}

// ---------------------------------------------------------------------------
// Where dials and round trips stand.

pub open spec fn is_new() -> spec_fn(DialJob) -> bool {
    |j: DialJob| j.purpose is New
}

pub open spec fn is_rate() -> spec_fn(DialJob) -> bool {
    |j: DialJob| j.purpose is RedialRate
}

pub open spec fn is_echo_into(i: usize) -> spec_fn(DialJob) -> bool {
    |j: DialJob| j.purpose is RedialEcho && j.slot == Some(i)
}

pub open spec fn is_into(i: usize) -> spec_fn(DialJob) -> bool {
    |j: DialJob| j.slot == Some(i)
}

pub open spec fn conn_dials(f: spec_fn(DialJob) -> bool) -> spec_fn(Option<ConnView>) -> bool {
    |c: Option<ConnView>| c is Some && c->Some_0.dial is Some && f(c->Some_0.dial->Some_0)
}

pub open spec fn retry_is(f: spec_fn(DialJob) -> bool) -> spec_fn((Nanos, DialJob)) -> bool {
    |r: (Nanos, DialJob)| f(r.1)
}

/// How many dials there are that `f` holds of.
pub open spec fn dials(w: WorkerView, h: Hand, f: spec_fn(DialJob) -> bool) -> nat {
    count::of(w.slots, conn_dials(f)) + count::of(w.retries, retry_is(f)) + hand_job(h, f)
}

pub open spec fn echo_req() -> spec_fn(ReqView) -> bool {
    |r: ReqView| r.kind is Echo
}

pub open spec fn echo_queued() -> spec_fn(QueuedView) -> bool {
    |q: QueuedView| q.kind is Echo
}

pub open spec fn is_echo_event(e: EventView) -> bool {
    e matches EventView::Response { kind, result } && kind is Echo
}

pub open spec fn echo_event_of(i: usize) -> spec_fn((usize, EventView)) -> bool {
    |e: (usize, EventView)| e.0 == i && is_echo_event(e.1)
}

pub open spec fn hand_echo(h: Hand, i: usize) -> nat {
    match h {
        Hand::Echo(k) => count::one(k == i),
        _ => 0,
    }
}

pub open spec fn conn_round_trips(c: Option<ConnView>) -> nat {
    match c {
        Some(c) => count::one(c.dial is Some && c.dial->Some_0.purpose is RedialEcho) + count::of(
            c.streams,
            echo_req(),
        ) + count::of(c.queued, echo_queued()),
        None => 0,
    }
}

/// How many round trips of BenchEcho there are on the connection in a slot:
/// those it is dialed again for, those whose request waits or is out, and those
/// whose end has not been acted on.
pub open spec fn round_trips(w: WorkerView, h: Hand, i: usize) -> nat {
    conn_round_trips(w.conn(i as int)) + count::of(w.retries, retry_is(is_echo_into(i))) + hand_job(
        h,
        is_echo_into(i),
    ) + count::of(w.events, echo_event_of(i)) + hand_echo(h, i)
}

/// How many dials are on their way into a slot that is not being dialed.
pub open spec fn redials_into(w: WorkerView, h: Hand, i: usize) -> nat {
    count::of(w.retries, retry_is(is_into(i))) + hand_job(h, is_into(i)) + (match w.phase {
        PhaseView::RatePrep(p) => count::one(p.todo.contains(i)),
        _ => 0,
    })
}

// ---------------------------------------------------------------------------
// What holds.

pub open spec fn is_occupied(w: WorkerView, i: int) -> bool {
    w.conn(i) is Some
}

/// Whether a slot is in use: it holds a connection, or held one or was to hold
/// one that could not be polled.
pub open spec fn is_held(w: WorkerView, i: usize) -> bool {
    i < w.slots.len() && !w.free.contains(i)
}

/// Free slots hold no connection, and each is free once.
pub open spec fn free_ok(w: WorkerView) -> bool {
    &&& w.slots.len() <= usize::MAX
    &&& w.free.no_duplicates()
    &&& forall|k: int|
        0 <= k < w.free.len() ==> (#[trigger] w.free[k]) < w.slots.len() && w.slots[w.free[k] as int] is None
}

/// No request of BenchMultiplex waits for room.
pub open spec fn queue_ok(c: ConnView) -> bool {
    forall|k: int| 0 <= k < c.queued.len() ==> !((#[trigger] c.queued[k]).kind is Rate)
}

pub open spec fn conn_ok(i: int, c: ConnView) -> bool {
    &&& c.dial is Some <==> c.state == State::Connecting
    &&& c.attempt_deadline is Some <==> c.state == State::Connecting
    &&& c.dial is Some ==> c.dial->Some_0.slot == Some(i as usize)
    &&& queue_ok(c)
    &&& conn::tracks_once(c.streams)
}

/// A connection is being dialed exactly while it is connecting.
pub open spec fn conns_ok(w: WorkerView) -> bool {
    forall|i: int|
        0 <= i < w.slots.len() && (#[trigger] w.slots[i]) is Some ==> conn_ok(i, w.slots[i]->Some_0)
}

pub open spec fn job_ok(job: DialJob) -> bool {
    job.purpose is New <==> job.slot is None
}

/// A dial has its slot from the start exactly if it is a redial.
pub open spec fn jobs_ok(w: WorkerView, h: Hand) -> bool {
    &&& forall|k: int| 0 <= k < w.retries.len() ==> job_ok((#[trigger] w.retries[k]).1)
    &&& h matches Hand::Dial(job) ==> job_ok(job)
}

/// Whether a slot holds no connection but a broken one.
pub open spec fn is_down(w: WorkerView, i: usize) -> bool {
    w.conn(i as int) matches Some(c) ==> c.state == State::Broken
}

/// At most one redial is on its way into a slot, and only into one in use that
/// holds no connection but a broken one.
pub open spec fn redials_ok(w: WorkerView, h: Hand) -> bool {
    forall|i: usize| #[trigger]
        redials_into(w, h, i) > 0 ==> {
            &&& redials_into(w, h, i) == 1
            &&& is_held(w, i)
            &&& is_down(w, i)
        }
}

/// The Connections benchmark counts its dials in progress right.
pub open spec fn dial_ok(w: WorkerView, h: Hand) -> bool {
    match w.phase {
        PhaseView::Dial(d) => d.active == dials(w, h, is_new()),
        _ => dials(w, h, is_new()) == 0,
    }
}

/// The redials before BenchMultiplex that are counted are no fewer than there are.
pub open spec fn prep_ok(w: WorkerView, h: Hand) -> bool {
    match w.phase {
        PhaseView::RatePrep(p) => {
            &&& p.redials >= dials(w, h, is_rate()) + p.todo.len()
            &&& p.todo.no_duplicates()
            &&& job_fits(p.job.batch, p.job.tick)
        },
        _ => dials(w, h, is_rate()) == 0,
    }
}

/// Whether a slot may have so many round trips and places among the idle: one if
/// it holds a connection, and none if it is not in use.
pub open spec fn fits(w: WorkerView, i: usize, n: nat) -> bool {
    count::one(is_occupied(w, i as int)) <= n <= count::one(is_held(w, i))
}

/// The slots that BenchEcho runs on: those that are idle or have a round trip.
pub open spec fn members(w: WorkerView, h: Hand, idle: Seq<usize>) -> Seq<usize> {
    model::indices(
        w.slots.len(),
        |i: int| round_trips(w, h, i as usize) + count::one(idle.contains(i as usize)) > 0,
    )
}

/// Each connection of BenchEcho is idle or has one round trip, no more than the
/// concurrency asked for have one, and there are no round trips otherwise.
pub open spec fn echo_ok(w: WorkerView, h: Hand) -> bool {
    match w.phase {
        PhaseView::Echo(e) => {
            &&& e.idle.no_duplicates()
            &&& forall|i: usize| fits(w, i, #[trigger] round_trips(w, h, i) + count::one(e.idle.contains(i)))
            &&& e.in_flight + e.idle.len() == members(w, h, e.idle).len()
            &&& e.in_flight <= e.slots <= members(w, h, e.idle).len()
            &&& e.job.payloads.len() > 0
        },
        _ => forall|i: usize| #[trigger] round_trips(w, h, i) == 0,
    }
}

pub open spec fn limit(batch: usize) -> int {
    batch * MAX_BATCHES_IN_FLIGHT
}

pub open spec fn job_fits(batch: usize, tick: Nanos) -> bool {
    limit(batch) <= u64::MAX && tick > 0
}

pub open spec fn unanswered(w: WorkerView, r: RatePhase, k: int) -> int {
    match w.conn(r.conns[k] as int) {
        Some(c) => c.in_flight as int,
        None => 0,
    }
}

/// No connection of BenchMultiplex has more than four batches unanswered.
pub open spec fn rate_ok(w: WorkerView) -> bool {
    match w.phase {
        PhaseView::Rate(r) => {
            &&& job_fits(r.job.batch, r.job.tick)
            &&& r.conns.len() <= usize::MAX
            &&& forall|k: int|
                0 <= k < r.conns.len() ==> (#[trigger] r.conns[k]) < w.slots.len() && unanswered(w, r, k)
                    <= limit(r.job.batch)
            &&& match r.tick {
                Some(Tick::Look(at)) => at <= r.conns.len(),
                Some(Tick::Streams(at)) => at < r.conns.len() && unanswered(w, r, at as int)
                    + r.job.batch <= limit(r.job.batch),
                Some(Tick::Tokens(at)) => at < r.conns.len() && unanswered(w, r, at as int)
                    + r.job.batch <= limit(r.job.batch),
                Some(Tick::Sending { at, left }) => at < r.conns.len() && left > 0 && unanswered(
                    w,
                    r,
                    at as int,
                ) + left <= limit(r.job.batch),
                None => true,
            }
        },
        _ => true,
    }
}

pub open spec fn is_ready() -> spec_fn(Option<ConnView>) -> bool {
    |c: Option<ConnView>| c is Some && c->Some_0.state == State::Ready
}

/// The connections that are up are counted right.
pub open spec fn ready_ok(w: WorkerView) -> bool {
    w.ready == count::of(w.slots, is_ready())
}

/// A connection that is not broken and owes no flush has a timer set for when it
/// is due, or for before.
pub open spec fn timer_ok(w: WorkerView, i: int) -> bool {
    w.slots[i] matches Some(c) ==> {
        &&& c.scheduled matches Some(s) ==> w.timers.count((s, i as usize)) > 0
        &&& c.state != State::Broken && !c.dirty ==> (c.deadline matches Some(d) ==> c.scheduled is Some
            && c.scheduled->Some_0 <= d)
    }
}

pub open spec fn timers_ok(w: WorkerView) -> bool {
    forall|i: int| 0 <= i < w.slots.len() ==> (#[trigger] w.slots[i]) is Some ==> timer_ok(w, i)
}

/// Every connection that owes a flush is on the list of those that do.
pub open spec fn dirty_ok(w: WorkerView) -> bool {
    forall|i: int|
        0 <= i < w.slots.len() ==> (#[trigger] w.slots[i]) is Some ==> w.slots[i]->Some_0.dirty
            ==> w.dirty.contains(i as usize)
}

pub open spec fn holds(w: WorkerView, h: Hand) -> bool {
    &&& free_ok(w)
    &&& conns_ok(w)
    &&& jobs_ok(w, h)
    &&& redials_ok(w, h)
    &&& dial_ok(w, h)
    &&& prep_ok(w, h)
    &&& echo_ok(w, h)
    &&& rate_ok(w)
    &&& ready_ok(w)
    &&& timers_ok(w)
    &&& dirty_ok(w)
}

/// What a worker waits for concerns a connection that it has, and for a request
/// of BenchMultiplex the one whose batch is being sent.
pub open spec fn op_ok(w: WorkerView) -> bool {
    w.op matches OpView::Send { idx, kind, body, queued } ==> {
        &&& is_occupied(w, idx as int)
        &&& kind is Rate ==> sending_on(w, idx)
    }
}

pub open spec fn sending_on(w: WorkerView, idx: usize) -> bool {
    match w.phase {
        PhaseView::Rate(r) => match r.tick {
            Some(Tick::Sending { at, left }) => r.conns[at as int] == idx,
            _ => false,
        },
        _ => false,
    }
}

/// What every worker keeps to.
pub open spec fn inv(w: WorkerView) -> bool {
    holds(w, hand(w.op)) && op_ok(w)
}

// ---------------------------------------------------------------------------
// Lists of slots.

pub proof fn lemma_indices(n: nat, f: spec_fn(int) -> bool)
    requires
        n <= usize::MAX + 1,
    ensures
        model::indices(n, f).no_duplicates(),
        model::indices(n, f).len() <= n,
        forall|i: usize| #[trigger] model::indices(n, f).contains(i) <==> i < n && f(i as int),
        forall|k: int| 0 <= k < model::indices(n, f).len() ==> (#[trigger] model::indices(n, f)[k]) < n && f(
            model::indices(n, f)[k] as int,
        ),
    decreases n,
{
    if n > 0 {
        let m = (n - 1) as nat;
        lemma_indices(m, f);
        let rest = model::indices(m, f);
        let all = model::indices(n, f);
        if f(n - 1) {
            let last = (n - 1) as usize;
            assert(all == rest.push(last));
            assert forall|i: usize| #[trigger] all.contains(i) <==> i < n && f(i as int) by {
                if i < m && f(i as int) {
                    assert(rest.contains(i));
                    let k = choose|k: int| 0 <= k < rest.len() && rest[k] == i;
                    assert(all[k] == i);
                }
                if i == last {
                    assert(all[rest.len() as int] == i);
                }
                if all.contains(i) {
                    let k = choose|k: int| 0 <= k < all.len() && all[k] == i;
                    if k < rest.len() {
                        assert(rest[k] == i);
                        assert(rest.contains(i));
                    }
                }
            }
            assert forall|k: int| 0 <= k < all.len() implies (#[trigger] all[k]) < n && f(
                all[k] as int,
            ) by {
                if k < rest.len() {
                    assert(rest[k] < m);
                }
            }
            assert forall|a: int, b: int| 0 <= a < b < all.len() implies all[a] != all[b] by {
                assert(rest[a] < m);
            }
        } else {
            assert(all == rest);
            assert forall|i: usize| #[trigger] all.contains(i) <==> i < n && f(i as int) by {
                assert(rest.contains(i) <==> i < m && f(i as int));
            }
        }
    } else {
        assert(model::indices(n, f) =~= Seq::<usize>::empty());
    }
}

pub proof fn lemma_indices_same(n: nat, f: spec_fn(int) -> bool, g: spec_fn(int) -> bool)
    requires
        forall|i: int| 0 <= i < n ==> #[trigger] f(i) == #[trigger] g(i),
    ensures
        model::indices(n, f) == model::indices(n, g),
    decreases n,
{
    if n > 0 {
        lemma_indices_same((n - 1) as nat, f, g);
    }
}

/// A list of some of others, each once, is no longer than theirs, and as long
/// only if it has them all.
pub proof fn lemma_some_of(some: Seq<usize>, all: Seq<usize>)
    requires
        some.no_duplicates(),
        all.no_duplicates(),
        forall|i: usize| #[trigger] some.contains(i) ==> all.contains(i),
    ensures
        some.len() <= all.len(),
        some.len() == all.len() ==> forall|i: usize| #[trigger] all.contains(i) ==> some.contains(i),
{
    some.unique_seq_to_set();
    all.unique_seq_to_set();
    let s = some.to_set();
    let a = all.to_set();
    assert(s.subset_of(a)) by {
        assert forall|i: usize| s.contains(i) implies a.contains(i) by {
            assert(some.contains(i));
        }
    }
    vstd::set_lib::lemma_len_subset(s, a);
    if some.len() == all.len() {
        vstd::set_lib::lemma_subset_equality(s, a);
        assert forall|i: usize| #[trigger] all.contains(i) implies some.contains(i) by {
            assert(a.contains(i));
            assert(s.contains(i));
        }
    }
}

pub proof fn lemma_occupied(w: WorkerView)
    requires
        free_ok(w),
    ensures
        w.occupied().no_duplicates(),
        forall|i: usize| #[trigger] w.occupied().contains(i) <==> is_occupied(w, i as int),
{
    lemma_indices(w.slots.len(), |i: int| w.slots[i] is Some);
    assert forall|i: usize| #[trigger] w.occupied().contains(i) <==> is_occupied(w, i as int) by {
        assert(model::indices(w.slots.len(), |i: int| w.slots[i] is Some).contains(i) <==> i
            < w.slots.len() && w.slots[i as int] is Some);
    }
}

pub proof fn lemma_members(w: WorkerView, h: Hand)
    requires
        free_ok(w),
        echo_ok(w, h),
        w.phase is Echo,
    ensures
        members(w, h, w.phase->Echo_0.idle).no_duplicates(),
        members(w, h, w.phase->Echo_0.idle).len() <= w.slots.len(),
        forall|i: usize| #[trigger]
            members(w, h, w.phase->Echo_0.idle).contains(i) <==> round_trips(w, h, i) + count::one(
                w.phase->Echo_0.idle.contains(i),
            ) > 0,
{
    let idle = w.phase->Echo_0.idle;
    let f = |i: int| round_trips(w, h, i as usize) + count::one(idle.contains(i as usize)) > 0;
    lemma_indices(w.slots.len(), f);
    assert forall|i: usize| #[trigger] members(w, h, idle).contains(i) <==> round_trips(w, h, i)
        + count::one(idle.contains(i)) > 0 by {
        assert(fits(w, i, round_trips(w, h, i) + count::one(idle.contains(i))));
        assert(model::indices(w.slots.len(), f).contains(i) <==> i < w.slots.len() && f(i as int));
    }
}

pub proof fn lemma_members_same(
    w: WorkerView,
    h: Hand,
    a: Seq<usize>,
    v: WorkerView,
    g: Hand,
    b: Seq<usize>,
)
    requires
        w.slots.len() == v.slots.len(),
        w.slots.len() <= usize::MAX,
        forall|i: usize| #[trigger]
            round_trips(w, h, i) + count::one(a.contains(i)) == round_trips(v, g, i) + count::one(
                b.contains(i),
            ),
    ensures
        members(w, h, a) == members(v, g, b),
{
    let f = |i: int| round_trips(w, h, i as usize) + count::one(a.contains(i as usize)) > 0;
    let e = |i: int| round_trips(v, g, i as usize) + count::one(b.contains(i as usize)) > 0;
    assert forall|i: int| 0 <= i < w.slots.len() implies #[trigger] f(i) == #[trigger] e(i) by {
        assert(round_trips(w, h, i as usize) + count::one(a.contains(i as usize)) == round_trips(
            v,
            g,
            i as usize,
        ) + count::one(b.contains(i as usize)));
    }
    lemma_indices_same(w.slots.len(), f, e);
}

/// A slot that holds a connection is in use.
pub proof fn lemma_occupied_held(w: WorkerView, i: usize)
    requires
        free_ok(w),
        is_occupied(w, i as int),
    ensures
        is_held(w, i),
{
    if w.free.contains(i) {
        let a = choose|a: int| 0 <= a < w.free.len() && w.free[a] == i;
        assert(w.slots[w.free[a] as int] is None);
    }
}

/// Where there is a round trip, BenchEcho runs, its connection is not idle, and
/// it is counted.
pub proof fn lemma_echo_counted(w: WorkerView, h: Hand, i: usize)
    requires
        holds(w, h),
        round_trips(w, h, i) > 0,
    ensures
        w.phase is Echo,
        w.phase->Echo_0.in_flight >= 1,
        !w.phase->Echo_0.idle.contains(i),
        is_held(w, i),
        round_trips(w, h, i) == 1,
{
    match w.phase {
        PhaseView::Echo(e) => {
            lemma_members(w, h);
            assert(fits(w, i, round_trips(w, h, i) + count::one(e.idle.contains(i))));
            assert forall|k: usize| #[trigger] e.idle.contains(k) implies members(
                w,
                h,
                e.idle,
            ).contains(k) by {
                assert(round_trips(w, h, k) + count::one(e.idle.contains(k)) > 0);
            }
            lemma_some_of(e.idle, members(w, h, e.idle));
            assert(members(w, h, e.idle).contains(i));
        },
        _ => {
            assert(round_trips(w, h, i) == 0);
        },
    }
}

/// Where none is counted, there is none.
pub proof fn lemma_no_round_trips(w: WorkerView, h: Hand)
    requires
        holds(w, h),
        w.phase is Echo,
        w.phase->Echo_0.in_flight == 0,
    ensures
        forall|i: usize| #[trigger] round_trips(w, h, i) == 0,
{
    assert forall|i: usize| #[trigger] round_trips(w, h, i) == 0 by {
        if round_trips(w, h, i) > 0 {
            lemma_echo_counted(w, h, i);
        }
    }
}

// ---------------------------------------------------------------------------
// What changes nothing that counts.

/// Two connections of which one may stand for the other.
pub open spec fn alike(a: Option<ConnView>, b: Option<ConnView>) -> bool {
    match a {
        None => b is None,
        Some(c) => b is Some && b->Some_0.state == c.state && b->Some_0.dial == c.dial
            && b->Some_0.attempt_deadline == c.attempt_deadline && b->Some_0.in_flight == c.in_flight
            && (queue_ok(c) ==> queue_ok(b->Some_0)) && (conn::tracks_once(c.streams)
            ==> conn::tracks_once(b->Some_0.streams)),
    }
}

pub open spec fn hand_dial(h: Hand) -> Option<DialJob> {
    match h {
        Hand::Dial(job) => Some(job),
        _ => None,
    }
}

/// Changes to connections that leave them alike, and move round trips about
/// without losing or adding any.
pub proof fn lemma_frame(w: WorkerView, h: Hand, v: WorkerView, g: Hand)
    requires
        holds(w, h),
        v.slots.len() == w.slots.len(),
        forall|i: int| 0 <= i < w.slots.len() ==> alike(#[trigger] w.slots[i], v.slots[i]),
        v.free == w.free,
        v.retries == w.retries,
        v.phase == w.phase,
        v.ready == w.ready,
        hand_dial(g) == hand_dial(h),
        forall|i: usize| #[trigger] round_trips(v, g, i) == round_trips(w, h, i),
        timers_ok(v),
        dirty_ok(v),
    ensures
        holds(v, g),
{
    assert forall|i: int| 0 <= i < v.slots.len() implies alike(w.slots[i], #[trigger] v.slots[i]) by {
        assert(alike(w.slots[i], v.slots[i]));
    }
    assert(conns_ok(v)) by {
        assert forall|i: int| 0 <= i < v.slots.len() && (
        #[trigger] v.slots[i]) is Some implies conn_ok(i, v.slots[i]->Some_0) by {
            assert(conn_ok(i, w.slots[i]->Some_0));
        }
    }
    assert forall|i: usize| redials_into(v, g, i) == redials_into(w, h, i) by {}
    assert(redials_ok(v, g)) by {
        assert forall|i: usize| #[trigger] redials_into(v, g, i) > 0 implies {
            &&& redials_into(v, g, i) == 1
            &&& is_held(v, i)
            &&& is_down(v, i)
        } by {
            assert(redials_into(w, h, i) > 0);
        }
    }
    lemma_dials_alike(w, v, is_new());
    lemma_dials_alike(w, v, is_rate());
    lemma_echo_same(w, h, v, g);
    assert(rate_ok(v)) by {
        match w.phase {
            PhaseView::Rate(r) => {
                assert forall|k: int| 0 <= k < r.conns.len() implies (#[trigger] r.conns[k])
                    < v.slots.len() && unanswered(v, r, k) == unanswered(w, r, k) by {}
            },
            _ => {},
        }
    }
    assert(ready_ok(v)) by {
        assert forall|i: int| 0 <= i < w.slots.len() implies is_ready()(#[trigger] w.slots[i])
            == is_ready()(v.slots[i]) by {}
        count::same(w.slots, v.slots, is_ready(), is_ready());
    }
}

proof fn lemma_dials_alike(w: WorkerView, v: WorkerView, f: spec_fn(DialJob) -> bool)
    requires
        v.slots.len() == w.slots.len(),
        forall|i: int| 0 <= i < w.slots.len() ==> alike(#[trigger] w.slots[i], v.slots[i]),
    ensures
        count::of(w.slots, conn_dials(f)) == count::of(v.slots, conn_dials(f)),
{
    assert forall|i: int| 0 <= i < w.slots.len() implies conn_dials(f)(#[trigger] w.slots[i])
        == conn_dials(f)(v.slots[i]) by {
        assert(alike(w.slots[i], v.slots[i]));
    }
    count::same(w.slots, v.slots, conn_dials(f), conn_dials(f));
}

/// Round trips that have only moved about are still counted right.
proof fn lemma_echo_same(w: WorkerView, h: Hand, v: WorkerView, g: Hand)
    requires
        echo_ok(w, h),
        free_ok(w),
        v.phase == w.phase,
        v.free == w.free,
        v.slots.len() == w.slots.len(),
        forall|i: usize|
            #![trigger is_occupied(v, i as int)]
            w.phase is Echo && is_occupied(v, i as int) ==> is_occupied(w, i as int) || round_trips(
                w,
                h,
                i,
            ) > 0,
        forall|i: usize| #[trigger] round_trips(v, g, i) == round_trips(w, h, i),
    ensures
        echo_ok(v, g),
{
    match w.phase {
        PhaseView::Echo(e) => {
            assert forall|i: usize| #[trigger]
                round_trips(w, h, i) + count::one(e.idle.contains(i)) == round_trips(v, g, i)
                    + count::one(e.idle.contains(i)) by {
                assert(round_trips(v, g, i) == round_trips(w, h, i));
            }
            lemma_members_same(w, h, e.idle, v, g, e.idle);
            assert forall|i: usize| fits(
                v,
                i,
                #[trigger] round_trips(v, g, i) + count::one(e.idle.contains(i)),
            ) by {
                assert(fits(w, i, round_trips(w, h, i) + count::one(e.idle.contains(i))));
                assert(is_held(v, i) == is_held(w, i));
                assert(is_occupied(v, i as int) ==> is_occupied(w, i as int) || round_trips(w, h, i)
                    > 0);
            }
        },
        _ => {
            assert forall|i: usize| #[trigger] round_trips(v, g, i) == 0 by {
                assert(round_trips(w, h, i) == 0);
            }
        },
    }
}

/// BenchEcho goes on with slots that have as many round trips and places among
/// the idle as before.
proof fn lemma_echo_moved(w: WorkerView, h: Hand, v: WorkerView, g: Hand)
    requires
        echo_ok(w, h),
        free_ok(w),
        w.phase is Echo,
        v.phase is Echo,
        v.free == w.free,
        v.slots == w.slots,
        v.phase->Echo_0.idle.no_duplicates(),
        v.phase->Echo_0.in_flight + v.phase->Echo_0.idle.len() == w.phase->Echo_0.in_flight
            + w.phase->Echo_0.idle.len(),
        v.phase->Echo_0.in_flight <= v.phase->Echo_0.slots,
        v.phase->Echo_0.slots == w.phase->Echo_0.slots,
        v.phase->Echo_0.job == w.phase->Echo_0.job,
        forall|i: usize| #[trigger]
            round_trips(w, h, i) + count::one(w.phase->Echo_0.idle.contains(i)) == round_trips(v, g, i)
                + count::one(v.phase->Echo_0.idle.contains(i)),
    ensures
        echo_ok(v, g),
{
    let e = w.phase->Echo_0;
    let f = v.phase->Echo_0;
    lemma_members_same(w, h, e.idle, v, g, f.idle);
    assert forall|i: usize| fits(
        v,
        i,
        #[trigger] round_trips(v, g, i) + count::one(f.idle.contains(i)),
    ) by {
        assert(round_trips(w, h, i) + count::one(e.idle.contains(i)) == round_trips(v, g, i)
            + count::one(f.idle.contains(i)));
        assert(fits(w, i, round_trips(w, h, i) + count::one(e.idle.contains(i))));
    }
}

/// No more redials than before, into connections that are still broken.
proof fn lemma_redials_same(w: WorkerView, h: Hand, v: WorkerView, g: Hand)
    requires
        redials_ok(w, h),
        forall|i: usize| #[trigger] redials_into(v, g, i) <= redials_into(w, h, i),
        forall|i: usize|
            #![trigger redials_into(v, g, i)]
            redials_into(v, g, i) > 0 && is_held(w, i) && is_down(w, i) ==> is_held(v, i) && is_down(
                v,
                i,
            ),
    ensures
        redials_ok(v, g),
{
    assert forall|i: usize| #[trigger] redials_into(v, g, i) > 0 implies {
        &&& redials_into(v, g, i) == 1
        &&& is_held(v, i)
        &&& is_down(v, i)
    } by {
        assert(redials_into(w, h, i) > 0);
    }
}

// ---------------------------------------------------------------------------
// Round trips and dials that are over.

pub proof fn lemma_echo_done(
    w: WorkerView,
    idx: usize,
    result: Result<usize, Seq<char>>,
    start: Nanos,
    now: Nanos,
)
    requires
        holds(w, Hand::Echo(idx)),
    ensures
        holds(w.echo_done(idx, result, start, now), Hand::Nothing),
{
    let h = Hand::Echo(idx);
    let v = w.echo_done(idx, result, start, now);
    assert(round_trips(w, h, idx) > 0);
    lemma_echo_counted(w, h, idx);
    let e = w.phase->Echo_0;
    let f = v.phase->Echo_0;
    assert forall|i: usize| redials_into(v, Hand::Nothing, i) == redials_into(w, h, i) by {}
    assert(redials_ok(v, Hand::Nothing)) by {
        assert forall|i: usize| #[trigger] redials_into(v, Hand::Nothing, i) > 0 implies {
            &&& redials_into(v, Hand::Nothing, i) == 1
            &&& is_held(v, i)
            &&& is_down(v, i)
        } by {
            assert(redials_into(w, h, i) > 0);
        }
    }
    assert(f.idle.no_duplicates());
    assert forall|i: usize| #[trigger]
        round_trips(w, h, i) + count::one(e.idle.contains(i)) == round_trips(v, Hand::Nothing, i)
            + count::one(f.idle.contains(i)) by {
        if i == idx {
            assert(f.idle[e.idle.len() as int] == idx);
            assert(f.idle.contains(i));
        } else {
            if e.idle.contains(i) {
                let k = choose|k: int| 0 <= k < e.idle.len() && e.idle[k] == i;
                assert(f.idle[k] == i);
            }
            if f.idle.contains(i) {
                let k = choose|k: int| 0 <= k < f.idle.len() && f.idle[k] == i;
                assert(e.idle[k] == i);
            }
        }
    }
    lemma_echo_moved(w, h, v, Hand::Nothing);
}

/// A dial in hand becomes the round trip it was for.
pub proof fn lemma_hand_to_echo(w: WorkerView, job: DialJob, idx: usize)
    requires
        holds(w, Hand::Dial(job)),
        job.purpose is RedialEcho,
        job.slot == Some(idx),
    ensures
        holds(w, Hand::Echo(idx)),
{
    let h = Hand::Dial(job);
    let g = Hand::Echo(idx);
    assert forall|i: usize| #[trigger] round_trips(w, g, i) == round_trips(w, h, i) by {}
    lemma_echo_same(w, h, w, g);
    assert(redials_ok(w, g)) by {
        assert forall|i: usize| #[trigger] redials_into(w, g, i) > 0 implies {
            &&& redials_into(w, g, i) == 1
            &&& is_held(w, i)
            &&& is_down(w, i)
        } by {
            assert(redials_into(w, h, i) > 0);
        }
    }
}

pub proof fn lemma_dial_failed_job(w: WorkerView, job: DialJob, err: Seq<char>, now: Nanos)
    requires
        holds(w, Hand::Dial(job)),
    ensures
        holds(w.dial_failed_job(job, err, now), Hand::Nothing),
{
    let h = Hand::Dial(job);
    let g = Hand::Nothing;
    let v = w.dial_failed_job(job, err, now);
    if job.attempt < w.limits.dial_retries {
        let x = v.retries.last();
        assert(v.retries == w.retries.push(x));
        count::push(w.retries, x, retry_is(is_new()));
        count::push(w.retries, x, retry_is(is_rate()));
        assert forall|i: usize| redials_into(v, g, i) == redials_into(w, h, i) by {
            count::push(w.retries, x, retry_is(is_into(i)));
        }
        assert(redials_ok(v, g)) by {
            assert forall|i: usize| #[trigger] redials_into(v, g, i) > 0 implies {
                &&& redials_into(v, g, i) == 1
                &&& is_held(v, i)
                &&& is_down(v, i)
            } by {
                assert(redials_into(w, h, i) > 0);
            }
        }
        assert forall|i: usize| #[trigger] round_trips(v, g, i) == round_trips(w, h, i) by {
            count::push(w.retries, x, retry_is(is_echo_into(i)));
        }
        lemma_echo_same(w, h, v, g);
    } else {
        match job.purpose {
            Purpose::RedialEcho { start } => {
                let idx = job.slot->Some_0;
                lemma_hand_to_echo(w, job, idx);
                lemma_echo_done(w, idx, Err("redial: "@ + err), start, now);
            },
            _ => {
                assert forall|i: usize| #[trigger] round_trips(v, g, i) == round_trips(w, h, i) by {}
                assert(redials_ok(v, g)) by {
                    assert forall|i: usize| #[trigger] redials_into(v, g, i) > 0 implies {
                        &&& redials_into(v, g, i) == 1
                        &&& is_held(v, i)
                        &&& is_down(v, i)
                    } by {
                        assert(redials_into(w, h, i) > 0);
                    }
                }
                assert(!(w.phase is Echo) || v.phase == w.phase);
                match w.phase {
                    PhaseView::Echo(e) => {
                        assert(false);
                    },
                    _ => {
                        assert forall|i: usize| #[trigger] round_trips(v, g, i) == 0 by {
                            assert(round_trips(w, h, i) == 0);
                        }
                    },
                }
            },
        }
    }
}

/// What a connection that is being dialed has no round trips but the one it is
/// dialed for.
proof fn lemma_dialing_round_trips(w: WorkerView, idx: usize)
    requires
        holds(w, Hand::Nothing),
        is_occupied(w, idx as int),
        w.slots[idx as int]->Some_0.dial is Some,
    ensures
        ({
            let c = w.slots[idx as int]->Some_0;
            let echo = c.dial->Some_0.purpose is RedialEcho;
            &&& conn_round_trips(w.conn(idx as int)) == count::one(echo)
            &&& count::of(c.streams, echo_req()) == 0
            &&& count::of(c.queued, echo_queued()) == 0
            &&& redials_into(w, Hand::Nothing, idx) == 0
        }),
{
    let c = w.slots[idx as int]->Some_0;
    let job = c.dial->Some_0;
    assert(conn_ok(idx as int, c));
    if round_trips(w, Hand::Nothing, idx) > 0 {
        lemma_echo_counted(w, Hand::Nothing, idx);
        if !(job.purpose is RedialEcho) {
            if job.purpose is New {
                count::positive(w.slots, idx as int, conn_dials(is_new()));
            } else {
                count::positive(w.slots, idx as int, conn_dials(is_rate()));
            }
        }
    }
    if redials_into(w, Hand::Nothing, idx) > 0 {
        assert(w.slots[idx as int]->Some_0.state == State::Broken);
    }
}

pub proof fn lemma_dial_failed(w: WorkerView, idx: usize, err: Seq<char>, now: Nanos)
    requires
        holds(w, Hand::Nothing),
    ensures
        holds(w.dial_failed(idx, err, now), Hand::Nothing),
{
    let h = Hand::Nothing;
    match w.conn(idx as int) {
        Some(c) => match c.dial {
            Some(job) => {
                assert(conn_ok(idx as int, c));
                lemma_dialing_round_trips(w, idx);
                if job.purpose == Purpose::New {
                    let v = WorkerView {
                        slots: w.slots.update(idx as int, None),
                        free: w.free.push(idx),
                        ..w
                    };
                    let j = DialJob { slot: None, ..job };
                    lemma_slot_freed(w, idx, j);
                    lemma_dial_failed_job(v, j, err, now);
                } else {
                    let v = w.with_conn(idx as int, c.given_up());
                    lemma_given_up(w, idx);
                    lemma_dial_failed_job(v, job, err, now);
                }
            },
            None => {},
        },
        None => {},
    }
}

pub proof fn lemma_slot_freed(w: WorkerView, idx: usize, j: DialJob)
    requires
        holds(w, Hand::Nothing),
        is_occupied(w, idx as int),
        w.slots[idx as int]->Some_0.dial is Some,
        w.slots[idx as int]->Some_0.dial->Some_0.purpose is New,
        j.purpose is New,
        j.slot is None,
    ensures
        holds(
            WorkerView { slots: w.slots.update(idx as int, None), free: w.free.push(idx), ..w },
            Hand::Dial(j),
        ),
{
    let h = Hand::Nothing;
    let g = Hand::Dial(j);
    let k = idx as int;
    let v = WorkerView { slots: w.slots.update(k, None), free: w.free.push(idx), ..w };
    let c = w.slots[k]->Some_0;
    assert(conn_ok(k, c));
    lemma_dialing_round_trips(w, idx);
    count::positive(w.slots, k, conn_dials(is_new()));
    assert(w.phase is Dial);
    count::update(w.slots, k, None, conn_dials(is_new()));
    count::update(w.slots, k, None, conn_dials(is_rate()));
    count::update(w.slots, k, None, is_ready());
    assert(free_ok(v)) by {
        assert(!w.free.contains(idx)) by {
            if w.free.contains(idx) {
                let a = choose|a: int| 0 <= a < w.free.len() && w.free[a] == idx;
                assert(w.slots[w.free[a] as int] is None);
            }
        }
        assert(v.free.no_duplicates());
    }
    assert forall|i: usize| redials_into(v, g, i) == redials_into(w, h, i) by {}
    assert(redials_ok(v, g)) by {
        assert forall|i: usize| #[trigger] redials_into(v, g, i) > 0 implies {
            &&& redials_into(v, g, i) == 1
            &&& is_held(v, i)
            &&& is_down(v, i)
        } by {
            assert(redials_into(w, h, i) > 0);
        }
    }
    assert forall|i: usize| #[trigger] round_trips(v, g, i) == 0 by {
        assert(round_trips(w, h, i) == 0);
    }
}

pub proof fn lemma_given_up(w: WorkerView, idx: usize)
    requires
        holds(w, Hand::Nothing),
        is_occupied(w, idx as int),
        w.slots[idx as int]->Some_0.dial is Some,
        !(w.slots[idx as int]->Some_0.dial->Some_0.purpose is New),
    ensures
        holds(
            w.with_conn(idx as int, w.slots[idx as int]->Some_0.given_up()),
            Hand::Dial(w.slots[idx as int]->Some_0.dial->Some_0),
        ),
{
    let h = Hand::Nothing;
    let k = idx as int;
    let c = w.slots[k]->Some_0;
    let job = c.dial->Some_0;
    let g = Hand::Dial(job);
    let d = c.given_up();
    let v = w.with_conn(k, d);
    assert(conn_ok(k, c));
    lemma_dialing_round_trips(w, idx);
    count::update(w.slots, k, Some(d), conn_dials(is_new()));
    count::update(w.slots, k, Some(d), conn_dials(is_rate()));
    count::update(w.slots, k, Some(d), is_ready());
    assert forall|i: usize| redials_into(v, g, i) == redials_into(w, h, i) + count::one(i == idx) by {}
    assert(redials_ok(v, g)) by {
        assert forall|i: usize| #[trigger] redials_into(v, g, i) > 0 implies {
            &&& redials_into(v, g, i) == 1
            &&& is_held(v, i)
            &&& is_down(v, i)
        } by {
            if i != idx {
                assert(redials_into(w, h, i) > 0);
            }
        }
    }
    assert forall|i: usize| #[trigger] round_trips(v, g, i) == round_trips(w, h, i) by {
        assert(d.streams =~= Seq::<ReqView>::empty());
        assert(d.queued =~= Seq::<QueuedView>::empty());
    }
    lemma_echo_same(w, h, v, g);
    assert(rate_ok(v)) by {
        match w.phase {
            PhaseView::Rate(r) => {
                assert forall|a: int| 0 <= a < r.conns.len() implies (#[trigger] r.conns[a])
                    < v.slots.len() && unanswered(v, r, a) == unanswered(w, r, a) by {}
            },
            _ => {},
        }
    }
}

/// A connection came up: what it was dialed for goes on.
pub proof fn lemma_come_up(w: WorkerView, idx: usize, lat: crate::stats::LatenciesView)
    requires
        holds(w, Hand::Nothing),
        is_occupied(w, idx as int),
        w.slots[idx as int]->Some_0.dial is Some,
    ensures
        ({
            let c = w.slots[idx as int]->Some_0;
            let v = WorkerView { ready: w.ready + 1, ..w.with_conn(idx as int, c.come_up()) };
            match c.dial->Some_0.purpose {
                Purpose::RedialEcho { start } => holds(v, Hand::Echo(idx)),
                Purpose::New => w.phase matches PhaseView::Dial(d) && d.active >= 1 && holds(
                    WorkerView {
                        connected: w.connected + 1,
                        ..v.with_phase(
                            PhaseView::Dial(
                                model::DialPhase { active: (d.active - 1) as nat, lat, ..d },
                            ),
                        )
                    },
                    Hand::Nothing,
                ),
                Purpose::RedialRate => w.phase matches PhaseView::RatePrep(p) && p.redials >= 1
                    && holds(
                    v.with_phase(
                        PhaseView::RatePrep(p.counted_off()),
                    ),
                    Hand::Nothing,
                ),
            }
        }),
{
    let h = Hand::Nothing;
    let k = idx as int;
    let c = w.slots[k]->Some_0;
    let job = c.dial->Some_0;
    let d = c.come_up();
    let v = WorkerView { ready: w.ready + 1, ..w.with_conn(k, d) };
    assert(conn_ok(k, c));
    lemma_dialing_round_trips(w, idx);
    count::update(w.slots, k, Some(d), conn_dials(is_new()));
    count::update(w.slots, k, Some(d), conn_dials(is_rate()));
    count::update(w.slots, k, Some(d), is_ready());
    assert(conns_ok(v));
    assert(timers_ok(v)) by {
        assert forall|i: int| 0 <= i < v.slots.len() && (#[trigger] v.slots[i]) is Some implies timer_ok(
            v,
            i,
        ) by {
            assert(timer_ok(w, i));
        }
    }
    assert(dirty_ok(v));
    match job.purpose {
        Purpose::RedialEcho { start } => {
            let g = Hand::Echo(idx);
            assert(round_trips(w, h, idx) > 0);
            lemma_echo_counted(w, h, idx);
            lemma_redials_same(w, h, v, g);
            assert forall|i: usize| #[trigger] round_trips(v, g, i) == round_trips(w, h, i) by {}
            lemma_echo_same(w, h, v, g);
        },
        Purpose::New => {
            let p = w.phase;
            count::positive(w.slots, k, conn_dials(is_new()));
            let dp = p->Dial_0;
            let e = model::DialPhase { active: (dp.active - 1) as nat, lat, ..dp };
            let x = WorkerView { connected: w.connected + 1, ..v.with_phase(PhaseView::Dial(e)) };
            lemma_redials_same(w, h, x, h);
            assert forall|i: usize| #[trigger] round_trips(x, h, i) == 0 by {
                assert(round_trips(w, h, i) == 0);
            }
            assert(timers_ok(x)) by {
                assert forall|i: int| 0 <= i < x.slots.len() && (
                #[trigger] x.slots[i]) is Some implies timer_ok(x, i) by {
                    assert(timer_ok(v, i));
                }
            }
            assert(dials(x, h, is_new()) == dials(w, h, is_new()) - 1);
        },
        Purpose::RedialRate => {
            count::positive(w.slots, k, conn_dials(is_rate()));
            let p = w.phase->RatePrep_0;
            let x = v.with_phase(
                PhaseView::RatePrep(p.counted_off()),
            );
            lemma_redials_same(w, h, x, h);
            assert forall|i: usize| #[trigger] round_trips(x, h, i) == 0 by {
                assert(round_trips(w, h, i) == 0);
            }
            assert(timers_ok(x)) by {
                assert forall|i: int| 0 <= i < x.slots.len() && (
                #[trigger] x.slots[i]) is Some implies timer_ok(x, i) by {
                    assert(timer_ok(v, i));
                }
            }
        },
    }
}

/// One more connection can come up.
pub proof fn lemma_room_to_come_up(w: WorkerView, idx: usize)
    requires
        holds(w, Hand::Nothing),
        is_occupied(w, idx as int),
        w.slots[idx as int]->Some_0.dial is Some,
    ensures
        w.ready < usize::MAX,
{
    let c = w.slots[idx as int]->Some_0;
    assert(conn_ok(idx as int, c));
    count::update(w.slots, idx as int, Some(c.come_up()), is_ready());
    count::at_most(w.slots.update(idx as int, Some(c.come_up())), is_ready());
}

// ---------------------------------------------------------------------------
// Requests.

/// The round trip that a request in hand is for.
pub open spec fn hand_of(idx: usize, kind: ReqKind) -> Hand {
    match kind {
        ReqKind::Echo { start } => Hand::Echo(idx),
        _ => Hand::Nothing,
    }
}

/// A connection that owes a flush is put on the list.
pub proof fn lemma_mark_dirty(w: WorkerView, h: Hand, k: int)
    requires
        holds(w, h),
    ensures
        holds(w.mark_dirty(k), h),
{
    let v = w.mark_dirty(k);
    match w.conn(k) {
        Some(c) => if !c.dirty {
            assert(timers_ok(v)) by {
                assert forall|i: int| 0 <= i < v.slots.len() && (
                #[trigger] v.slots[i]) is Some implies timer_ok(v, i) by {
                    assert(timer_ok(w, i));
                }
            }
            assert(dirty_ok(v)) by {
                assert forall|i: int| 0 <= i < v.slots.len() && (
                #[trigger] v.slots[i]) is Some && v.slots[i]->Some_0.dirty implies v.dirty.contains(
                    i as usize,
                ) by {
                    if i == k {
                        assert(v.dirty[w.dirty.len() as int] == i as usize);
                    } else {
                        assert(w.slots[i]->Some_0.dirty);
                        let a = choose|a: int| 0 <= a < w.dirty.len() && w.dirty[a] == i as usize;
                        assert(v.dirty[a] == i as usize);
                    }
                }
            }
            assert forall|i: usize| #[trigger] round_trips(v, h, i) == round_trips(w, h, i) by {}
            lemma_frame(w, h, v, h);
        },
        None => {},
    }
}

/// A change to one connection that leaves it alike, its timer and flush as they
/// were, and moves round trips between it, the reports and the hand.
pub proof fn lemma_conn_frame(w: WorkerView, h: Hand, v: WorkerView, g: Hand, k: int, d: ConnView)
    requires
        holds(w, h),
        is_occupied(w, k),
        v.slots == w.slots.update(k, Some(d)),
        alike(w.slots[k], Some(d)),
        d.scheduled == w.slots[k]->Some_0.scheduled,
        d.deadline == w.slots[k]->Some_0.deadline,
        d.dirty == w.slots[k]->Some_0.dirty,
        v.timers == w.timers,
        v.dirty == w.dirty,
        v.free == w.free,
        v.retries == w.retries,
        v.phase == w.phase,
        v.ready == w.ready,
        hand_dial(g) == hand_dial(h),
        forall|i: usize| #[trigger]
            count::of(v.events, echo_event_of(i)) + hand_echo(g, i) + (if i == k {
                conn_round_trips(Some(d))
            } else {
                0
            }) == count::of(w.events, echo_event_of(i)) + hand_echo(h, i) + (if i == k {
                conn_round_trips(w.slots[k])
            } else {
                0
            }),
    ensures
        holds(v, g),
{
    assert(timers_ok(v)) by {
        assert forall|i: int| 0 <= i < v.slots.len() && (#[trigger] v.slots[i]) is Some implies timer_ok(
            v,
            i,
        ) by {
            assert(timer_ok(w, i));
        }
    }
    assert(dirty_ok(v)) by {
        assert forall|i: int| 0 <= i < v.slots.len() && (
        #[trigger] v.slots[i]) is Some && v.slots[i]->Some_0.dirty implies v.dirty.contains(
            i as usize,
        ) by {
            assert(w.slots[i]->Some_0.dirty);
        }
    }
    assert forall|i: usize| #[trigger] round_trips(v, g, i) == round_trips(w, h, i) by {
        assert(count::of(v.events, echo_event_of(i)) + hand_echo(g, i) + (if i == k {
            conn_round_trips(Some(d))
        } else {
            0
        }) == count::of(w.events, echo_event_of(i)) + hand_echo(h, i) + (if i == k {
            conn_round_trips(w.slots[k])
        } else {
            0
        }));
    }
    lemma_frame(w, h, v, g);
}

pub proof fn lemma_send_failed(w: WorkerView, idx: usize, kind: ReqKind, err: Seq<char>, now: Nanos)
    requires
        holds(w, hand_of(idx, kind)),
    ensures
        holds(w.send_failed(idx, kind, err, now), Hand::Nothing),
{
    match kind {
        ReqKind::Dial => {
            lemma_dial_failed(w, idx, err, now);
        },
        ReqKind::Echo { start } => {
            lemma_echo_done(w, idx, Err(err), start, now);
        },
        ReqKind::Rate => {
            match w.phase {
                PhaseView::Rate(r) => {
                    lemma_rate_phase(w, r.skip());
                },
                _ => {},
            }
        },
    }
}

/// Another place of the tick, or other counts.
pub proof fn lemma_rate_phase(w: WorkerView, r: RatePhase)
    requires
        holds(w, Hand::Nothing),
        w.phase is Rate,
        rate_ok(w.with_phase(PhaseView::Rate(r))),
    ensures
        holds(w.with_phase(PhaseView::Rate(r)), Hand::Nothing),
{
    let h = Hand::Nothing;
    let v = w.with_phase(PhaseView::Rate(r));
    lemma_redials_same(w, h, v, h);
    assert forall|i: usize| #[trigger] round_trips(v, h, i) == 0 by {
        assert(round_trips(w, h, i) == 0);
    }
    assert(timers_ok(v)) by {
        assert forall|i: int| 0 <= i < v.slots.len() && (#[trigger] v.slots[i]) is Some implies timer_ok(
            v,
            i,
        ) by {
            assert(timer_ok(w, i));
        }
    }
}

pub proof fn lemma_try_send(
    w: WorkerView,
    idx: usize,
    kind: ReqKind,
    body: Seq<u8>,
    queued: bool,
    now: Nanos,
)
    requires
        holds(w, hand_of(idx, kind)),
        w.op is Nothing,
        is_occupied(w, idx as int),
        !(kind is Rate),
    ensures
        inv(w.try_send(idx, kind, body, queued, now)),
{
    let v = w.try_send(idx, kind, body, queued, now);
    let c = w.slots[idx as int]->Some_0;
    if c.h3 {
        assert(hand(v.op) == hand_of(idx, kind));
        lemma_op_changes(w, hand_of(idx, kind), v.op);
    } else {
        lemma_send_failed(w, idx, kind, "no HTTP/3 connection"@, now);
        assert(v.op == w.op);
    }
}

/// What the worker waits for plays no part in what holds.
pub proof fn lemma_op_changes(w: WorkerView, h: Hand, op: OpView)
    requires
        holds(w, h),
    ensures
        holds(w.with_op(op), h),
{
    let v = w.with_op(op);
    assert forall|i: usize| #[trigger] round_trips(v, h, i) == round_trips(w, h, i) by {}
    assert(timers_ok(v)) by {
        assert forall|i: int| 0 <= i < v.slots.len() && (#[trigger] v.slots[i]) is Some implies timer_ok(
            v,
            i,
        ) by {
            assert(timer_ok(w, i));
        }
    }
    lemma_frame(w, h, v, h);
}

pub proof fn lemma_send_request(
    w: WorkerView,
    idx: usize,
    kind: ReqKind,
    body: Seq<u8>,
    now: Nanos,
)
    requires
        holds(w, hand_of(idx, kind)),
        w.op is Nothing,
        is_occupied(w, idx as int),
        !(kind is Rate),
    ensures
        inv(w.send_request(idx, kind, body, now)),
{
    let c = w.slots[idx as int]->Some_0;
    if c.queued.len() > 0 {
        let q = QueuedView { kind, body };
        let d = c.with_queued(c.queued.push(q));
        let v = w.with_conn(idx as int, d);
        count::push(c.queued, q, echo_queued());
        lemma_conn_frame(w, hand_of(idx, kind), v, Hand::Nothing, idx as int, d);
    } else {
        lemma_try_send(w, idx, kind, body, false, now);
    }
}

/// A request that waited for room is taken in hand.
pub proof fn lemma_unqueued(w: WorkerView, idx: usize)
    requires
        holds(w, Hand::Nothing),
        is_occupied(w, idx as int),
        w.slots[idx as int]->Some_0.queued.len() > 0,
    ensures
        ({
            let c = w.slots[idx as int]->Some_0;
            &&& holds(
                w.with_conn(idx as int, c.with_queued(c.queued.drop_first())),
                hand_of(idx, c.queued[0].kind),
            )
            &&& !(c.queued[0].kind is Rate)
        }),
{
    let c = w.slots[idx as int]->Some_0;
    let q = c.queued[0];
    let d = c.with_queued(c.queued.drop_first());
    let v = w.with_conn(idx as int, d);
    assert(conn_ok(idx as int, c));
    assert forall|k: int| 0 <= k < d.queued.len() implies !((#[trigger] d.queued[k]).kind is Rate) by {
        assert(d.queued[k] == c.queued[k + 1]);
    }
    count::drop_first(c.queued, echo_queued());
    lemma_conn_frame(w, Hand::Nothing, v, hand_of(idx, q.kind), idx as int, d);
}

pub proof fn lemma_send_queued(w: WorkerView, idx: usize, now: Nanos)
    requires
        inv(w),
        w.op is Nothing,
    ensures
        inv(w.send_queued(idx, now)),
{
    match w.conn(idx as int) {
        Some(c) => if c.queued.len() > 0 {
            let q = c.queued[0];
            lemma_unqueued(w, idx);
            lemma_try_send(
                w.with_conn(idx as int, c.with_queued(c.queued.drop_first())),
                idx,
                q.kind,
                q.body,
                true,
                now,
            );
        },
        None => {},
    }
}

/// A request that goes out takes the place of no round trip.
proof fn lemma_sent_streams(w: WorkerView, stream: u64, off: usize)
    requires
        inv(w),
        w.op is Send,
        w.goes_out(SentView::Out { stream, off }),
    ensures
        ({
            let idx = w.op->idx;
            let kind = w.op->kind;
            let c = w.slots[idx as int]->Some_0;
            let d = c.with_sent(kind, w.op->body, stream, off);
            &&& conn::tracks_once(d.streams)
            &&& count::of(d.streams, echo_req()) == count::of(c.streams, echo_req()) + count::one(
                kind is Echo,
            )
        }),
{
    let idx = w.op->idx;
    let kind = w.op->kind;
    let h = hand(w.op);
    let c = w.slots[idx as int]->Some_0;
    let d = c.with_sent(kind, w.op->body, stream, off);
    let p = conn::place_of(c.streams, stream) as int;
    assert(conn_ok(idx as int, c));
    conn::lemma_place(c.streams, stream);
    if c.has(stream) {
        conn::lemma_noted(c.streams, d.streams[p]);
        count::update(c.streams, p, d.streams[p], echo_req());
        if echo_req()(c.streams[p]) {
            count::positive(c.streams, p, echo_req());
            assert(round_trips(w, h, idx) > 0);
            lemma_echo_counted(w, h, idx);
        }
    } else {
        conn::lemma_noted(c.streams, d.streams.last());
        count::push(c.streams, d.streams.last(), echo_req());
    }
}

pub proof fn lemma_transmitted(w: WorkerView, sent: SentView, now: Nanos)
    requires
        inv(w),
        w.op is Send,
        w.goes_out(sent),
    ensures
        inv(w.transmitted(sent, now)),
{
    let h = hand(w.op);
    let g = Hand::Nothing;
    match w.op {
        OpView::Send { idx, kind, body, queued } => {
            let k = idx as int;
            let x = w.with_op(OpView::Nothing);
            lemma_op_changes(w, h, OpView::Nothing);
            let c = w.slots[k]->Some_0;
            match sent {
                SentView::Out { stream, off } => {
                    let d = c.with_sent(kind, body, stream, off);
                    let v = x.with_conn(k, d);
                    lemma_sent_streams(w, stream, off);
                    if kind is Rate {
                        let r = w.phase->Rate_0;
                        lemma_rate_sent(x, idx, d);
                        lemma_mark_dirty(v.with_phase(PhaseView::Rate(r.one_sent())), g, k);
                    } else {
                        lemma_conn_frame(x, h, v, g, k, d);
                        lemma_mark_dirty(v, g, k);
                    }
                },
                SentView::Blocked => if kind is Rate {
                    lemma_send_failed(x, idx, kind, Seq::empty(), now);
                } else {
                    let q = QueuedView { kind, body };
                    if queued {
                        let d = c.with_queued(seq![q] + c.queued);
                        count::concat(seq![q], c.queued, echo_queued());
                        count::push(Seq::<QueuedView>::empty(), q, echo_queued());
                        assert(seq![q] =~= Seq::<QueuedView>::empty().push(q));
                        lemma_conn_frame(x, h, x.with_conn(k, d), g, k, d);
                    } else {
                        let d = c.with_queued(c.queued.push(q));
                        count::push(c.queued, q, echo_queued());
                        lemma_conn_frame(x, h, x.with_conn(k, d), g, k, d);
                    }
                },
                SentView::HeadersFailed(e) => {
                    lemma_mark_dirty(x, h, k);
                    lemma_send_failed(x.mark_dirty(k), idx, kind, "send request: "@ + e, now);
                },
                SentView::BodyFailed(e) => {
                    lemma_mark_dirty(x, h, k);
                    lemma_send_failed(x.mark_dirty(k), idx, kind, "send body: "@ + e, now);
                },
            }
            assert(w.transmitted(sent, now).op is Nothing);
        },
        _ => {},
    }
}

/// A request of a batch that is being sent can still be counted.
pub proof fn lemma_sending(w: WorkerView, idx: usize)
    requires
        rate_ok(w),
        sending_on(w, idx),
        is_occupied(w, idx as int),
    ensures
        w.slots[idx as int]->Some_0.in_flight < u64::MAX,
{
    let r = w.phase->Rate_0;
    match r.tick {
        Some(Tick::Sending { at, left }) => {
            assert(unanswered(w, r, at as int) == w.slots[idx as int]->Some_0.in_flight);
        },
        _ => {},
    }
}

/// One request of a batch went out.
pub proof fn lemma_rate_sent(w: WorkerView, idx: usize, d: ConnView)
    requires
        holds(w, Hand::Nothing),
        sending_on(w, idx),
        is_occupied(w, idx as int),
        d.state == w.slots[idx as int]->Some_0.state,
        d.dial == w.slots[idx as int]->Some_0.dial,
        d.attempt_deadline == w.slots[idx as int]->Some_0.attempt_deadline,
        d.scheduled == w.slots[idx as int]->Some_0.scheduled,
        d.deadline == w.slots[idx as int]->Some_0.deadline,
        d.dirty == w.slots[idx as int]->Some_0.dirty,
        d.queued == w.slots[idx as int]->Some_0.queued,
        d.in_flight == (w.slots[idx as int]->Some_0.in_flight + 1) as u64,
        conn::tracks_once(d.streams),
        conn_round_trips(Some(d)) == conn_round_trips(w.slots[idx as int]),
    ensures
        holds(
            w.with_conn(idx as int, d).with_phase(PhaseView::Rate(w.phase->Rate_0.one_sent())),
            Hand::Nothing,
        ),
{
    let h = Hand::Nothing;
    let k = idx as int;
    let c = w.slots[k]->Some_0;
    let r = w.phase->Rate_0;
    let v = w.with_conn(k, d).with_phase(PhaseView::Rate(r.one_sent()));
    assert(conn_ok(k, c));
    count::update(w.slots, k, Some(d), conn_dials(is_new()));
    count::update(w.slots, k, Some(d), conn_dials(is_rate()));
    count::update(w.slots, k, Some(d), is_ready());
    lemma_redials_same(w, h, v, h);
    assert forall|i: usize| #[trigger] round_trips(v, h, i) == 0 by {
        assert(round_trips(w, h, i) == 0);
    }
    assert(timers_ok(v)) by {
        assert forall|i: int| 0 <= i < v.slots.len() && (#[trigger] v.slots[i]) is Some implies timer_ok(
            v,
            i,
        ) by {
            assert(timer_ok(w, i));
        }
    }
    assert(dirty_ok(v)) by {
        assert forall|i: int| 0 <= i < v.slots.len() && (
        #[trigger] v.slots[i]) is Some && v.slots[i]->Some_0.dirty implies v.dirty.contains(
            i as usize,
        ) by {
            assert(w.slots[i]->Some_0.dirty);
        }
    }
    match r.tick {
        Some(Tick::Sending { at, left }) => {
            assert(unanswered(w, r, at as int) == c.in_flight);
            assert(c.in_flight + 1 <= limit(r.job.batch) <= u64::MAX);
            let s = r.one_sent();
            assert forall|a: int| 0 <= a < s.conns.len() implies (#[trigger] s.conns[a])
                < v.slots.len() && unanswered(v, s, a) <= limit(s.job.batch) by {
                assert(r.conns[a] < w.slots.len() && unanswered(w, r, a) <= limit(r.job.batch));
            }
        },
        _ => {},
    }
}

// ---------------------------------------------------------------------------
// Reports.

pub proof fn lemma_dial_ok(w: WorkerView, idx: usize, now: Nanos)
    requires
        inv(w),
        w.op is Nothing,
    ensures
        inv(w.dial_ok(idx, now)),
{
    match w.conn(idx as int) {
        Some(c) => match c.dial {
            Some(job) => {
                let lat = match w.phase {
                    PhaseView::Dial(d) => d.lat.ok(model::since(now, job.start)),
                    _ => crate::stats::LatenciesView::none(),
                };
                lemma_come_up(w, idx, lat);
                let v = WorkerView { ready: w.ready + 1, ..w.with_conn(idx as int, c.come_up()) };
                match job.purpose {
                    Purpose::RedialEcho { start } => {
                        assert(round_trips(v, Hand::Echo(idx), idx) > 0);
                        lemma_echo_counted(v, Hand::Echo(idx), idx);
                        let e = w.phase->Echo_0;
                        lemma_send_request(
                            v,
                            idx,
                            ReqKind::Echo { start },
                            e.job.payloads[0],
                            now,
                        );
                    },
                    _ => {},
                }
            },
            None => {},
        },
        None => {},
    }
}

pub proof fn lemma_rate_response(w: WorkerView, idx: usize, result: Result<usize, Seq<char>>, now: Nanos)
    requires
        inv(w),
        w.op is Nothing,
    ensures
        inv(w.response(idx, ReqKind::Rate, result, now)),
{
    let h = Hand::Nothing;
    let k = idx as int;
    let v = w.response(idx, ReqKind::Rate, result, now);
    match w.conn(k) {
        Some(c) => {
            let d = v.slots[k]->Some_0;
            assert(conn_ok(k, c));
            count::update(w.slots, k, Some(d), conn_dials(is_new()));
            count::update(w.slots, k, Some(d), conn_dials(is_rate()));
            count::update(w.slots, k, Some(d), is_ready());
            assert(v.slots == w.slots.update(k, Some(d)));
        },
        None => {
            assert(v.slots == w.slots);
        },
    }
    assert forall|i: usize| #[trigger] redials_into(v, h, i) == redials_into(w, h, i) by {}
    lemma_redials_same(w, h, v, h);
    assert forall|i: usize| #[trigger] round_trips(v, h, i) == round_trips(w, h, i) by {}
    assert(echo_ok(v, h)) by {
        match w.phase {
            PhaseView::Rate(r) => {
                assert forall|i: usize| #[trigger] round_trips(v, h, i) == 0 by {
                    assert(round_trips(w, h, i) == 0);
                }
            },
            _ => {
                lemma_echo_same(w, h, v, h);
            },
        }
    }
    assert(timers_ok(v)) by {
        assert forall|i: int| 0 <= i < v.slots.len() && (#[trigger] v.slots[i]) is Some implies timer_ok(
            v,
            i,
        ) by {
            assert(timer_ok(w, i));
        }
    }
    assert(dirty_ok(v)) by {
        assert forall|i: int| 0 <= i < v.slots.len() && (
        #[trigger] v.slots[i]) is Some && v.slots[i]->Some_0.dirty implies v.dirty.contains(
            i as usize,
        ) by {
            assert(w.slots[i]->Some_0.dirty);
        }
    }
    assert(rate_ok(v)) by {
        match w.phase {
            PhaseView::Rate(r) => {
                let t = v.phase->Rate_0;
                assert forall|a: int| 0 <= a < t.conns.len() implies (#[trigger] t.conns[a])
                    < v.slots.len() && unanswered(v, t, a) <= unanswered(w, r, a) by {
                    assert(r.conns[a] < w.slots.len());
                }
                assert forall|a: int| 0 <= a < t.conns.len() implies (#[trigger] t.conns[a])
                    < v.slots.len() && unanswered(v, t, a) <= limit(t.job.batch) by {
                    assert(r.conns[a] < w.slots.len() && unanswered(w, r, a) <= limit(
                        r.job.batch,
                    ));
                }
                match r.tick {
                    Some(Tick::Streams(at)) => {
                        assert(t.conns[at as int] < v.slots.len());
                    },
                    Some(Tick::Tokens(at)) => {
                        assert(t.conns[at as int] < v.slots.len());
                    },
                    Some(Tick::Sending { at, left }) => {
                        assert(t.conns[at as int] < v.slots.len());
                    },
                    _ => {},
                }
            },
            _ => {},
        }
    }
}

/// A connection that was up is closed.
pub proof fn lemma_broke(w: WorkerView, idx: usize)
    requires
        inv(w),
        w.op is Nothing,
        is_occupied(w, idx as int),
        w.slots[idx as int]->Some_0.state == State::Ready,
    ensures
        w.ready >= 1,
        inv(
            WorkerView {
                ready: (w.ready - 1) as nat,
                ..w.with_conn(
                    idx as int,
                    ConnView { state: State::Broken, ..w.slots[idx as int]->Some_0 },
                )
            },
        ),
{
    let h = Hand::Nothing;
    let k = idx as int;
    let c = w.slots[k]->Some_0;
    let d = ConnView { state: State::Broken, ..c };
    let v = WorkerView { ready: (w.ready - 1) as nat, ..w.with_conn(k, d) };
    assert(conn_ok(k, c));
    count::positive(w.slots, k, is_ready());
    count::update(w.slots, k, Some(d), conn_dials(is_new()));
    count::update(w.slots, k, Some(d), conn_dials(is_rate()));
    count::update(w.slots, k, Some(d), is_ready());
    assert forall|i: usize| #[trigger] redials_into(v, h, i) == redials_into(w, h, i) by {}
    lemma_redials_same(w, h, v, h);
    assert forall|i: usize| #[trigger] round_trips(v, h, i) == round_trips(w, h, i) by {}
    lemma_echo_same(w, h, v, h);
    assert(timers_ok(v)) by {
        assert forall|i: int| 0 <= i < v.slots.len() && (#[trigger] v.slots[i]) is Some implies timer_ok(
            v,
            i,
        ) by {
            assert(timer_ok(w, i));
        }
    }
    assert(dirty_ok(v)) by {
        assert forall|i: int| 0 <= i < v.slots.len() && (
        #[trigger] v.slots[i]) is Some && v.slots[i]->Some_0.dirty implies v.dirty.contains(
            i as usize,
        ) by {
            assert(w.slots[i]->Some_0.dirty);
        }
    }
    assert(rate_ok(v)) by {
        match w.phase {
            PhaseView::Rate(r) => {
                assert forall|a: int| 0 <= a < r.conns.len() implies (#[trigger] r.conns[a])
                    < v.slots.len() && unanswered(v, r, a) == unanswered(w, r, a) by {}
            },
            _ => {},
        }
    }
}

/// Reports change, and with them what is in hand.
pub proof fn lemma_events_change(w: WorkerView, h: Hand, events: Seq<(usize, EventView)>, g: Hand)
    requires
        holds(w, h),
        hand_dial(g) == hand_dial(h),
        forall|i: usize| #[trigger]
            count::of(events, echo_event_of(i)) + hand_echo(g, i) == count::of(
                w.events,
                echo_event_of(i),
            ) + hand_echo(h, i),
    ensures
        holds(WorkerView { events, ..w }, g),
{
    let v = WorkerView { events, ..w };
    assert forall|i: usize| #[trigger] round_trips(v, g, i) == round_trips(w, h, i) by {
        assert(count::of(events, echo_event_of(i)) + hand_echo(g, i) == count::of(
            w.events,
            echo_event_of(i),
        ) + hand_echo(h, i));
    }
    assert(timers_ok(v)) by {
        assert forall|i: int| 0 <= i < v.slots.len() && (#[trigger] v.slots[i]) is Some implies timer_ok(
            v,
            i,
        ) by {
            assert(timer_ok(w, i));
        }
    }
    lemma_frame(w, h, v, g);
}

/// What a report that is being acted on has in hand.
pub open spec fn reported(idx: usize, ev: EventView) -> Hand {
    if is_echo_event(ev) {
        Hand::Echo(idx)
    } else {
        Hand::Nothing
    }
}

/// The report that came first is taken in hand.
pub proof fn lemma_report_taken(w: WorkerView)
    requires
        holds(w, Hand::Nothing),
        w.events.len() > 0,
    ensures
        holds(
            WorkerView { events: w.events.drop_first(), ..w },
            reported(w.events[0].0, w.events[0].1),
        ),
{
    let v = WorkerView { events: w.events.drop_first(), ..w };
    let g = reported(w.events[0].0, w.events[0].1);
    assert forall|i: usize| #[trigger]
        count::of(v.events, echo_event_of(i)) + hand_echo(g, i) == count::of(
            w.events,
            echo_event_of(i),
        ) + hand_echo(Hand::Nothing, i) by {
        count::drop_first(w.events, echo_event_of(i));
    }
    lemma_events_change(w, Hand::Nothing, v.events, g);
}

pub proof fn lemma_next_event(w: WorkerView, now: Nanos)
    requires
        inv(w),
        w.op is Nothing,
    ensures
        inv(w.next_event(now)),
{
    if w.events.len() > 0 {
        let (idx, ev) = w.events[0];
        let v = WorkerView { events: w.events.drop_first(), ..w };
        lemma_report_taken(w);
        match ev {
            EventView::Established => {
                if is_occupied(v, idx as int) {
                    lemma_send_request(v, idx, ReqKind::Dial, Seq::empty(), now);
                }
            },
            EventView::Response { kind, result } => match kind {
                ReqKind::Dial => match result {
                    Ok(_) => {
                        lemma_dial_ok(v, idx, now);
                    },
                    Err(e) => {
                        lemma_dial_failed(v, idx, e, now);
                        assert(v.dial_failed(idx, e, now).op == v.op);
                    },
                },
                ReqKind::Echo { start } => {
                    lemma_echo_done(v, idx, result, start, now);
                },
                ReqKind::Rate => {
                    lemma_rate_response(v, idx, result, now);
                },
            },
            EventView::Closed(reason) => match v.conn(idx as int) {
                Some(c) => match c.state {
                    State::Connecting => {
                        lemma_dial_failed(v, idx, reason, now);
                        assert(v.dial_failed(idx, reason, now).op == v.op);
                    },
                    State::Ready => {
                        lemma_broke(v, idx);
                    },
                    State::Broken => {},
                },
                None => {},
            },
        }
    }
}

// ---------------------------------------------------------------------------
// Dialing.

/// A redial goes into a slot that there is.
pub proof fn lemma_redial_slot(w: WorkerView, job: DialJob, i: usize)
    requires
        redials_ok(w, Hand::Dial(job)),
        job.slot == Some(i),
    ensures
        is_held(w, i),
        is_down(w, i),
{
    assert(redials_into(w, Hand::Dial(job), i) > 0);
}

/// So does a dial into a slot that was freed.
pub proof fn lemma_free_slot(w: WorkerView)
    requires
        free_ok(w),
        w.free.len() > 0,
    ensures
        w.free.last() < w.slots.len(),
{
    assert(w.free[w.free.len() - 1] < w.slots.len());
}

pub proof fn lemma_dial_opened(w: WorkerView, now: Nanos)
    requires
        inv(w),
        w.op is Dial,
        w.slots.len() < usize::MAX,
    ensures
        inv(w.dial_opened(now)),
        is_occupied(w.dial_opened(now), w.slot_for(w.op->Dial_0) as int),
{
    let job = w.op->Dial_0;
    let h = Hand::Dial(job);
    let g = Hand::Nothing;
    let idx = w.slot_for(job);
    let k = idx as int;
    let v = w.dial_opened(now);
    let c = ConnView::fresh(
        DialJob { slot: Some(idx), ..job },
        now,
        (now + w.limits.dial_timeout) as Nanos,
    );
    assert(count::of(c.streams, echo_req()) == 0);
    assert(count::of(c.queued, echo_queued()) == 0);
    assert(job_ok(job));
    if job.slot is Some {
        assert(redials_into(w, h, idx) > 0);
        if w.slots[k] is Some {
            assert(conn_ok(k, w.slots[k]->Some_0));
        }
        assert(v.slots == w.slots.update(k, Some(c)));
        assert(conn_round_trips(w.conn(k)) == 0) by {
            if round_trips(w, h, idx) > 0 {
                lemma_echo_counted(w, h, idx);
            }
        }
    } else if w.free.len() > 0 {
        assert(w.slots[w.free[w.free.len() - 1] as int] is None);
        assert(v.slots == w.slots.update(k, Some(c)));
    } else {
        assert(v.slots == w.slots.push(Some(c)));
    }
    if job.slot is Some || w.free.len() > 0 {
        count::update(w.slots, k, Some(c), conn_dials(is_new()));
        count::update(w.slots, k, Some(c), conn_dials(is_rate()));
        count::update(w.slots, k, Some(c), is_ready());
    } else {
        count::push(w.slots, Some(c), conn_dials(is_new()));
        count::push(w.slots, Some(c), conn_dials(is_rate()));
        count::push(w.slots, Some(c), is_ready());
    }
    assert(free_ok(v)) by {
        assert forall|a: int| 0 <= a < v.free.len() implies (#[trigger] v.free[a]) < v.slots.len()
            && v.slots[v.free[a] as int] is None by {
            assert(v.free[a] == w.free[a]);
            assert(w.slots[w.free[a] as int] is None);
        }
    }
    assert(conns_ok(v)) by {
        assert forall|i: int| 0 <= i < v.slots.len() && (
        #[trigger] v.slots[i]) is Some implies conn_ok(i, v.slots[i]->Some_0) by {
            if i != k {
                assert(v.slots[i] == w.slots[i]);
            }
        }
    }
    assert forall|i: usize| #[trigger] redials_into(v, g, i) <= redials_into(w, h, i) && (
    redials_into(v, g, i) > 0 && i < w.slots.len() ==> i != idx || job.slot is None) by {
        if i == idx && job.slot is Some {
            assert(redials_into(w, h, i) == 1);
        }
    }
    assert(redials_ok(v, g)) by {
        assert forall|i: usize| #[trigger] redials_into(v, g, i) > 0 implies {
            &&& redials_into(v, g, i) == 1
            &&& is_held(v, i)
            &&& is_down(v, i)
        } by {
            assert(redials_into(w, h, i) > 0);
            if v.free.contains(i) {
                let a = choose|a: int| 0 <= a < v.free.len() && v.free[a] == i;
                assert(w.free[a] == i);
            }
            if i == idx && job.slot is None && w.free.len() > 0 {
                assert(w.free[w.free.len() - 1] == idx);
            }
        }
    }
    assert forall|i: usize| #[trigger] round_trips(v, g, i) == round_trips(w, h, i) by {}
    assert(echo_ok(v, g)) by {
        if job.slot is Some {
            lemma_echo_same(w, h, v, g);
        } else {
            assert(dials(w, h, is_new()) > 0);
            assert forall|i: usize| #[trigger] round_trips(v, g, i) == 0 by {
                assert(round_trips(w, h, i) == 0);
            }
        }
    }
    assert(timers_ok(v)) by {
        assert forall|i: int| 0 <= i < v.slots.len() && (#[trigger] v.slots[i]) is Some implies timer_ok(
            v,
            i,
        ) by {
            if i != k {
                assert(v.slots[i] == w.slots[i]);
                assert(timer_ok(w, i));
            }
        }
    }
    assert(dirty_ok(v)) by {
        assert forall|i: int| 0 <= i < v.slots.len() && (
        #[trigger] v.slots[i]) is Some && v.slots[i]->Some_0.dirty implies v.dirty.contains(
            i as usize,
        ) by {
            assert(w.slots[i]->Some_0.dirty);
        }
    }
    assert(rate_ok(v)) by {
        match w.phase {
            PhaseView::Rate(r) => {
                if job.purpose is RedialEcho {
                    assert(round_trips(w, h, idx) > 0);
                    lemma_echo_counted(w, h, idx);
                }
                assert(false);
            },
            _ => {},
        }
    }
}

pub proof fn lemma_dial_refused(w: WorkerView, err: Seq<char>, now: Nanos)
    requires
        inv(w),
        w.op is Dial,
    ensures
        inv(w.dial_refused(err, now)),
{
    let job = w.op->Dial_0;
    lemma_op_changes(w, Hand::Dial(job), OpView::Nothing);
    lemma_dial_failed_job(w.with_op(OpView::Nothing), job, err, now);
    assert(w.dial_refused(err, now).op is Nothing);
}

/// A slot may lose what it held when the dial into it is in hand.
pub proof fn lemma_slot_lost(w: WorkerView, job: DialJob)
    requires
        holds(w, Hand::Dial(job)),
        w.slots.len() < usize::MAX,
    ensures
        holds(w.slot_lost(job), Hand::Dial(job)),
{
    let h = Hand::Dial(job);
    let v = w.slot_lost(job);
    assert(job_ok(job));
    match job.slot {
        Some(idx) => {
            let k = idx as int;
            lemma_redial_slot(w, job, idx);
            if w.slots[k] is Some {
                assert(conn_ok(k, w.slots[k]->Some_0));
            }
            assert(conn_round_trips(w.conn(k)) == 0) by {
                if round_trips(w, h, idx) > 0 {
                    lemma_echo_counted(w, h, idx);
                }
            }
            count::update(w.slots, k, None, conn_dials(is_new()));
            count::update(w.slots, k, None, conn_dials(is_rate()));
            count::update(w.slots, k, None, is_ready());
        },
        None => {
            if w.free.len() == 0 {
                count::push(w.slots, None, conn_dials(is_new()));
                count::push(w.slots, None, conn_dials(is_rate()));
                count::push(w.slots, None, is_ready());
            } else {
                lemma_free_slot(w);
            }
        },
    }
    assert(free_ok(v)) by {
        assert forall|a: int| 0 <= a < v.free.len() implies (#[trigger] v.free[a]) < v.slots.len()
            && v.slots[v.free[a] as int] is None by {
            assert(v.free[a] == w.free[a]);
            assert(w.slots[w.free[a] as int] is None);
        }
    }
    assert forall|i: usize| #[trigger] redials_into(v, h, i) == redials_into(w, h, i) by {}
    assert(redials_ok(v, h)) by {
        assert forall|i: usize| #[trigger] redials_into(v, h, i) > 0 implies {
            &&& redials_into(v, h, i) == 1
            &&& is_held(v, i)
            &&& is_down(v, i)
        } by {
            assert(redials_into(w, h, i) > 0);
            if v.free.contains(i) {
                let a = choose|a: int| 0 <= a < v.free.len() && v.free[a] == i;
                assert(w.free[a] == i);
            }
        }
    }
    assert forall|i: usize| #[trigger] round_trips(v, h, i) == round_trips(w, h, i) by {}
    assert(echo_ok(v, h)) by {
        if job.slot is Some {
            lemma_echo_same(w, h, v, h);
        } else {
            assert(dials(w, h, is_new()) > 0);
            assert forall|i: usize| #[trigger] round_trips(v, h, i) == 0 by {
                assert(round_trips(w, h, i) == 0);
            }
        }
    }
    assert(timers_ok(v)) by {
        assert forall|i: int| 0 <= i < v.slots.len() && (#[trigger] v.slots[i]) is Some implies timer_ok(
            v,
            i,
        ) by {
            assert(v.slots[i] == w.slots[i]);
            assert(timer_ok(w, i));
        }
    }
    assert(dirty_ok(v)) by {
        assert forall|i: int| 0 <= i < v.slots.len() && (
        #[trigger] v.slots[i]) is Some && v.slots[i]->Some_0.dirty implies v.dirty.contains(
            i as usize,
        ) by {
            assert(w.slots[i]->Some_0.dirty);
        }
    }
    assert(conns_ok(v)) by {
        assert forall|i: int| 0 <= i < v.slots.len() && (
        #[trigger] v.slots[i]) is Some implies conn_ok(i, v.slots[i]->Some_0) by {
            assert(v.slots[i] == w.slots[i]);
        }
    }
    assert(rate_ok(v)) by {
        match w.phase {
            PhaseView::Rate(r) => {
                if job.purpose is RedialEcho {
                    assert(round_trips(w, h, job.slot->Some_0) > 0);
                    lemma_echo_counted(w, h, job.slot->Some_0);
                }
                assert(false);
            },
            _ => {},
        }
    }
}

pub proof fn lemma_dial_unregistered(w: WorkerView, err: Seq<char>, now: Nanos)
    requires
        inv(w),
        w.op is Dial,
        w.slots.len() < usize::MAX,
    ensures
        inv(w.dial_unregistered(err, now)),
{
    let job = w.op->Dial_0;
    lemma_op_changes(w, Hand::Dial(job), OpView::Nothing);
    let x = w.with_op(OpView::Nothing);
    lemma_slot_lost(x, job);
    lemma_dial_failed_job(x.slot_lost(job), job, err, now);
    assert(w.dial_unregistered(err, now).op is Nothing);
}

pub proof fn lemma_fire_retry(w: WorkerView, now: Nanos)
    requires
        inv(w),
        w.op is Nothing,
    ensures
        inv(w.fire_retry(now)),
{
    if w.retry_due(now) {
        let job = w.retries[0].1;
        let h = Hand::Nothing;
        let g = Hand::Dial(job);
        let v = w.fire_retry(now);
        count::drop_first(w.retries, retry_is(is_new()));
        count::drop_first(w.retries, retry_is(is_rate()));
        assert forall|i: usize| #[trigger] redials_into(v, g, i) == redials_into(w, h, i) by {
            count::drop_first(w.retries, retry_is(is_into(i)));
        }
        lemma_redials_same(w, h, v, g);
        assert forall|i: usize| #[trigger] round_trips(v, g, i) == round_trips(w, h, i) by {
            count::drop_first(w.retries, retry_is(is_echo_into(i)));
        }
        lemma_echo_same(w, h, v, g);
        assert(jobs_ok(v, g)) by {
            assert forall|a: int| 0 <= a < v.retries.len() implies job_ok((#[trigger] v.retries[a]).1) by {
                assert(v.retries[a] == w.retries[a + 1]);
            }
        }
        assert(timers_ok(v)) by {
            assert forall|i: int| 0 <= i < v.slots.len() && (
            #[trigger] v.slots[i]) is Some implies timer_ok(v, i) by {
                assert(timer_ok(w, i));
            }
        }
        assert(rate_ok(v)) by {
            match w.phase {
                PhaseView::Rate(r) => {
                    assert forall|a: int| 0 <= a < r.conns.len() implies (#[trigger] r.conns[a])
                        < v.slots.len() && unanswered(v, r, a) == unanswered(w, r, a) by {}
                },
                _ => {},
            }
        }
    }
}

// ---------------------------------------------------------------------------
// Looking after a connection.

pub open spec fn echo_response() -> spec_fn(EventView) -> bool {
    |e: EventView| is_echo_event(e)
}

proof fn lemma_tagged(idx: usize, evs: Seq<EventView>, i: usize)
    ensures
        count::of(conn::tagged(idx, evs), echo_event_of(i)) == (if i == idx {
            count::of(evs, echo_response())
        } else {
            0
        }),
{
    let tagged = conn::tagged(idx, evs);
    if i == idx {
        count::same(tagged, evs, echo_event_of(i), echo_response());
    } else {
        count::none(tagged, echo_event_of(i));
    }
}

proof fn lemma_failures(c: ConnView, reason: Seq<char>)
    ensures
        count::of(c.failures(reason), echo_response()) == count::of(c.queued, echo_queued())
            + count::of(c.streams, echo_req()),
{
    let e = conn::closed_error(reason);
    let a = c.queued.map_values(|q: QueuedView| conn::failed_response(q.kind, e));
    let b = c.streams.map_values(|r: ReqView| conn::failed_response(r.kind, e));
    assert(c.failures(reason) =~= a + b);
    count::concat(a, b, echo_response());
    count::same(a, c.queued, echo_response(), echo_queued());
    count::same(b, c.streams, echo_response(), echo_req());
}

/// A connection is closed: its requests become reports.
proof fn lemma_close_conn(w: WorkerView, idx: usize, c: ConnView, reason: Seq<char>)
    requires
        holds(w, Hand::Nothing),
        is_occupied(w, idx as int),
        alike(w.slots[idx as int], Some(c)),
        conn_round_trips(Some(c)) == conn_round_trips(w.slots[idx as int]),
        c.scheduled == w.slots[idx as int]->Some_0.scheduled,
        c.deadline == w.slots[idx as int]->Some_0.deadline,
        c.dirty == w.slots[idx as int]->Some_0.dirty,
    ensures
        holds(w.close_conn(idx, c, reason), Hand::Nothing),
{
    let h = Hand::Nothing;
    let k = idx as int;
    let d = c.cleared();
    let evs = c.failures(reason).push(EventView::Closed(reason));
    let v = w.close_conn(idx, c, reason);
    lemma_failures(c, reason);
    count::push(c.failures(reason), EventView::Closed(reason), echo_response());
    assert forall|i: usize| #[trigger]
        count::of(v.events, echo_event_of(i)) + hand_echo(h, i) + (if i == k {
            conn_round_trips(Some(d))
        } else {
            0
        }) == count::of(w.events, echo_event_of(i)) + hand_echo(h, i) + (if i == k {
            conn_round_trips(w.slots[k])
        } else {
            0
        }) by {
        let tagged = conn::tagged(idx, evs);
        count::concat(w.events, tagged, echo_event_of(i));
        lemma_tagged(idx, evs, i);
    }
    lemma_conn_frame(w, h, v, h, k, d);
}

pub proof fn lemma_begin(w: WorkerView, idx: usize, closed: Option<Seq<char>>, established: bool)
    requires
        inv(w),
        w.op is Nothing,
    ensures
        inv(w.begin(idx, closed, established).0),
{
    let h = Hand::Nothing;
    let k = idx as int;
    match w.conn(k) {
        None => {},
        Some(c) => match c.socket_error {
            Some(err) => {
                let d = ConnView { socket_error: None, ..c };
                lemma_close_conn(w, idx, d, err);
                lemma_mark_dirty(w.close_conn(idx, d, err), h, k);
            },
            None => match closed {
                Some(reason) => {
                    lemma_close_conn(w, idx, c, reason);
                    lemma_mark_dirty(w.close_conn(idx, c, reason), h, k);
                },
                None => {
                    lemma_mark_dirty(w, h, k);
                },
            },
        },
    }
}

/// One more report that is none of a round trip.
proof fn lemma_other_report(w: WorkerView, h: Hand, idx: usize, e: EventView)
    requires
        holds(w, h),
        !is_echo_event(e),
    ensures
        holds(w.with_events(idx, seq![e]), h),
{
    let v = w.with_events(idx, seq![e]);
    let tagged = conn::tagged(idx, seq![e]);
    assert forall|i: usize| #[trigger]
        count::of(v.events, echo_event_of(i)) + hand_echo(h, i) == count::of(
            w.events,
            echo_event_of(i),
        ) + hand_echo(h, i) by {
        count::concat(w.events, tagged, echo_event_of(i));
        count::none(tagged, echo_event_of(i));
    }
    lemma_events_change(w, h, v.events, h);
}

pub proof fn lemma_set_up(w: WorkerView, idx: usize, failed: Option<Seq<char>>)
    requires
        inv(w),
        w.op is Nothing,
    ensures
        inv(w.set_up(idx, failed)),
{
    let h = Hand::Nothing;
    let k = idx as int;
    match w.conn(k) {
        None => {},
        Some(c) => match failed {
            None => {
                let d = ConnView { h3: true, ..c };
                let v = w.with_conn(k, d);
                lemma_conn_frame(w, h, v, h, k, d);
                if c.state == State::Connecting {
                    lemma_other_report(v, h, idx, EventView::Established);
                }
            },
            Some(e) => {
                lemma_other_report(w, h, idx, EventView::Closed("HTTP/3 setup: "@ + e));
            },
        },
    }
}

pub proof fn lemma_polled(w: WorkerView, idx: usize, ev: H3View)
    requires
        inv(w),
        w.op is Nothing,
    ensures
        inv(w.polled(idx, ev)),
{
    let h = Hand::Nothing;
    let k = idx as int;
    match w.conn(k) {
        None => {},
        Some(c) => {
            let (d, said) = conn::h3_step(c, ev, w.limits.check);
            let v = w.polled(idx, ev);
            assert(conn_ok(k, c));
            match ev {
                H3View::Headers { stream, list } => {
                    conn::lemma_place(c.streams, stream);
                    if c.has(stream) {
                        let p = conn::place_of(c.streams, stream) as int;
                        count::update(c.streams, p, d.streams[p], echo_req());
                    }
                },
                H3View::Data { stream, bytes } => {
                    conn::lemma_place(c.streams, stream);
                    if c.has(stream) {
                        let p = conn::place_of(c.streams, stream) as int;
                        count::update(c.streams, p, d.streams[p], echo_req());
                    }
                },
                H3View::Finished { stream } => {
                    conn::lemma_place(c.streams, stream);
                    if c.has(stream) {
                        let p = conn::place_of(c.streams, stream) as int;
                        count::remove(c.streams, p, echo_req());
                        conn::lemma_forgotten(c.streams, stream);
                    }
                },
                H3View::Reset { stream, code } => {
                    conn::lemma_place(c.streams, stream);
                    if c.has(stream) {
                        let p = conn::place_of(c.streams, stream) as int;
                        count::remove(c.streams, p, echo_req());
                        conn::lemma_forgotten(c.streams, stream);
                    }
                },
                _ => {},
            }
            assert forall|i: usize| #[trigger]
                count::of(v.events, echo_event_of(i)) + hand_echo(h, i) + (if i == k {
                    conn_round_trips(Some(d))
                } else {
                    0
                }) == count::of(w.events, echo_event_of(i)) + hand_echo(h, i) + (if i == k {
                    conn_round_trips(w.slots[k])
                } else {
                    0
                }) by {
                match said {
                    Some(e) => {
                        let tagged = conn::tagged(idx, seq![e]);
                        count::concat(w.events, tagged, echo_event_of(i));
                        lemma_tagged(idx, seq![e], i);
                        assert(seq![e] =~= Seq::<EventView>::empty().push(e));
                        count::push(Seq::<EventView>::empty(), e, echo_response());
                    },
                    None => {},
                }
            }
            lemma_conn_frame(w, h, v, h, k, d);
        },
    }
}

pub proof fn lemma_body_sent(w: WorkerView, idx: usize, i: int, sent: BodySent)
    requires
        inv(w),
        w.op is Nothing,
    ensures
        inv(w.body_sent(idx, i, sent)),
{
    let h = Hand::Nothing;
    let k = idx as int;
    match w.conn(k) {
        None => {},
        Some(c) => {
            let d = conn::body_step(c, i, sent);
            lemma_conn_frame(w, h, w.with_conn(k, d), h, k, d);
        },
    }
}

pub proof fn lemma_read_out(w: WorkerView, idx: usize, closed: Option<Seq<char>>)
    requires
        inv(w),
        w.op is Nothing,
    ensures
        inv(w.read_out(idx, closed)),
{
    match w.conn(idx as int) {
        None => {},
        Some(c) => match closed {
            Some(reason) => {
                lemma_close_conn(w, idx, c, reason);
            },
            None => {},
        },
    }
}

// ---------------------------------------------------------------------------
// The socket and the timers.

pub proof fn lemma_received(
    w: WorkerView,
    idx: usize,
    got: bool,
    failed: Option<Seq<char>>,
    now: Nanos,
)
    requires
        inv(w),
        w.op is Nothing,
    ensures
        inv(w.received(idx, got, failed, now)),
{
    let h = Hand::Nothing;
    match w.conn(idx as int) {
        None => {},
        Some(c) => {
            let v = w.received(idx, got, failed, now);
            let d = v.slots[idx as int]->Some_0;
            lemma_conn_frame(w, h, v, h, idx as int, d);
        },
    }
}

/// A connection gets its timer, and may be changed in what does not count.
proof fn lemma_scheduled(w: WorkerView, idx: usize, c: ConnView, timeout: Option<Nanos>)
    requires
        holds(w, Hand::Nothing),
        is_occupied(w, idx as int),
        alike(w.slots[idx as int], Some(c)),
        conn_round_trips(Some(c)) == conn_round_trips(w.slots[idx as int]),
        c.scheduled matches Some(s) ==> w.timers.count((s, idx)) > 0,
        c.dirty ==> w.slots[idx as int]->Some_0.dirty,
    ensures
        holds(w.with_conn(idx as int, c).schedule(idx, timeout), Hand::Nothing),
{
    broadcast use vstd::multiset::group_multiset_axioms;

    let h = Hand::Nothing;
    let k = idx as int;
    let x = w.with_conn(k, c);
    let v = x.schedule(idx, timeout);
    let d = v.slots[k]->Some_0;
    assert(v.slots =~= w.slots.update(k, Some(d)));
    assert(timers_ok(v)) by {
        assert forall|i: int| 0 <= i < v.slots.len() && (#[trigger] v.slots[i]) is Some implies timer_ok(
            v,
            i,
        ) by {
            if i != k {
                assert(v.slots[i] == w.slots[i]);
                assert(timer_ok(w, i));
            }
        }
    }
    assert(dirty_ok(v)) by {
        assert forall|i: int| 0 <= i < v.slots.len() && (
        #[trigger] v.slots[i]) is Some && v.slots[i]->Some_0.dirty implies v.dirty.contains(
            i as usize,
        ) by {
            assert(w.slots[i]->Some_0.dirty);
        }
    }
    assert forall|i: usize| #[trigger] round_trips(v, h, i) == round_trips(w, h, i) by {}
    lemma_frame(w, h, v, h);
}

pub proof fn lemma_flushed(
    w: WorkerView,
    idx: usize,
    sent: bool,
    end: FlushView,
    timeout: Option<Nanos>,
    now: Nanos,
)
    requires
        inv(w),
        w.op is Nothing,
    ensures
        inv(w.flushed(idx, sent, end, timeout, now)),
{
    let h = Hand::Nothing;
    match w.conn(idx as int) {
        None => {},
        Some(c) => {
            let d = ConnView {
                dirty: false,
                last_active: if sent {
                    now
                } else {
                    c.last_active
                },
                socket_error: match end {
                    FlushView::SocketFailed(e) => Some("send: "@ + e),
                    FlushView::TransportFailed(e) => Some("quiche send: "@ + e),
                    _ => c.socket_error,
                },
                ..c
            };
            assert(timer_ok(w, idx as int));
            lemma_scheduled(w, idx, d, timeout);
            let x = w.with_conn(idx as int, d).schedule(idx, timeout);
            let v = w.flushed(idx, sent, end, timeout, now);
            assert(v == WorkerView { dropped: v.dropped, ..x });
            lemma_dropped(x, v.dropped);
        },
    }
}

/// What was noted plays no part in what holds.
pub proof fn lemma_notes(w: WorkerView, notes: Seq<Seq<char>>)
    requires
        inv(w),
    ensures
        inv(WorkerView { notes, ..w }),
{
    let h = hand(w.op);
    let v = WorkerView { notes, ..w };
    assert forall|i: usize| #[trigger] round_trips(v, h, i) == round_trips(w, h, i) by {}
    assert(timers_ok(v)) by {
        assert forall|i: int| 0 <= i < v.slots.len() && (#[trigger] v.slots[i]) is Some implies timer_ok(
            v,
            i,
        ) by {
            assert(timer_ok(w, i));
        }
    }
    lemma_frame(w, h, v, h);
}

proof fn lemma_dropped(w: WorkerView, dropped: nat)
    requires
        holds(w, Hand::Nothing),
    ensures
        holds(WorkerView { dropped, ..w }, Hand::Nothing),
{
    let h = Hand::Nothing;
    let v = WorkerView { dropped, ..w };
    assert forall|i: usize| #[trigger] round_trips(v, h, i) == round_trips(w, h, i) by {}
    assert(timers_ok(v)) by {
        assert forall|i: int| 0 <= i < v.slots.len() && (#[trigger] v.slots[i]) is Some implies timer_ok(
            v,
            i,
        ) by {
            assert(timer_ok(w, i));
        }
    }
    lemma_frame(w, h, v, h);
}

proof fn lemma_fresh_timers(
    timers: vstd::multiset::Multiset<crate::timers::Timer>,
    slots: Seq<Option<ConnView>>,
    now: Nanos,
)
    ensures
        forall|t: crate::timers::Timer|
            model::current(slots, t) ==> #[trigger] model::fresh_timers(timers, slots, now).count(t)
                == timers.count(t),
    decreases timers.len(),
{
    broadcast use vstd::multiset::group_multiset_axioms;

    match crate::timers::first(timers) {
        Some(t) => if timers.count(t) > 0 && t.0 <= now && !model::current(slots, t) {
            let rest = timers.remove(t);
            lemma_fresh_timers(rest, slots, now);
            assert(model::fresh_timers(timers, slots, now) == model::fresh_timers(rest, slots, now));
            assert forall|x: crate::timers::Timer| model::current(slots, x) implies #[trigger] model::fresh_timers(
                timers,
                slots,
                now,
            ).count(x) == timers.count(x) by {
                assert(x != t);
                assert(rest.count(x) == timers.count(x));
                assert(model::fresh_timers(rest, slots, now).count(x) == rest.count(x));
            }
        },
        None => {},
    }
}

pub proof fn lemma_drop_stale(w: WorkerView, now: Nanos)
    requires
        inv(w),
    ensures
        inv(w.drop_stale(now)),
{
    let h = hand(w.op);
    let v = w.drop_stale(now);
    lemma_fresh_timers(w.timers, w.slots, now);
    assert forall|i: usize| #[trigger] round_trips(v, h, i) == round_trips(w, h, i) by {}
    assert(timers_ok(v)) by {
        assert forall|i: int| 0 <= i < v.slots.len() && (#[trigger] v.slots[i]) is Some implies timer_ok(
            v,
            i,
        ) by {
            assert(timer_ok(w, i));
            let c = w.slots[i]->Some_0;
            if c.scheduled is Some {
                assert(model::current(w.slots, (c.scheduled->Some_0, i as usize)));
            }
        }
    }
    lemma_frame(w, h, v, h);
}

/// The worker without a timer that is about to be acted on.
pub open spec fn timer_taken(w: WorkerView, t: crate::timers::Timer) -> WorkerView {
    let v = WorkerView { timers: w.timers.remove(t), ..w };
    match w.conn(t.1 as int) {
        Some(c) => v.with_conn(t.1 as int, ConnView { scheduled: None, ..c }),
        None => v,
    }
}

/// Taking the current timer of a slot leaves those of the others, and changes
/// nothing else.
proof fn lemma_timer_taken(w: WorkerView, h: Hand, v: WorkerView, t: crate::timers::Timer)
    requires
        holds(w, h),
        v == timer_taken(w, t),
        w.conn(t.1 as int) matches Some(c) ==> c.state == State::Broken || c.dirty,
    ensures
        holds(v, h),
{
    broadcast use vstd::multiset::group_multiset_axioms;

    let k = t.1 as int;
    assert(timers_ok(v)) by {
        assert forall|i: int| 0 <= i < v.slots.len() && (#[trigger] v.slots[i]) is Some implies timer_ok(
            v,
            i,
        ) by {
            assert(timer_ok(w, i));
            if i != k {
                assert(v.slots[i] == w.slots[i]);
                let c = w.slots[i]->Some_0;
                if c.scheduled is Some {
                    assert((c.scheduled->Some_0, i as usize) != t);
                }
            }
        }
    }
    assert(dirty_ok(v)) by {
        assert forall|i: int| 0 <= i < v.slots.len() && (
        #[trigger] v.slots[i]) is Some && v.slots[i]->Some_0.dirty implies v.dirty.contains(
            i as usize,
        ) by {
            assert(w.slots[i]->Some_0.dirty);
        }
    }
    assert forall|i: usize| #[trigger] round_trips(v, h, i) == round_trips(w, h, i) by {}
    lemma_frame(w, h, v, h);
}

/// Giving a dial up and taking its timer can be done in either order.
pub proof fn lemma_taken_then_failed(w: WorkerView, t: crate::timers::Timer, err: Seq<char>, now: Nanos)
    requires
        is_occupied(w, t.1 as int),
        w.slots[t.1 as int]->Some_0.dial is Some,
    ensures
        timer_taken(w, t).dial_failed(t.1, err, now) == timer_taken(
            w.dial_failed(t.1, err, now),
            t,
        ),
{
    let idx = t.1;
    let k = idx as int;
    let c = w.slots[k]->Some_0;
    let job = c.dial->Some_0;
    let x = timer_taken(w, t);
    let d = ConnView { scheduled: None, ..c };
    assert(x.slots[k] == Some(d));
    if job.purpose == Purpose::New {
        let a = WorkerView { slots: x.slots.update(k, None), free: x.free.push(idx), ..x };
        let b = WorkerView { slots: w.slots.update(k, None), free: w.free.push(idx), ..w };
        assert(a.slots =~= b.slots);
        assert(a == timer_taken(b, t));
        let j = DialJob { slot: None, ..job };
        assert(a.dial_failed_job(j, err, now) == timer_taken(b.dial_failed_job(j, err, now), t));
    } else {
        let a = x.with_conn(k, d.given_up());
        let b = w.with_conn(k, c.given_up());
        assert(a.slots =~= timer_taken(b, t).slots);
        assert(a == timer_taken(b, t));
        assert(a.dial_failed_job(job, err, now) == timer_taken(
            b.dial_failed_job(job, err, now),
            t,
        ));
    }
}

pub proof fn lemma_fire_timer(w: WorkerView, now: Nanos, timeout: Option<Nanos>, established: bool)
    requires
        inv(w),
        w.op is Nothing,
        w.timer_due(now) is Some,
    ensures
        inv(w.fire_timer(now, timeout, established).0),
{
    broadcast use vstd::multiset::group_multiset_axioms;

    let h = Hand::Nothing;
    let t = crate::timers::first(w.timers)->Some_0;
    let idx = t.1;
    let k = idx as int;
    let c = w.slots[k]->Some_0;
    let x = timer_taken(w, t);
    let (v, fired) = w.fire_timer(now, timeout, established);
    assert(conn_ok(k, c));
    assert(x == WorkerView {
        timers: w.timers.remove(t),
        ..w.with_conn(k, ConnView { scheduled: None, ..c })
    });
    if !(c.deadline matches Some(d) && d <= now) {
        let d = v.slots[k]->Some_0;
        assert(v.slots =~= w.slots.update(k, Some(d)));
        assert(timers_ok(v)) by {
            assert forall|i: int| 0 <= i < v.slots.len() && (
            #[trigger] v.slots[i]) is Some implies timer_ok(v, i) by {
                if i != k {
                    assert(v.slots[i] == w.slots[i]);
                    assert(timer_ok(w, i));
                    let o = w.slots[i]->Some_0;
                    if o.scheduled is Some {
                        assert((o.scheduled->Some_0, i as usize) != t);
                    }
                }
            }
        }
        assert(dirty_ok(v)) by {
            assert forall|i: int| 0 <= i < v.slots.len() && (
            #[trigger] v.slots[i]) is Some && v.slots[i]->Some_0.dirty implies v.dirty.contains(
                i as usize,
            ) by {
                assert(w.slots[i]->Some_0.dirty);
            }
        }
        assert forall|i: usize| #[trigger] round_trips(v, h, i) == round_trips(w, h, i) by {}
        lemma_frame(w, h, v, h);
    } else if c.state == State::Connecting && (c.attempt_deadline matches Some(a) && a <= now) {
        let err = if established {
            "timeout waiting for the first response"@
        } else {
            "handshake timeout"@
        };
        lemma_taken_then_failed(w, t, err, now);
        let y = w.dial_failed(idx, err, now);
        lemma_dial_failed(w, idx, err, now);
        assert(y.conn(k) matches Some(e) ==> e.state == State::Broken);
        lemma_timer_taken(y, h, v, t);
        assert(v.op is Nothing);
    } else {
        let y = w.mark_dirty(k);
        lemma_mark_dirty(w, h, k);
        assert(v.slots =~= timer_taken(y, t).slots);
        assert(v == timer_taken(y, t));
        lemma_timer_taken(y, h, v, t);
    }
}

pub proof fn lemma_keepalive(w: WorkerView, now: Nanos)
    requires
        inv(w),
        w.op is Nothing,
    ensures
        inv(w.keepalive(now)),
{
    let h = Hand::Nothing;
    let v = w.keepalive(now);
    if now >= w.next_keepalive {
        let f = |i: int| w.quiet(i, now) && !w.slots[i]->Some_0.dirty;
        lemma_indices(w.slots.len(), f);
        let more = model::indices(w.slots.len(), f);
        assert(timers_ok(v)) by {
            assert forall|i: int| 0 <= i < v.slots.len() && (
            #[trigger] v.slots[i]) is Some implies timer_ok(v, i) by {
                assert(w.slots[i] is Some);
                assert(timer_ok(w, i));
            }
        }
        assert(dirty_ok(v)) by {
            assert forall|i: int| 0 <= i < v.slots.len() && (
            #[trigger] v.slots[i]) is Some && v.slots[i]->Some_0.dirty implies v.dirty.contains(
                i as usize,
            ) by {
                let n = w.dirty.len();
                if w.slots[i]->Some_0.dirty {
                    let a = choose|a: int| 0 <= a < n && w.dirty[a] == i as usize;
                    assert(v.dirty[a] == i as usize);
                } else {
                    assert(more.contains(i as usize));
                    let a = choose|a: int| 0 <= a < more.len() && more[a] == i as usize;
                    assert(v.dirty[n + a] == i as usize);
                }
            }
        }
        assert forall|i: usize| #[trigger] round_trips(v, h, i) == round_trips(w, h, i) by {
            if i < w.slots.len() {
                assert(conn_round_trips(v.slots[i as int]) == conn_round_trips(w.slots[i as int]));
            }
        }
        lemma_frame(w, h, v, h);
    }
}

proof fn lemma_trimmed(w: WorkerView, dirty: Seq<usize>)
    ensures
        forall|i: usize|
            w.owes_flush(i) && dirty.contains(i) ==> #[trigger] model::trimmed(w, dirty).contains(i),
    decreases dirty.len(),
{
    if dirty.len() > 0 && !w.owes_flush(dirty.last()) {
        lemma_trimmed(w, dirty.drop_last());
        assert forall|i: usize| w.owes_flush(i) && dirty.contains(
            i,
        ) implies #[trigger] model::trimmed(w, dirty).contains(i) by {
            let a = choose|a: int| 0 <= a < dirty.len() && dirty[a] == i;
            assert(dirty.drop_last()[a] == i);
            assert(dirty.drop_last().contains(i));
            assert(model::trimmed(w, dirty.drop_last()).contains(i));
        }
    }
}

pub proof fn lemma_trim_dirty(w: WorkerView)
    requires
        inv(w),
    ensures
        inv(w.trim_dirty()),
{
    let h = hand(w.op);
    let v = w.trim_dirty();
    lemma_trimmed(w, w.dirty);
    assert forall|i: usize| #[trigger] round_trips(v, h, i) == round_trips(w, h, i) by {}
    assert(timers_ok(v)) by {
        assert forall|i: int| 0 <= i < v.slots.len() && (#[trigger] v.slots[i]) is Some implies timer_ok(
            v,
            i,
        ) by {
            assert(timer_ok(w, i));
        }
    }
    assert(dirty_ok(v)) by {
        assert forall|i: int| 0 <= i < v.slots.len() && (
        #[trigger] v.slots[i]) is Some && v.slots[i]->Some_0.dirty implies v.dirty.contains(
            i as usize,
        ) by {
            assert(w.slots[i]->Some_0.dirty);
            assert(w.owes_flush(i as usize));
            assert(w.dirty.contains(i as usize));
            assert(model::trimmed(w, w.dirty).contains(i as usize));
        }
    }
    lemma_frame(w, h, v, h);
}

// ---------------------------------------------------------------------------
// The benchmarks.

/// A worker without connections keeps to it.
pub proof fn lemma_new(w: WorkerView)
    requires
        w.slots.len() == 0,
        w.free.len() == 0,
        w.retries.len() == 0,
        w.events.len() == 0,
        w.op is Nothing,
        w.phase is Idle,
        w.ready == 0,
    ensures
        inv(w),
{
    assert forall|i: usize| #[trigger] redials_into(w, Hand::Nothing, i) == 0 by {}
    assert forall|i: usize| #[trigger] round_trips(w, Hand::Nothing, i) == 0 by {}
}

/// A worker that runs nothing has no dials left over.
proof fn lemma_no_retries(w: WorkerView)
    requires
        holds(w, Hand::Nothing),
        w.phase is Idle,
    ensures
        w.retries.len() == 0,
{
    if w.retries.len() > 0 {
        let job = w.retries[0].1;
        assert(job_ok(job));
        if job.purpose is New {
            count::positive(w.retries, 0, retry_is(is_new()));
        } else if job.purpose is RedialRate {
            count::positive(w.retries, 0, retry_is(is_rate()));
        } else {
            let i = job.slot->Some_0;
            count::positive(w.retries, 0, retry_is(is_echo_into(i)));
            assert(round_trips(w, Hand::Nothing, i) == 0);
        }
    }
}

/// Another phase, with what it counts in order.
proof fn lemma_other_phase(w: WorkerView, h: Hand, v: WorkerView, g: Hand)
    requires
        holds(w, h),
        v == w.with_phase(v.phase).with_op(v.op),
        jobs_ok(v, g),
        redials_ok(v, g),
        dial_ok(v, g),
        prep_ok(v, g),
        echo_ok(v, g),
        rate_ok(v),
    ensures
        holds(v, g),
{
    assert(timers_ok(v)) by {
        assert forall|i: int| 0 <= i < v.slots.len() && (#[trigger] v.slots[i]) is Some implies timer_ok(
            v,
            i,
        ) by {
            assert(timer_ok(w, i));
        }
    }
}

pub proof fn lemma_start_dial(w: WorkerView, n: usize, concurrency: usize)
    requires
        inv(w),
        w.op is Nothing,
        w.phase is Idle,
    ensures
        inv(w.start_dial(n, concurrency)),
{
    let h = Hand::Nothing;
    let v = w.start_dial(n, concurrency);
    assert forall|i: usize| #[trigger] redials_into(v, h, i) == redials_into(w, h, i) by {}
    lemma_redials_same(w, h, v, h);
    assert forall|i: usize| #[trigger] round_trips(v, h, i) == 0 by {
        assert(round_trips(w, h, i) == 0);
    }
    lemma_other_phase(w, h, v, h);
}

pub proof fn lemma_start_echo(w: WorkerView, job: model::EchoView, concurrency: usize)
    requires
        inv(w),
        w.op is Nothing,
        w.phase is Idle,
        job.payloads.len() > 0,
    ensures
        inv(w.start_echo(job, concurrency)),
{
    let h = Hand::Nothing;
    let v = w.start_echo(job, concurrency);
    let e = v.phase->Echo_0;
    assert forall|i: usize| #[trigger] redials_into(v, h, i) == redials_into(w, h, i) by {}
    lemma_redials_same(w, h, v, h);
    lemma_occupied(w);
    assert forall|i: usize| #[trigger] round_trips(v, h, i) == 0 by {
        assert(round_trips(w, h, i) == 0);
    }
    assert forall|i: usize| fits(v, i, #[trigger] round_trips(v, h, i) + count::one(e.idle.contains(i))) by {
        assert(round_trips(v, h, i) == 0);
        assert(w.occupied().contains(i) <==> is_occupied(w, i as int));
        if is_occupied(w, i as int) {
            lemma_occupied_held(w, i);
        }
    }
    let f = |i: int| w.slots[i] is Some;
    let m = |i: int| round_trips(v, h, i as usize) + count::one(e.idle.contains(i as usize)) > 0;
    assert forall|i: int| 0 <= i < w.slots.len() implies #[trigger] f(i) == #[trigger] m(i) by {
        assert(round_trips(v, h, i as usize) == 0);
        assert(w.occupied().contains(i as usize) <==> is_occupied(w, i));
    }
    lemma_indices_same(w.slots.len(), f, m);
    assert(members(v, h, e.idle) == w.occupied());
    lemma_other_phase(w, h, v, h);
}

pub proof fn lemma_start_rate(w: WorkerView, job: model::RateView)
    requires
        inv(w),
        w.op is Nothing,
        w.phase is Idle,
        job_fits(job.batch, job.tick),
    ensures
        inv(w.start_rate(job)),
{
    let h = Hand::Nothing;
    let v = w.start_rate(job);
    let p = v.phase->RatePrep_0;
    let f = |i: int| w.slots[i] is Some && w.slots[i]->Some_0.state == State::Broken;
    lemma_indices(w.slots.len(), f);
    assert(p.todo =~= model::indices(w.slots.len(), f));
    lemma_no_retries(w);
    assert forall|i: usize| #[trigger] redials_into(v, h, i) > 0 implies {
        &&& redials_into(v, h, i) == 1
        &&& is_held(v, i)
        &&& is_down(v, i)
    } by {
        assert(count::of(v.retries, retry_is(is_into(i))) == 0);
        assert(p.todo.contains(i));
        assert(model::indices(w.slots.len(), f).contains(i));
    }
    assert forall|i: usize| #[trigger] round_trips(v, h, i) == 0 by {
        assert(round_trips(w, h, i) == 0);
    }
    lemma_other_phase(w, h, v, h);
}

proof fn lemma_drive_dial(w: WorkerView, now: Nanos)
    requires
        inv(w),
        w.op is Nothing,
        w.phase is Dial,
    ensures
        inv(w.drive_dial(w.phase->Dial_0, now).0),
{
    let h = Hand::Nothing;
    let d = w.phase->Dial_0;
    let v = w.drive_dial(d, now).0;
    let g = hand(v.op);
    assert forall|i: usize| #[trigger] redials_into(v, g, i) == redials_into(w, h, i) by {}
    lemma_redials_same(w, h, v, g);
    assert forall|i: usize| #[trigger] round_trips(v, g, i) == 0 by {
        assert(round_trips(w, h, i) == 0);
    }
    lemma_other_phase(w, h, v, g);
}

/// BenchEcho goes on with the same round trips and the same idle connections.
proof fn lemma_echo_phase(w: WorkerView, e: model::EchoPhase)
    requires
        holds(w, Hand::Nothing),
        w.op is Nothing,
        w.phase is Echo,
        e.idle == w.phase->Echo_0.idle,
        e.in_flight == w.phase->Echo_0.in_flight,
        e.slots == w.phase->Echo_0.slots,
        e.job == w.phase->Echo_0.job,
    ensures
        holds(w.with_phase(PhaseView::Echo(e)), Hand::Nothing),
{
    let h = Hand::Nothing;
    let v = w.with_phase(PhaseView::Echo(e));
    let o = w.phase->Echo_0;
    assert forall|i: usize| #[trigger] redials_into(v, h, i) == redials_into(w, h, i) by {}
    lemma_redials_same(w, h, v, h);
    assert forall|i: usize| #[trigger]
        round_trips(w, h, i) + count::one(o.idle.contains(i)) == round_trips(v, h, i) + count::one(
            e.idle.contains(i),
        ) by {}
    lemma_echo_moved(w, h, v, h);
    lemma_other_phase(w, h, v, h);
}

proof fn lemma_drive_echo(w: WorkerView, now: Nanos)
    requires
        inv(w),
        w.op is Nothing,
        w.phase is Echo,
    ensures
        inv(w.drive_echo(w.phase->Echo_0, now).0),
{
    let h = Hand::Nothing;
    let o = w.phase->Echo_0;
    let v = w.drive_echo(o, now).0;
    if o.exhausted && o.in_flight == 0 {
        lemma_no_round_trips(w, h);
        assert forall|i: usize| #[trigger] redials_into(v, h, i) == redials_into(w, h, i) by {}
        lemma_redials_same(w, h, v, h);
        assert forall|i: usize| #[trigger] round_trips(v, h, i) == 0 by {
            assert(round_trips(w, h, i) == 0);
        }
        lemma_other_phase(w, h, v, h);
    } else if v.phase != w.phase {
        lemma_echo_phase(w, v.phase->Echo_0);
        assert(v == w.with_phase(v.phase));
    } else {
        assert(v == w);
    }
}

/// A connection that is idle has no redial on its way.
proof fn lemma_idle_not_redialed(w: WorkerView, idx: usize)
    requires
        holds(w, Hand::Nothing),
        w.phase is Echo,
        round_trips(w, Hand::Nothing, idx) == 0,
    ensures
        redials_into(w, Hand::Nothing, idx) == 0,
{
    let f = retry_is(is_into(idx));
    let g = retry_is(is_echo_into(idx));
    count::zero(w.retries, g);
    assert forall|a: int| 0 <= a < w.retries.len() implies !f(#[trigger] w.retries[a]) by {
        let job = w.retries[a].1;
        assert(job_ok(job));
        assert(!g(w.retries[a]));
        if job.purpose is RedialRate {
            count::positive(w.retries, a, retry_is(is_rate()));
        }
    }
    count::none(w.retries, f);
}

/// Whether the worker waits for the number of the next round trip.
pub open spec fn wants_number(w: WorkerView) -> bool {
    match w.phase {
        PhaseView::Echo(e) => e.in_flight < e.slots && e.idle.len() > 0,
        _ => false,
    }
}

/// Whether the connection that has been idle longest is there.
pub open spec fn has_next(w: WorkerView) -> bool {
    w.phase matches PhaseView::Echo(e) && e.idle.len() > 0 && is_occupied(w, e.idle[0] as int)
}

/// The worker with the connection in hand that has been idle longest.
pub open spec fn taken_up(w: WorkerView) -> WorkerView {
    let e = w.phase->Echo_0;
    w.with_phase(
        PhaseView::Echo(
            model::EchoPhase {
                idle: e.idle.drop_first(),
                in_flight: e.in_flight + 1,
                granted: false,
                ..e
            },
        ),
    )
}

pub proof fn lemma_first_idle(w: WorkerView)
    requires
        inv(w),
        w.op is Nothing,
        wants_number(w),
    ensures
        is_held(w, w.phase->Echo_0.idle[0]),
        round_trips(w, Hand::Nothing, w.phase->Echo_0.idle[0]) == 0,
        w.phase->Echo_0.in_flight < usize::MAX,
        w.phase->Echo_0.job.payloads.len() > 0,
{
    let e = w.phase->Echo_0;
    let idx = e.idle[0];
    assert(e.idle.contains(idx));
    assert(fits(w, idx, round_trips(w, Hand::Nothing, idx) + count::one(e.idle.contains(idx))));
    lemma_members(w, Hand::Nothing);
}

/// A connection that has been idle is taken in hand for a round trip.
pub proof fn lemma_taken_up(w: WorkerView)
    requires
        inv(w),
        w.op is Nothing,
        wants_number(w),
    ensures
        ({
            let idx = w.phase->Echo_0.idle[0];
            let v = taken_up(w);
            &&& holds(v, Hand::Echo(idx))
            &&& forall|now: Nanos|
                is_down(w, idx) ==> #[trigger] holds(
                    v.dial_for(now, Purpose::RedialEcho { start: now }, Some(idx)),
                    hand(v.dial_for(now, Purpose::RedialEcho { start: now }, Some(idx)).op),
                )
        }),
{
    let h = Hand::Nothing;
    let e = w.phase->Echo_0;
    let idx = e.idle[0];
    let g = Hand::Echo(idx);
    let v = taken_up(w);
    let f = v.phase->Echo_0;
    assert(e.idle.contains(idx));
    assert(fits(w, idx, round_trips(w, h, idx) + count::one(e.idle.contains(idx))));
    lemma_idle_not_redialed(w, idx);
    assert forall|i: usize| #[trigger] f.idle.contains(i) <==> e.idle.contains(i) && i != idx by {
        if f.idle.contains(i) {
            let a = choose|a: int| 0 <= a < f.idle.len() && f.idle[a] == i;
            assert(e.idle[a + 1] == i);
        }
        if e.idle.contains(i) && i != idx {
            let a = choose|a: int| 0 <= a < e.idle.len() && e.idle[a] == i;
            assert(f.idle[a - 1] == i);
        }
    }
    assert(f.idle.no_duplicates());
    assert forall|i: usize| #[trigger] redials_into(v, g, i) == redials_into(w, h, i) by {}
    lemma_redials_same(w, h, v, g);
    assert forall|i: usize| #[trigger]
        round_trips(w, h, i) + count::one(e.idle.contains(i)) == round_trips(v, g, i) + count::one(
            f.idle.contains(i),
        ) by {
        assert(f.idle.contains(i) <==> e.idle.contains(i) && i != idx);
    }
    lemma_echo_moved(w, h, v, g);
    lemma_other_phase(w, h, v, g);
    assert forall|now: Nanos|
        is_down(w, idx) implies #[trigger] holds(
        v.dial_for(now, Purpose::RedialEcho { start: now }, Some(idx)),
        hand(v.dial_for(now, Purpose::RedialEcho { start: now }, Some(idx)).op),
    ) by {
        let x = v.dial_for(now, Purpose::RedialEcho { start: now }, Some(idx));
        let d = hand(x.op);
        assert forall|i: usize| #[trigger] redials_into(x, d, i) > 0 implies {
            &&& redials_into(x, d, i) == 1
            &&& is_held(x, i)
            &&& is_down(x, i)
        } by {
            if i != idx {
                assert(redials_into(w, h, i) > 0);
            }
        }
        assert forall|i: usize| #[trigger]
            round_trips(w, h, i) + count::one(e.idle.contains(i)) == round_trips(x, d, i)
                + count::one(f.idle.contains(i)) by {
            assert(f.idle.contains(i) <==> e.idle.contains(i) && i != idx);
        }
        lemma_echo_moved(w, h, x, d);
        lemma_other_phase(w, h, x, d);
    }
}

pub proof fn lemma_issue(w: WorkerView, n: u64, now: Nanos)
    requires
        inv(w),
        w.op is Nothing,
        wants_number(w),
        n < w.phase->Echo_0.job.times ==> has_next(w),
    ensures
        inv(w.issue(n, now)),
{
    let e = w.phase->Echo_0;
    if n >= e.job.times {
        lemma_echo_phase(w, model::EchoPhase { exhausted: true, granted: false, ..e });
    } else {
        let idx = e.idle[0];
        let v = taken_up(w);
        lemma_first_idle(w);
        lemma_taken_up(w);
        let c = w.slots[idx as int]->Some_0;
        if c.state == State::Broken {
            let x = v.dial_for(now, Purpose::RedialEcho { start: now }, Some(idx));
            assert(holds(x, hand(x.op)));
        } else {
            lemma_send_request(
                v,
                idx,
                ReqKind::Echo { start: now },
                e.job.payloads[(n % (e.job.payloads.len() as u64)) as int],
                now,
            );
        }
    }
}

proof fn lemma_drive_prep(w: WorkerView, now: Nanos)
    requires
        inv(w),
        w.op is Nothing,
        w.phase is RatePrep,
    ensures
        inv(w.drive_prep(w.phase->RatePrep_0, now).0),
{
    let h = Hand::Nothing;
    let p = w.phase->RatePrep_0;
    let v = w.drive_prep(p, now).0;
    if p.todo.len() > 0 {
        let g = hand(v.op);
        let idx = p.todo[0];
        let q = v.phase->RatePrep_0;
        assert(p.todo.contains(idx));
        assert forall|i: usize| #[trigger] q.todo.contains(i) <==> p.todo.contains(i) && i != idx by {
            if q.todo.contains(i) {
                let a = choose|a: int| 0 <= a < q.todo.len() && q.todo[a] == i;
                assert(p.todo[a + 1] == i);
            }
            if p.todo.contains(i) && i != idx {
                let a = choose|a: int| 0 <= a < p.todo.len() && p.todo[a] == i;
                assert(q.todo[a - 1] == i);
            }
        }
        assert(q.todo.no_duplicates());
        assert forall|i: usize| #[trigger] redials_into(v, g, i) == redials_into(w, h, i) by {
            assert(q.todo.contains(i) <==> p.todo.contains(i) && i != idx);
        }
        lemma_redials_same(w, h, v, g);
        assert forall|i: usize| #[trigger] round_trips(v, g, i) == 0 by {
            assert(round_trips(w, h, i) == 0);
        }
        lemma_other_phase(w, h, v, g);
    } else if p.redials == 0 {
        lemma_rate_begins(w, now);
    } else {
        assert forall|i: usize| #[trigger] redials_into(v, h, i) == redials_into(w, h, i) by {}
        lemma_redials_same(w, h, v, h);
        assert forall|i: usize| #[trigger] round_trips(v, h, i) == 0 by {
            assert(round_trips(w, h, i) == 0);
        }
        lemma_other_phase(w, h, v, h);
    }
}

proof fn lemma_rate_begins(w: WorkerView, now: Nanos)
    requires
        inv(w),
        w.op is Nothing,
        w.phase is RatePrep,
        w.phase->RatePrep_0.todo.len() == 0,
        w.phase->RatePrep_0.redials == 0,
    ensures
        inv(w.drive_prep(w.phase->RatePrep_0, now).0),
{
    let h = Hand::Nothing;
    let p = w.phase->RatePrep_0;
    let v = w.drive_prep(p, now).0;
    let r = v.phase->Rate_0;
    let f = |i: int| w.slots[i] is Some && w.slots[i]->Some_0.state == State::Ready;
    lemma_indices(w.slots.len(), f);
    assert(r.conns =~= model::indices(w.slots.len(), f));
    assert forall|i: int| 0 <= i < w.slots.len() implies {
        let a = #[trigger] w.slots[i];
        let b = v.slots[i];
        &&& a is Some <==> b is Some
        &&& a is Some ==> b->Some_0.state == a->Some_0.state && b->Some_0.dial == a->Some_0.dial
            && b->Some_0.attempt_deadline == a->Some_0.attempt_deadline && b->Some_0.queued
            == a->Some_0.queued && b->Some_0.streams == a->Some_0.streams && b->Some_0.scheduled
            == a->Some_0.scheduled && b->Some_0.deadline == a->Some_0.deadline && b->Some_0.dirty
            == a->Some_0.dirty
    } by {}
    assert(free_ok(v)) by {
        assert forall|a: int| 0 <= a < v.free.len() implies (#[trigger] v.free[a]) < v.slots.len()
            && v.slots[v.free[a] as int] is None by {
            assert(w.slots[w.free[a] as int] is None);
        }
    }
    assert(conns_ok(v)) by {
        assert forall|i: int| 0 <= i < v.slots.len() && (
        #[trigger] v.slots[i]) is Some implies conn_ok(i, v.slots[i]->Some_0) by {
            assert(w.slots[i] is Some);
            assert(conn_ok(i, w.slots[i]->Some_0));
        }
    }
    assert(timers_ok(v)) by {
        assert forall|i: int| 0 <= i < v.slots.len() && (#[trigger] v.slots[i]) is Some implies timer_ok(
            v,
            i,
        ) by {
            assert(w.slots[i] is Some);
            assert(timer_ok(w, i));
        }
    }
    assert(dirty_ok(v)) by {
        assert forall|i: int| 0 <= i < v.slots.len() && (
        #[trigger] v.slots[i]) is Some && v.slots[i]->Some_0.dirty implies v.dirty.contains(
            i as usize,
        ) by {
            assert(w.slots[i]->Some_0.dirty);
        }
    }
    count::same(w.slots, v.slots, conn_dials(is_new()), conn_dials(is_new()));
    count::same(w.slots, v.slots, conn_dials(is_rate()), conn_dials(is_rate()));
    count::same(w.slots, v.slots, is_ready(), is_ready());
    assert forall|i: usize| #[trigger] redials_into(v, h, i) <= redials_into(w, h, i) by {}
    assert(redials_ok(v, h)) by {
        assert forall|i: usize| #[trigger] redials_into(v, h, i) > 0 implies {
            &&& redials_into(v, h, i) == 1
            &&& is_held(v, i)
            &&& is_down(v, i)
        } by {
            assert(redials_into(w, h, i) > 0);
            assert(is_held(w, i) && is_down(w, i));
        }
    }
    assert forall|i: usize| #[trigger] round_trips(v, h, i) == 0 by {
        assert(round_trips(w, h, i) == 0);
        if i < w.slots.len() {
            assert(conn_round_trips(v.slots[i as int]) == conn_round_trips(w.slots[i as int]));
        }
    }
    assert(rate_ok(v)) by {
        assert forall|k: int| 0 <= k < r.conns.len() implies (#[trigger] r.conns[k])
            < v.slots.len() && unanswered(v, r, k) <= limit(r.job.batch) by {
            let i = model::indices(w.slots.len(), f)[k];
            assert(i < w.slots.len() && f(i as int));
            assert(v.slots[i as int]->Some_0.in_flight == 0);
        }
        assert(r.conns.len() <= w.slots.len());
    }
}

pub proof fn lemma_next_place(w: WorkerView, r: RatePhase, k: nat)
    requires
        k <= r.conns.len(),
    ensures
        k <= w.next_place(r, k) <= r.conns.len(),
        w.next_place(r, k) < r.conns.len() ==> w.takes_batch(r, w.next_place(r, k) as int),
        forall|i: int| k <= i < w.next_place(r, k) ==> !#[trigger] w.takes_batch(r, i),
    decreases r.conns.len() - k,
{
    if k < r.conns.len() && !w.takes_batch(r, k as int) {
        lemma_next_place(w, r, k + 1);
    }
}

/// Which places take a batch does not rest on the phase.
pub proof fn lemma_look_anywhere(w: WorkerView, phase: PhaseView, r: RatePhase, k: nat)
    ensures
        w.with_phase(phase).next_place(r, k) == w.next_place(r, k),
    decreases r.conns.len() - k,
{
    if k < r.conns.len() && !w.takes_batch(r, k as int) {
        lemma_look_anywhere(w, phase, r, k + 1);
    }
}

proof fn lemma_tick_look(w: WorkerView, r: RatePhase, k: nat)
    requires
        holds(w, Hand::Nothing),
        w.op is Nothing,
        w.phase is Rate,
        rate_ok(w.with_phase(PhaseView::Rate(r.at(None)))),
        k <= r.conns.len(),
    ensures
        inv(w.tick_look(r, k).0),
{
    let v = w.tick_look(r, k).0;
    lemma_next_place(w, r, k);
    let at = w.next_place(r, k);
    let s = v.phase->Rate_0;
    let q = r.at(None);
    assert forall|a: int| 0 <= a < s.conns.len() implies (#[trigger] s.conns[a]) < v.slots.len()
        && unanswered(v, s, a) <= limit(s.job.batch) by {
        let x = w.with_phase(PhaseView::Rate(q));
        assert(q.conns[a] < x.slots.len() && unanswered(x, q, a) <= limit(q.job.batch));
    }
    if at < r.conns.len() {
        assert(w.takes_batch(r, at as int));
        assert(unanswered(v, s, at as int) + s.job.batch <= limit(s.job.batch));
    }
    lemma_rate_phase(w, s);
    assert(v == w.with_phase(PhaseView::Rate(s)));
}

proof fn lemma_drive_rate(w: WorkerView, now: Nanos)
    requires
        inv(w),
        w.op is Nothing,
        w.phase is Rate,
    ensures
        inv(w.drive_rate(w.phase->Rate_0, now).0),
{
    let h = Hand::Nothing;
    let r = w.phase->Rate_0;
    let v = w.drive_rate(r, now).0;
    let q = r.at(None);
    let x = w.with_phase(PhaseView::Rate(q));
    assert(rate_ok(x)) by {
        assert forall|a: int| 0 <= a < q.conns.len() implies (#[trigger] q.conns[a]) < x.slots.len()
            && unanswered(x, q, a) <= limit(q.job.batch) by {
            assert(r.conns[a] < w.slots.len() && unanswered(w, r, a) <= limit(r.job.batch));
        }
    }
    match r.tick {
        Some(tick) => match tick {
            Tick::Look(k) => {
                lemma_tick_look(w, r, k as nat);
            },
            Tick::Sending { at, left } => {
                let idx = r.conns[at as int];
                match w.conn(idx as int) {
                    Some(c) => if c.h3 {
                        lemma_op_changes(w, h, v.op);
                    } else {
                        lemma_tick_look(w, r, (at + 1) as nat);
                    },
                    None => {
                        lemma_tick_look(w, r, (at + 1) as nat);
                    },
                }
            },
            _ => {},
        },
        None => {
            if r.grace_until is Some {
                if r.counts.answered >= r.counts.send_times || now >= r.grace_until->Some_0 {
                    assert forall|i: usize| #[trigger] redials_into(v, h, i) == redials_into(
                        w,
                        h,
                        i,
                    ) by {}
                    lemma_redials_same(w, h, v, h);
                    assert forall|i: usize| #[trigger] round_trips(v, h, i) == 0 by {
                        assert(round_trips(w, h, i) == 0);
                    }
                    lemma_other_phase(w, h, v, h);
                }
            } else if now >= r.deadline {
                let s = v.phase->Rate_0;
                assert(rate_ok(w.with_phase(PhaseView::Rate(s)))) by {
                    assert forall|a: int| 0 <= a < s.conns.len() implies (#[trigger] s.conns[a])
                        < v.slots.len() && unanswered(v, s, a) <= limit(s.job.batch) by {
                        assert(r.conns[a] < w.slots.len() && unanswered(w, r, a) <= limit(
                            r.job.batch,
                        ));
                    }
                }
                lemma_rate_phase(w, s);
            } else if now >= r.next_tick {
                let s = RatePhase { next_tick: r.tick_after(now), ..r };
                let y = w.with_phase(PhaseView::Rate(s.at(None)));
                assert(rate_ok(y)) by {
                    let z = s.at(None);
                    assert forall|a: int| 0 <= a < z.conns.len() implies (#[trigger] z.conns[a])
                        < y.slots.len() && unanswered(y, z, a) <= limit(z.job.batch) by {
                        assert(r.conns[a] < w.slots.len() && unanswered(w, r, a) <= limit(
                            r.job.batch,
                        ));
                    }
                }
                lemma_tick_look(w, s, 0);
            }
        },
    }
}

pub proof fn lemma_drive(w: WorkerView, now: Nanos)
    requires
        inv(w),
    ensures
        inv(w.drive(now).0),
{
    if w.op is Nothing {
        match w.phase {
            PhaseView::Idle => {},
            PhaseView::Dial(d) => {
                lemma_drive_dial(w, now);
            },
            PhaseView::Echo(e) => {
                lemma_drive_echo(w, now);
            },
            PhaseView::RatePrep(p) => {
                lemma_drive_prep(w, now);
            },
            PhaseView::Rate(r) => {
                lemma_drive_rate(w, now);
            },
        }
    }
}

pub proof fn lemma_tokens(w: WorkerView, wait: Option<Nanos>, now: Nanos)
    requires
        inv(w),
        w.op is Nothing,
    ensures
        inv(w.tokens(wait, now)),
{
    let v = w.tokens(wait, now);
    match w.phase {
        PhaseView::Echo(e) => {
            lemma_echo_phase(w, v.phase->Echo_0);
        },
        PhaseView::Rate(r) => match r.tick {
            Some(Tick::Tokens(at)) => {
                lemma_tick_moves(w, v.phase->Rate_0);
            },
            _ => {},
        },
        _ => {},
    }
}

/// The tick moves on from a connection, or to sending the batch on it.
proof fn lemma_tick_moves(w: WorkerView, s: RatePhase)
    requires
        holds(w, Hand::Nothing),
        w.phase is Rate,
        ({
            let r = w.phase->Rate_0;
            let at = match r.tick {
                Some(Tick::Streams(at)) => at,
                Some(Tick::Tokens(at)) => at,
                _ => 0,
            };
            &&& (r.tick matches Some(Tick::Streams(_))) || (r.tick matches Some(Tick::Tokens(_)))
            &&& s == r.skip() || s == r.send_at(at) || s == r.at(Some(Tick::Tokens(at)))
        }),
    ensures
        holds(w.with_phase(PhaseView::Rate(s)), Hand::Nothing),
{
    let r = w.phase->Rate_0;
    let v = w.with_phase(PhaseView::Rate(s));
    assert(rate_ok(v)) by {
        assert forall|a: int| 0 <= a < s.conns.len() implies (#[trigger] s.conns[a])
            < v.slots.len() && unanswered(v, s, a) == unanswered(w, r, a) && unanswered(v, s, a)
            <= limit(s.job.batch) by {
            assert(r.conns[a] < w.slots.len() && unanswered(w, r, a) <= limit(r.job.batch));
        }
        match r.tick {
            Some(Tick::Streams(at)) => {
                assert(s.conns[at as int] < v.slots.len());
            },
            Some(Tick::Tokens(at)) => {
                assert(s.conns[at as int] < v.slots.len());
            },
            _ => {},
        }
    }
    lemma_rate_phase(w, s);
}

pub proof fn lemma_streams_left(w: WorkerView, n: u64)
    requires
        inv(w),
        w.op is Nothing,
    ensures
        inv(w.streams_left(n)),
{
    let v = w.streams_left(n);
    match w.phase {
        PhaseView::Rate(r) => match r.tick {
            Some(Tick::Streams(at)) => {
                lemma_tick_moves(w, v.phase->Rate_0);
            },
            _ => {},
        },
        _ => {},
    }
}

// ---------------------------------------------------------------------------
// What that comes to.

/// While BenchEcho runs, no connection has more than one round trip, a
/// connection that is idle has none, and no more are in flight than the
/// concurrency asked for.
pub proof fn one_round_trip_per_connection(w: WorkerView, i: usize)
    requires
        inv(w),
        w.phase is Echo,
    ensures
        round_trips(w, hand(w.op), i) <= 1,
        w.phase->Echo_0.idle.contains(i) ==> round_trips(w, hand(w.op), i) == 0,
        w.phase->Echo_0.in_flight <= w.phase->Echo_0.slots,
{
    let h = hand(w.op);
    let e = w.phase->Echo_0;
    assert(fits(w, i, round_trips(w, h, i) + count::one(e.idle.contains(i))));
}

/// As long as fewer round trips are in flight than may be, there is an idle slot
/// for the next one.
pub proof fn a_free_place_has_an_idle_slot(w: WorkerView)
    requires
        inv(w),
        w.phase is Echo,
        w.phase->Echo_0.in_flight < w.phase->Echo_0.slots,
    ensures
        w.phase->Echo_0.idle.len() > 0,
{
}

/// A worker that asks for the number of a round trip has a place and an idle slot
/// for it, and waits for nothing else.
pub proof fn a_number_is_wanted(w: WorkerView, now: Nanos)
    requires
        w.drive(now).1 is Number,
    ensures
        wants_number(w.drive(now).0),
        w.drive(now).0.op is Nothing,
{
}

/// A benchmark that is over leaves no round trip and no dial behind.
pub proof fn nothing_is_left_behind(w: WorkerView, i: usize)
    requires
        inv(w),
        w.op is Nothing,
        w.phase is Idle,
    ensures
        round_trips(w, Hand::Nothing, i) == 0,
        dials(w, Hand::Nothing, is_new()) == 0,
        dials(w, Hand::Nothing, is_rate()) == 0,
        w.retries.len() == 0,
{
    lemma_no_retries(w);
    assert(round_trips(w, Hand::Nothing, i) == 0);
}

/// A connection of BenchMultiplex never has more than four batches unanswered.
pub proof fn four_batches_at_most(w: WorkerView, k: int)
    requires
        inv(w),
        w.phase is Rate,
        0 <= k < w.phase->Rate_0.conns.len(),
    ensures
        unanswered(w, w.phase->Rate_0, k) <= 4 * w.phase->Rate_0.job.batch,
{
    let r = w.phase->Rate_0;
    assert(r.conns[k] < w.slots.len() && unanswered(w, r, k) <= limit(r.job.batch));
}

/// No batch is begun once the time is up: the worker gives the last one a tick
/// to come back in, and then is done, or as soon as all of it has come back.
pub proof fn the_last_batch_has_a_tick(w: WorkerView, now: Nanos, then: Nanos)
    requires
        w.op is Nothing,
        w.phase is Rate,
        w.phase->Rate_0.tick is None,
        w.phase->Rate_0.grace_until is None,
        now >= w.phase->Rate_0.deadline,
        now + w.phase->Rate_0.job.tick <= u128::MAX,
    ensures
        ({
            let v = w.drive(now).0;
            let counts = w.phase->Rate_0.counts;
            let over = counts.answered >= counts.send_times || then >= now
                + w.phase->Rate_0.job.tick;
            &&& w.drive(now).1 is Rest
            &&& v.drive(then).1 == (if over {
                model::ActView::Done(model::OutcomeView::Rate(counts))
            } else {
                model::ActView::Rest
            })
        }),
{
}

/// A connection that the server leaves fewer streams than a batch has is passed
/// over for the tick, and nothing is counted as sent.
pub proof fn no_batch_without_streams(w: WorkerView, at: usize, n: u64)
    requires
        inv(w),
        w.phase matches PhaseView::Rate(r) && r.tick == Some(Tick::Streams(at)) && n < r.job.batch,
    ensures
        ({
            let r = w.phase->Rate_0;
            w.streams_left(n) == w.with_phase(
                PhaseView::Rate(r.at(Some(Tick::Look((at + 1) as usize)))),
            )
        }),
{
}

/// A response that is finished or was reset is the last of its stream: the
/// connection carries no request there any more.
pub proof fn an_ended_stream_is_forgotten(w: WorkerView, idx: usize, stream: u64, code: u64)
    requires
        inv(w),
        is_occupied(w, idx as int),
    ensures
        !w.polled(idx, H3View::Finished { stream }).slots[idx as int]->Some_0.has(stream),
        !w.polled(idx, H3View::Reset { stream, code }).slots[idx as int]->Some_0.has(stream),
{
    let c = w.slots[idx as int]->Some_0;
    assert(conn_ok(idx as int, c));
    conn::lemma_place(c.streams, stream);
    if c.has(stream) {
        conn::lemma_forgotten(c.streams, stream);
    }
}

/// A round trip that a connection has no room for waits on that connection, and
/// stays the one round trip there.
pub proof fn a_round_trip_waits_for_room(w: WorkerView, idx: usize, start: Nanos, body: Seq<u8>, now: Nanos)
    requires
        inv(w),
        w.op == (OpView::Send { idx, kind: ReqKind::Echo { start }, body, queued: false }),
    ensures
        ({
            let v = w.transmitted(SentView::Blocked, now);
            let q = QueuedView { kind: ReqKind::Echo { start }, body };
            &&& v.phase == w.phase
            &&& v.slots[idx as int]->Some_0.queued == w.slots[idx as int]->Some_0.queued.push(q)
            &&& round_trips(v, Hand::Nothing, idx) == 1
            &&& v.op is Nothing
        }),
{
    let v = w.transmitted(SentView::Blocked, now);
    lemma_transmitted(w, SentView::Blocked, now);
    let c = v.slots[idx as int]->Some_0;
    let k = c.queued.len() - 1;
    assert(c.queued[k].kind is Echo);
    count::positive(c.queued, k, echo_queued());
    assert(round_trips(v, Hand::Nothing, idx) > 0);
    lemma_echo_counted(v, Hand::Nothing, idx);
}

/// The worker looks again no later than any of its connections is due that is
/// not broken and owes no flush.
pub proof fn wakes_in_time(w: WorkerView, i: int, d: Nanos)
    requires
        inv(w),
        is_occupied(w, i),
        w.slots[i]->Some_0.state != State::Broken,
        !w.slots[i]->Some_0.dirty,
        w.slots[i]->Some_0.deadline == Some(d),
    ensures
        w.next_wakeup() <= d,
{
    broadcast use vstd::multiset::group_multiset_axioms;

    assert(timer_ok(w, i));
    let s = w.slots[i]->Some_0.scheduled->Some_0;
    let t = (s, i as usize);
    assert(w.timers.count(t) > 0);
    assert(w.timers.len() > 0) by {
        if w.timers.len() == 0 {
            assert(w.timers =~= vstd::multiset::Multiset::empty());
        }
    }
    crate::timers::one_comes_first(w.timers);
}

} // verus!
