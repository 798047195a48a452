//! What each thing that happens to a worker is for.

use vstd::prelude::*;

use crate::engine::conn;
use crate::engine::conn::{
    DialJob, EventView, Nanos, PendingView, Purpose, QueuedView, ReqKind, State,
};
use crate::engine::laws;
use crate::engine::model;
use crate::engine::model::{
    ActView, EchoView, FlushView, OpView, OutcomeView, PhaseView, RateView, SentView, Tick,
    WorkerView,
};
use crate::stats;
use crate::stats::LatenciesView;

verus! {

// ---------------------------------------------------------------------------
// Numbers in order.

/// The slots that a list of indices holds are exactly those that are wanted, in
/// ascending order.
pub proof fn indices_are_those_wanted(n: nat, f: spec_fn(int) -> bool, i: usize)
    requires
        n <= usize::MAX,
    ensures
        model::indices(n, f).contains(i) <==> i < n && f(i as int),
        forall|a: int, b: int|
            0 <= a < b < model::indices(n, f).len() ==> model::indices(n, f)[a] < model::indices(
                n,
                f,
            )[b],
        forall|a: int| 0 <= a < model::indices(n, f).len() ==> model::indices(n, f)[a] < n,
    decreases n,
{
    if n > 0 {
        let less = model::indices((n - 1) as nat, f);
        indices_are_those_wanted((n - 1) as nat, f, i);
        if f(n - 1) {
            let all = less.push((n - 1) as usize);
            if less.contains(i) {
                let a = choose|a: int| 0 <= a < less.len() && less[a] == i;
                assert(all[a] == i);
            }
            if i == n - 1 {
                assert(all[less.len() as int] == i);
            }
            if all.contains(i) && i != n - 1 {
                let a = choose|a: int| 0 <= a < all.len() && all[a] == i;
                assert(less[a] == i);
            }
        }
    }
}

/// The time from one moment to a later one is their difference, and none to an
/// earlier one; and the earlier of two moments is one of them and no later than
/// either.
pub proof fn moments_are_in_order(a: Nanos, b: Nanos)
    ensures
        a >= b ==> model::since(a, b) + b == a,
        a <= b ==> model::since(a, b) == 0,
        model::earlier(Some(a), Some(b)) == Some(
            if a < b {
                a
            } else {
                b
            },
        ),
        model::earlier(Some(a), None) == Some(a),
        model::earlier(None, Some(a)) == Some(a),
        model::earlier(None, None) is None,
{
}

// ---------------------------------------------------------------------------
// Connections.

/// Connections begins with all of its dials to make and nothing counted. As long as
/// there are some to make and fewer are being made than may be at once, the worker
/// opens one more, which counts from then on; and when all were made and none is
/// being made, it is done and reports what it counted.
pub proof fn connections_are_dialed(w: WorkerView, count: usize, concurrency: usize, now: Nanos)
    requires
        w.op is Nothing,
    ensures
        ({
            let v = w.start_dial(count, concurrency);
            let (u, act) = v.drive(now);
            &&& v.phase matches PhaseView::Dial(d) && d.remaining == count && d.active == 0
                && d.concurrency == concurrency && d.lat == LatenciesView::none()
            &&& count > 0 && concurrency > 0 ==> act is Open && u.op == OpView::Dial(
                DialJob { start: now, attempt: 1, purpose: Purpose::New, slot: None },
            ) && u.phase->Dial_0.remaining == count - 1 && u.phase->Dial_0.active == 1
            &&& count == 0 ==> act == ActView::Done(OutcomeView::Dial(LatenciesView::none()))
        }),
        w.phase matches PhaseView::Dial(d) ==> {
            let (u, act) = w.drive(now);
            &&& d.round is None && d.remaining > 0 && d.active < d.concurrency ==> act is Open
                && u.op == OpView::Dial(
                DialJob { start: now, attempt: 1, purpose: Purpose::New, slot: None },
            ) && u.phase->Dial_0.remaining == d.remaining - 1 && u.phase->Dial_0.active == d.active
                + 1 && u.phase->Dial_0.lat == d.lat && u.phase->Dial_0.concurrency == d.concurrency
            &&& d.round is None ==> (act is Done <==> d.remaining == 0 && d.active == 0)
            &&& act is Done ==> act == ActView::Done(OutcomeView::Dial(d.lat)) && u.phase is Idle
            &&& act is Open ==> d.active < d.concurrency
            &&& act is Rest ==> u.phase->Dial_0.round is None && u.phase->Dial_0.remaining
                == d.remaining && u.phase->Dial_0.active == d.active && u.phase->Dial_0.lat == d.lat
        },
{
}

/// In one round of dials, the worker opens connections until as many are being made
/// as may be at once, or none is left to make.
pub proof fn a_round_fills_the_places(w: WorkerView, now: Nanos)
    requires
        w.op is Nothing,
        w.phase is Dial,
        w.phase->Dial_0.remaining > 1,
        w.phase->Dial_0.round is None,
        w.phase->Dial_0.active + 1 < w.phase->Dial_0.concurrency,
    ensures
        ({
            let v = w.drive(now).0.with_op(OpView::Nothing);
            &&& v.drive(now).1 is Open
            &&& v.drive(now).0.phase->Dial_0.remaining == w.phase->Dial_0.remaining - 2
            &&& v.drive(now).0.phase->Dial_0.active == w.phase->Dial_0.active + 2
        }),
{
}

/// A connection that was opened handshakes in a slot of its own, for the dial that it
/// was opened for, carries nothing yet, and is given up when the time for a dial is
/// over.
pub proof fn an_opened_connection_handshakes(w: WorkerView, now: Nanos)
    requires
        laws::inv(w),
        w.op is Dial,
        w.slots.len() < usize::MAX,
        now + w.limits.dial_timeout <= u128::MAX,
    ensures
        ({
            let job = w.op->Dial_0;
            let idx = w.slot_for(job);
            let v = w.dial_opened(now);
            &&& job.slot is Some ==> Some(idx) == job.slot
            &&& job.slot is None ==> !laws::is_occupied(w, idx as int)
            &&& v.op is Nothing
            &&& v.phase == w.phase
            &&& v.conn(idx as int) matches Some(c)
            &&& c.state is Connecting
            &&& !c.h3
            &&& c.streams.len() == 0 && c.queued.len() == 0 && c.pending.len() == 0
            &&& c.in_flight == 0 && !c.goaway && c.socket_error is None
            &&& c.dial matches Some(j) && j.start == job.start && j.attempt == job.attempt
                && j.purpose == job.purpose && j.slot == Some(idx)
            &&& c.attempt_deadline matches Some(t) && t == now + w.limits.dial_timeout
            &&& forall|i: int| i != idx ==> #[trigger] v.conn(i) == w.conn(i)
        }),
{
    let job = w.op->Dial_0;
    let idx = w.slot_for(job);
    let v = w.dial_opened(now);
    match job.slot {
        Some(i) => {
            laws::lemma_redial_slot(w, job, i);
        },
        None => if w.free.len() > 0 {
            laws::lemma_free_slot(w);
        },
    }
    assert forall|i: int| i != idx implies #[trigger] v.conn(i) == w.conn(i) by {}
}

/// A connection whose HTTP/3 side is set up is sent its first request, a GET, which
/// has no body.
pub proof fn a_new_connection_is_sent_a_get(w: WorkerView, idx: usize, now: Nanos)
    requires
        w.op is Nothing,
        w.events.len() == 0,
        w.conn(idx as int) matches Some(c) && c.state == State::Connecting && c.queued.len() == 0,
    ensures
        ({
            let v = w.set_up(idx, None);
            let u = v.next_event(now);
            &&& v.conn(idx as int)->Some_0.h3
            &&& u.op == (OpView::Send {
                idx,
                kind: ReqKind::Dial,
                body: Seq::empty(),
                queued: false,
            })
            &&& u.phase == w.phase
        }),
{
    let v = w.set_up(idx, None);
    assert(v.events[0] == (idx, EventView::Established));
}

/// A new connection whose first request was answered well is up, and counts as a
/// success of Connections that took as long as from when it was first dialed.
pub proof fn a_connection_comes_up(w: WorkerView, idx: usize, n: usize, now: Nanos)
    requires
        w.events.len() > 0,
        w.events[0] == (
            idx,
            EventView::Response { kind: ReqKind::Dial, result: Ok::<usize, Seq<char>>(n) },
        ),
        w.phase is Dial,
        w.conn(idx as int) matches Some(c) && (c.dial matches Some(job) && job.purpose is New
            && job.start <= now && now - job.start <= i64::MAX),
    ensures
        ({
            let v = w.next_event(now);
            let d = w.phase->Dial_0;
            let job = w.conn(idx as int)->Some_0.dial->Some_0;
            &&& v.conn(idx as int) matches Some(c) && c.state is Ready && c.dial is None
                && c.attempt_deadline is None
            &&& v.ready == w.ready + 1
            &&& v.connected == w.connected + 1
            &&& v.phase matches PhaseView::Dial(e)
            &&& e.active == d.active - 1 || d.active == 0
            &&& e.remaining == d.remaining
            &&& e.lat.success == d.lat.success + 1
            &&& e.lat.failed == d.lat.failed
            &&& e.lat.errors == d.lat.errors
            &&& e.lat.costs.drop_last() == d.lat.costs
            &&& e.lat.costs.last() == now - job.start
        }),
{
    let d = w.phase->Dial_0;
    let job = w.conn(idx as int)->Some_0.dial->Some_0;
    stats::a_success_is_recorded_as_it_was(d.lat, (now - job.start) as nat);
}

/// A dial that failed is made again after the interval, as the next attempt of the
/// same dial, as long as there are attempts left, and counts as nothing until then;
/// when there are none left, a new connection counts as a failure of Connections for
/// that reason, once.
pub proof fn a_failed_dial_is_made_again(w: WorkerView, job: DialJob, err: Seq<char>, now: Nanos)
    requires
        w.op == OpView::Dial(job),
        now + w.limits.dial_retry_interval <= u128::MAX,
        job.attempt < usize::MAX,
    ensures
        ({
            let v = w.dial_refused(err, now);
            &&& v.op is Nothing
            &&& v.slots == w.slots
            &&& job.attempt < w.limits.dial_retries ==> {
                &&& v.phase == w.phase
                &&& v.retries.len() == w.retries.len() + 1
                &&& v.retries.drop_last() == w.retries
                &&& v.retries.last().0 == now + w.limits.dial_retry_interval
                &&& v.retries.last().1.attempt == job.attempt + 1
                &&& v.retries.last().1.start == job.start
                &&& v.retries.last().1.purpose == job.purpose
                &&& v.retries.last().1.slot == job.slot
            }
            &&& job.attempt >= w.limits.dial_retries && job.purpose is New && w.phase is Dial ==> {
                let d = w.phase->Dial_0;
                &&& v.retries == w.retries
                &&& v.phase matches PhaseView::Dial(e)
                &&& e.active == d.active - 1 || d.active == 0
                &&& e.remaining == d.remaining
                &&& e.lat.success == d.lat.success
                &&& e.lat.costs == d.lat.costs
                &&& e.lat.failed == d.lat.failed + 1
                &&& e.lat.errors.contains_key(err)
                &&& e.lat.errors[err] == (if d.lat.errors.contains_key(err) {
                    d.lat.errors[err] + 1
                } else {
                    1
                })
                &&& forall|x: Seq<char>|
                    x != err ==> (#[trigger] e.lat.errors.contains_key(x)
                        <==> d.lat.errors.contains_key(x))
            }
        }),
{
    let v = w.dial_refused(err, now);
    if job.attempt < w.limits.dial_retries {
        assert(v.retries.drop_last() =~= w.retries);
    }
}

/// A dial is made again once its time has come and not before, and dials are made
/// again in the order in which they failed.
pub proof fn retries_come_in_turn(w: WorkerView, now: Nanos)
    requires
        w.retries.len() > 0,
    ensures
        w.retries[0].0 <= now ==> {
            let v = w.fire_retry(now);
            &&& v.op == OpView::Dial(w.retries[0].1)
            &&& v.retries == w.retries.skip(1)
            &&& v.slots == w.slots && v.phase == w.phase
        },
        w.retries[0].0 > now ==> w.fire_retry(now) == w,
{
    assert(w.retries.drop_first() =~= w.retries.skip(1));
}

/// A connection that never came up fails its dial. A new one leaves its slot to
/// others, and nothing of it is left; one that was dialed again stays, broken.
pub proof fn a_dial_that_fails_is_cleared_away(w: WorkerView, idx: usize, err: Seq<char>, now: Nanos)
    requires
        w.conn(idx as int) matches Some(c) && c.dial is Some,
    ensures
        ({
            let c = w.conn(idx as int)->Some_0;
            let job = c.dial->Some_0;
            let v = w.dial_failed(idx, err, now);
            &&& job.purpose is New ==> v.conn(idx as int) is None && v.free == w.free.push(idx)
            &&& !(job.purpose is New) ==> v.free == w.free && (v.conn(idx as int) matches Some(d)
                && d.state is Broken && d.dial is None && d.attempt_deadline is None
                && d.streams.len() == 0 && d.queued.len() == 0 && d.pending.len() == 0)
            &&& forall|i: int| i != idx ==> #[trigger] v.conn(i) == w.conn(i)
            &&& job.attempt < w.limits.dial_retries ==> v.retries.len() == w.retries.len() + 1
                && v.retries.last().1.purpose == job.purpose && (job.purpose is New
                ==> v.retries.last().1.slot is None)
        }),
{
    let v = w.dial_failed(idx, err, now);
    assert forall|i: int| i != idx implies #[trigger] v.conn(i) == w.conn(i) by {}
}

/// A connection that is being dialed is given up exactly once its time is over: its
/// timer fails the dial for the handshake, or for the first response where the
/// handshake was complete.
pub proof fn a_dial_is_given_up_in_time(
    w: WorkerView,
    now: Nanos,
    timeout: Option<Nanos>,
    established: bool,
)
    requires
        w.timer_due(now) is Some,
    ensures
        ({
            let idx = w.timer_due(now)->Some_0;
            let c = w.slots[idx as int]->Some_0;
            let (v, fired) = w.fire_timer(now, timeout, established);
            let due = c.deadline matches Some(d) && d <= now;
            let over = c.attempt_deadline matches Some(a) && a <= now;
            &&& fired is GaveUp <==> due && over && c.state is Connecting
            &&& fired is NotDue <==> !due
            &&& fired is GaveUp && (c.dial matches Some(job) && job.purpose is New && job.attempt
                >= w.limits.dial_retries) && w.phase is Dial ==> {
                let e = v.phase->Dial_0.lat;
                let why = if established {
                    "timeout waiting for the first response"@
                } else {
                    "handshake timeout"@
                };
                &&& e.failed == w.phase->Dial_0.lat.failed + 1
                &&& e.errors.contains_key(why)
                &&& v.conn(idx as int) is None
            }
            &&& !(fired is GaveUp) ==> v.phase == w.phase
            &&& fired is Expired ==> v.conn(idx as int)->Some_0.dirty
        }),
{
}

// ---------------------------------------------------------------------------
// BenchEcho.

/// BenchEcho begins on all the connections that there are, all of them idle, with
/// nothing in flight and nothing counted, and as many places as were asked for or
/// as there are connections; without any, there is nothing to do.
pub proof fn echo_begins_on_all_connections(w: WorkerView, job: EchoView, concurrency: usize, i: usize)
    requires
        w.slots.len() <= usize::MAX,
    ensures
        ({
            let v = w.start_echo(job, concurrency);
            &&& v.phase matches PhaseView::Echo(e)
            &&& e.job == job
            &&& e.in_flight == 0
            &&& e.lat == LatenciesView::none()
            &&& e.wait_until is None
            &&& !e.granted
            &&& e.idle.contains(i) <==> laws::is_occupied(w, i as int)
            &&& e.slots <= concurrency && e.slots <= e.idle.len()
            &&& e.slots == concurrency || e.slots == e.idle.len()
            &&& e.exhausted <==> e.slots == 0
            &&& v.slots == w.slots
        }),
{
    indices_are_those_wanted(w.slots.len(), |i: int| w.slots[i] is Some, i);
}

/// A worker of BenchEcho asks for the next number as long as there may be more round
/// trips and fewer are in flight than may be, unless the limiter holds it; and it is
/// done when there are no more numbers and none is in flight, with what it counted.
pub proof fn echo_goes_on_until_it_is_done(w: WorkerView, now: Nanos)
    requires
        w.op is Nothing,
        w.phase is Echo,
    ensures
        ({
            let e = w.phase->Echo_0;
            let (v, act) = w.drive(now);
            let held = e.wait_until matches Some(t) && now < t;
            &&& act is Done <==> e.exhausted && e.in_flight == 0
            &&& act is Done ==> act == ActView::Done(OutcomeView::Echo(e.lat)) && v.phase is Idle
            &&& act is Number <==> !e.exhausted && e.in_flight < e.slots && !held && (e.job.limited
                ==> e.granted) && e.idle.len() > 0
            &&& act is Take <==> !e.exhausted && e.in_flight < e.slots && !held && e.job.limited
                && !e.granted
            &&& act is Take ==> act == ActView::Take(1)
            &&& !(act is Done) ==> v.phase is Echo && v.phase->Echo_0.lat == e.lat
                && v.phase->Echo_0.in_flight == e.in_flight && v.phase->Echo_0.idle == e.idle
                && v.phase->Echo_0.job == e.job
            &&& v.slots == w.slots
        }),
{
}

/// The round trip with a number below as many as there are to be goes, from now on,
/// to the connection that has been idle longest, with the payload whose turn it is;
/// a number that is not ends the numbering, and nothing is sent.
pub proof fn a_round_trip_is_sent(w: WorkerView, n: u64, now: Nanos)
    requires
        w.op is Nothing,
        w.phase is Echo,
        w.phase->Echo_0.idle.len() > 0,
        w.phase->Echo_0.job.payloads.len() > 0,
        w.phase->Echo_0.job.payloads.len() <= u64::MAX,
    ensures
        ({
            let e = w.phase->Echo_0;
            let idx = e.idle[0];
            let v = w.issue(n, now);
            let p = e.job.payloads;
            &&& n >= e.job.times ==> {
                &&& v.op is Nothing && v.slots == w.slots
                &&& v.phase matches PhaseView::Echo(f) && f.exhausted && f.in_flight == e.in_flight
                    && f.idle == e.idle && f.lat == e.lat
            }
            &&& n < e.job.times && (w.conn(idx as int) matches Some(c) && c.state is Ready && c.h3
                && c.queued.len() == 0) ==> {
                &&& exists|q: nat, k: int|
                    0 <= k < p.len() && n == #[trigger] (q * p.len()) + k && v.op == (OpView::Send {
                        idx,
                        kind: ReqKind::Echo { start: now },
                        body: #[trigger] p[k],
                        queued: false,
                    })
                &&& v.slots == w.slots
                &&& v.phase matches PhaseView::Echo(f) && f.in_flight == e.in_flight + 1 && f.idle
                    == e.idle.skip(1) && f.lat == e.lat && !f.exhausted == !e.exhausted
            }
            &&& n < e.job.times && (w.conn(idx as int) matches Some(c) && c.state is Broken) ==> {
                &&& v.op == OpView::Dial(
                    DialJob {
                        start: now,
                        attempt: 1,
                        purpose: Purpose::RedialEcho { start: now },
                        slot: Some(idx),
                    },
                )
                &&& v.phase matches PhaseView::Echo(f) && f.in_flight == e.in_flight + 1 && f.lat
                    == e.lat
            }
        }),
{
    let e = w.phase->Echo_0;
    let p = e.job.payloads;
    let len = p.len() as int;
    let k = n as int % len;
    let q = (n as int / len) as nat;
    vstd::arithmetic::div_mod::lemma_fundamental_div_mod(n as int, len);
    assert(n == q * p.len() + k) by (nonlinear_arith)
        requires
            n == len * q + k,
            len == p.len(),
    ;
    assert(p[k] == p[k]);
    assert(e.idle.drop_first() =~= e.idle.skip(1));
}

/// A round trip that was answered well counts as one success that took as long as
/// from when it began; one that failed counts as one failure for its reason. Either
/// way its connection is the last of the idle ones, and one fewer is in flight. Where
/// nothing is to be measured, nothing is counted.
pub proof fn a_round_trip_is_counted(
    w: WorkerView,
    idx: usize,
    start: Nanos,
    result: Result<usize, Seq<char>>,
    now: Nanos,
)
    requires
        w.events.len() > 0,
        w.events[0] == (idx, EventView::Response { kind: ReqKind::Echo { start }, result }),
        w.phase is Echo,
        w.phase->Echo_0.in_flight > 0,
        start <= now,
        now - start <= i64::MAX,
    ensures
        ({
            let e = w.phase->Echo_0;
            let v = w.next_event(now);
            &&& v.phase matches PhaseView::Echo(f)
            &&& f.in_flight == e.in_flight - 1
            &&& f.idle == e.idle.push(idx)
            &&& f.job == e.job && f.slots == e.slots && f.exhausted == e.exhausted
            &&& v.events == w.events.skip(1)
            &&& v.slots == w.slots
            &&& v.op == w.op
            &&& !e.job.measure ==> f.lat == e.lat
            &&& e.job.measure && result is Ok ==> {
                &&& f.lat.success == e.lat.success + 1
                &&& f.lat.costs.drop_last() == e.lat.costs
                &&& f.lat.costs.last() == now - start
                &&& f.lat.failed == e.lat.failed && f.lat.errors == e.lat.errors
            }
            &&& e.job.measure ==> (result matches Err(why) ==> {
                &&& f.lat.failed == e.lat.failed + 1
                &&& f.lat.success == e.lat.success && f.lat.costs == e.lat.costs
                &&& f.lat.errors.contains_key(why)
                &&& f.lat.errors[why] == (if e.lat.errors.contains_key(why) {
                    e.lat.errors[why] + 1
                } else {
                    1
                })
            })
        }),
{
    let e = w.phase->Echo_0;
    stats::a_success_is_recorded_as_it_was(e.lat, (now - start) as nat);
    assert(w.events.drop_first() =~= w.events.skip(1));
}

/// A round trip whose connection had to be dialed again goes out when that is up, with
/// the first payload, and counts from when it began, the dial with it; if the dial is
/// given up, it fails for that reason.
pub proof fn a_redialed_round_trip_counts_from_its_start(
    w: WorkerView,
    idx: usize,
    start: Nanos,
    err: Seq<char>,
    now: Nanos,
)
    requires
        w.phase is Echo,
        w.phase->Echo_0.in_flight > 0,
        w.phase->Echo_0.job.payloads.len() > 0,
    ensures
        w.op is Nothing && (w.conn(idx as int) matches Some(c) && c.h3 && c.queued.len() == 0 && (
        c.dial matches Some(job) && job.purpose == (Purpose::RedialEcho { start }))) ==> {
            let v = w.dial_ok(idx, now);
            &&& v.op == (OpView::Send {
                idx,
                kind: ReqKind::Echo { start },
                body: w.phase->Echo_0.job.payloads[0],
                queued: false,
            })
            &&& v.conn(idx as int)->Some_0.state is Ready
            &&& v.ready == w.ready + 1
            &&& v.connected == w.connected
            &&& v.phase == w.phase
        },
        forall|job: DialJob|
            #![trigger w.dial_failed_job(job, err, now)]
            job.attempt >= w.limits.dial_retries && job.purpose == (Purpose::RedialEcho { start })
                && job.slot == Some(idx) && w.phase->Echo_0.job.measure ==> {
                let f = w.dial_failed_job(job, err, now).phase->Echo_0;
                let e = w.phase->Echo_0;
                &&& f.in_flight == e.in_flight - 1
                &&& f.idle == e.idle.push(idx)
                &&& f.lat.failed == e.lat.failed + 1
                &&& f.lat.success == e.lat.success
                &&& f.lat.errors.contains_key("redial: "@ + err)
            },
{
}

/// The limiter lets the next round trip through at once, or holds the worker for as
/// long as it says and no longer.
pub proof fn the_limiter_holds_a_round_trip(w: WorkerView, t: Nanos, now: Nanos, then: Nanos)
    requires
        w.op is Nothing,
        w.phase matches PhaseView::Echo(e) && !e.exhausted && e.in_flight < e.slots && e.idle.len()
            > 0 && e.job.limited && !e.granted && e.wait_until is None,
        now + t <= u128::MAX,
    ensures
        w.drive(now).1 == ActView::Take(1),
        w.tokens(None, now).drive(now).1 is Number,
        then < now + t ==> w.tokens(Some(t), now).drive(then).1 is Rest,
        then >= now + t ==> w.tokens(Some(t), now).drive(then).1 == ActView::Take(1),
{
}

// ---------------------------------------------------------------------------
// Requests.

/// A request that went out is the one its stream carries from then on, with the body
/// that it is to bring back, and nothing of the answer in; what of its body did not
/// go out waits, from where it was left. The connection owes a flush. A first GET is
/// to bring nothing back.
pub proof fn a_request_that_went_out_is_awaited(
    w: WorkerView,
    idx: usize,
    kind: ReqKind,
    body: Seq<u8>,
    queued: bool,
    stream: u64,
    off: usize,
    now: Nanos,
)
    requires
        w.op == (OpView::Send { idx, kind, body, queued }),
        w.conn(idx as int) is Some,
    ensures
        ({
            let v = w.transmitted(SentView::Out { stream, off }, now);
            let c = w.conn(idx as int)->Some_0;
            &&& v.op is Nothing
            &&& v.conn(idx as int) matches Some(d)
            &&& d.has(stream)
            &&& d.req(stream).stream == stream
            &&& d.req(stream).kind == kind
            &&& kind is Dial ==> d.req(stream).expect.len() == 0
            &&& !(kind is Dial) ==> d.req(stream).expect == body
            &&& d.req(stream).got == 0 && d.req(stream).status == 0 && !d.req(stream).mismatch
            &&& off >= body.len() ==> d.pending == c.pending
            &&& off < body.len() ==> d.pending == c.pending.push(PendingView { stream, body, off })
            &&& d.queued == c.queued && d.state == c.state
            &&& d.dirty
            &&& !(kind is Rate) ==> d.in_flight == c.in_flight && v.phase == w.phase
            &&& kind is Rate && c.in_flight < u64::MAX ==> d.in_flight == c.in_flight + 1
            &&& forall|i: int| i != idx ==> #[trigger] v.conn(i) == w.conn(i)
        }),
{
    let c = w.conn(idx as int)->Some_0;
    let v = w.transmitted(SentView::Out { stream, off }, now);
    let d = v.conn(idx as int)->Some_0;
    conn::lemma_place(c.streams, stream);
    let k = conn::place_of(c.streams, stream) as int;
    assert(d.streams[k].stream == stream);
    assert forall|i: int| 0 <= i < k implies (#[trigger] d.streams[i]).stream != stream by {
        assert(d.streams[i] == c.streams[i]);
    }
    conn::lemma_place(d.streams, stream);
    let at = conn::place_of(d.streams, stream) as int;
    assert(at == k) by {
        if at < k {
            assert(d.streams[at].stream != stream);
        } else if at > k {
            assert(d.streams[k].stream != stream);
        }
    }
    assert forall|i: int| i != idx implies #[trigger] v.conn(i) == w.conn(i) by {}
}

/// A round trip or a first GET that finds no room waits on its connection: behind
/// those that wait there already, or in front of them again if it was one of them.
/// Those that wait go out in the order in which they came, and a new one waits behind
/// them.
pub proof fn requests_wait_in_turn(
    w: WorkerView,
    idx: usize,
    kind: ReqKind,
    body: Seq<u8>,
    queued: bool,
    now: Nanos,
)
    requires
        w.conn(idx as int) is Some,
        !(kind is Rate),
    ensures
        ({
            let q = QueuedView { kind, body };
            let c = w.conn(idx as int)->Some_0;
            &&& w.op == (OpView::Send { idx, kind, body, queued }) ==> {
                let v = w.transmitted(SentView::Blocked, now);
                &&& v.op is Nothing && v.phase == w.phase
                &&& v.conn(idx as int) matches Some(d)
                &&& queued ==> d.queued == seq![q] + c.queued
                &&& !queued ==> d.queued == c.queued.push(q)
            }
            &&& w.op is Nothing && c.queued.len() > 0 ==> {
                let v = w.send_request(idx, kind, body, now);
                &&& v.op is Nothing && v.phase == w.phase
                &&& v.conn(idx as int) matches Some(d)
                &&& d.queued == c.queued.push(q)
            }
            &&& w.op is Nothing && c.queued.len() > 0 && c.h3 ==> {
                let v = w.send_queued(idx, now);
                &&& v.op == (OpView::Send {
                    idx,
                    kind: c.queued[0].kind,
                    body: c.queued[0].body,
                    queued: true,
                })
                &&& v.conn(idx as int) matches Some(d)
                &&& d.queued == c.queued.skip(1)
            }
            &&& w.op is Nothing && c.queued.len() == 0 && c.h3 ==> w.send_request(
                idx,
                kind,
                body,
                now,
            ) == w.with_op(OpView::Send { idx, kind, body, queued: false })
        }),
{
    let c = w.conn(idx as int)->Some_0;
    if c.queued.len() > 0 {
        assert(c.queued.drop_first() =~= c.queued.skip(1));
    }
}

/// A request that the transport refuses ends what it was for, and says whether its
/// headers or its body failed: a round trip fails.
pub proof fn a_refused_request_fails_its_round_trip(
    w: WorkerView,
    idx: usize,
    start: Nanos,
    body: Seq<u8>,
    queued: bool,
    err: Seq<char>,
    now: Nanos,
)
    requires
        w.op == (OpView::Send { idx, kind: ReqKind::Echo { start }, body, queued }),
        w.conn(idx as int) is Some,
        w.phase matches PhaseView::Echo(e) && e.in_flight > 0 && e.job.measure,
    ensures
        ({
            let e = w.phase->Echo_0;
            let f = w.transmitted(SentView::HeadersFailed(err), now).phase->Echo_0;
            let g = w.transmitted(SentView::BodyFailed(err), now).phase->Echo_0;
            &&& f.in_flight == e.in_flight - 1 && g.in_flight == e.in_flight - 1
            &&& f.idle == e.idle.push(idx) && g.idle == e.idle.push(idx)
            &&& f.lat.failed == e.lat.failed + 1 && g.lat.failed == e.lat.failed + 1
            &&& f.lat.success == e.lat.success && g.lat.success == e.lat.success
            &&& f.lat.errors.contains_key("send request: "@ + err)
            &&& g.lat.errors.contains_key("send body: "@ + err)
        }),
{
}

// ---------------------------------------------------------------------------
// Connections that close.

/// A connection that was up and closes is broken and no longer counts as up; its
/// requests were failed first, in order, and it carries none any more.
pub proof fn a_closed_connection_is_broken(w: WorkerView, idx: usize, reason: Seq<char>, now: Nanos)
    requires
        w.conn(idx as int) matches Some(c) && c.socket_error is None,
    ensures
        ({
            let c = w.conn(idx as int)->Some_0;
            let v = w.begin(idx, Some(reason), true).0;
            let n = c.queued.len() + c.streams.len();
            &&& v.conn(idx as int) matches Some(d) && d.streams.len() == 0 && d.queued.len() == 0
                && d.pending.len() == 0
            &&& v.events.len() == w.events.len() + n + 1
            &&& v.events.take(w.events.len() as int) == w.events
            &&& v.events.last() == (idx, EventView::Closed(reason))
            &&& forall|i: int|
                0 <= i < n ==> (#[trigger] v.events[w.events.len() + i]) == (
                    idx,
                    c.failures(reason)[i],
                )
        }),
        w.conn(idx as int)->Some_0.state is Ready && w.ready > 0 ==> {
            let v = w.event(idx, EventView::Closed(reason), now);
            &&& v.ready == w.ready - 1
            &&& v.conn(idx as int) matches Some(d) && d.state is Broken
            &&& v.phase == w.phase
        },
        w.conn(idx as int)->Some_0.state is Broken ==> w.event(idx, EventView::Closed(reason), now)
            == w,
        w.conn(idx as int)->Some_0.state is Connecting ==> w.event(
            idx,
            EventView::Closed(reason),
            now,
        ) == w.dial_failed(idx, reason, now),
{
    let c = w.conn(idx as int)->Some_0;
    let v = w.begin(idx, Some(reason), true).0;
    conn::a_closed_connection_fails_its_requests(c, reason, 0);
    assert(v.events.take(w.events.len() as int) =~= w.events);
}

// ---------------------------------------------------------------------------
// BenchMultiplex.

/// BenchMultiplex begins by dialing every broken connection again, once each.
pub proof fn broken_connections_are_dialed_again(w: WorkerView, job: RateView, i: usize, now: Nanos)
    requires
        w.op is Nothing,
        w.slots.len() <= usize::MAX,
    ensures
        ({
            let v = w.start_rate(job);
            &&& v.phase matches PhaseView::RatePrep(p)
            &&& p.job == job
            &&& p.todo.contains(i) <==> (w.conn(i as int) matches Some(c) && c.state is Broken)
            &&& p.todo.no_duplicates()
            &&& p.redials == p.todo.len()
            &&& p.todo.len() > 0 ==> {
                let (u, act) = v.drive(now);
                &&& act is Open
                &&& u.op == OpView::Dial(
                    DialJob {
                        start: now,
                        attempt: 1,
                        purpose: Purpose::RedialRate,
                        slot: Some(p.todo[0]),
                    },
                )
                &&& u.phase->RatePrep_0.todo == p.todo.skip(1)
            }
        }),
{
    let f = |i: int| w.slots[i] is Some && w.slots[i]->Some_0.state == State::Broken;
    indices_are_those_wanted(w.slots.len(), f, i);
    let p = w.start_rate(job).phase->RatePrep_0;
    if p.todo.len() > 0 {
        assert(p.todo.drop_first() =~= p.todo.skip(1));
    }
}

/// With nothing left to dial, BenchMultiplex runs from now for its duration, on the
/// connections that are up, with nothing unanswered and nothing counted; its first
/// tick comes after the time of one.
pub proof fn multiplex_runs_for_its_duration(w: WorkerView, i: usize, now: Nanos)
    requires
        w.op is Nothing,
        w.slots.len() <= usize::MAX,
        w.phase matches PhaseView::RatePrep(p) && p.todo.len() == 0 && p.redials == 0 && now
            + p.job.duration <= u128::MAX && now + p.job.tick <= u128::MAX,
    ensures
        ({
            let p = w.phase->RatePrep_0;
            let (v, act) = w.drive(now);
            &&& act is Rest
            &&& v.phase matches PhaseView::Rate(r)
            &&& r.job == p.job
            &&& r.deadline == now + p.job.duration
            &&& r.next_tick == now + p.job.tick
            &&& r.grace_until is None
            &&& r.tick is None
            &&& r.counts.send_times == 0 && r.counts.send_bytes == 0 && r.counts.recv_times == 0
                && r.counts.recv_bytes == 0 && r.counts.answered == 0
            &&& r.conns.contains(i) <==> (w.conn(i as int) matches Some(c) && c.state is Ready)
            &&& r.conns.contains(i) ==> v.conn(i as int)->Some_0.in_flight == 0
        }),
{
    let f = |i: int| w.slots[i] is Some && w.slots[i]->Some_0.state == State::Ready;
    indices_are_those_wanted(w.slots.len(), f, i);
}

/// Ticks come a tick apart from the first: the one after now is a whole number of
/// ticks after the last, and the first of those that is not past.
pub proof fn ticks_keep_their_time(w: WorkerView, now: Nanos)
    requires
        w.op is Nothing,
        w.phase matches PhaseView::Rate(r) && r.tick is None && r.grace_until is None && now
            < r.deadline && r.next_tick <= now && r.job.tick > 0 && now + r.job.tick <= u128::MAX,
    ensures
        ({
            let r = w.phase->Rate_0;
            let next = w.drive(now).0.phase->Rate_0.next_tick;
            &&& now < next <= now + r.job.tick
            &&& (next - r.next_tick) % (r.job.tick as int) == 0
        }),
{
    let r = w.phase->Rate_0;
    let t = r.job.tick as int;
    let d = now - r.next_tick;
    let q = d / t;
    vstd::arithmetic::div_mod::lemma_fundamental_div_mod(d, t);
    vstd::arithmetic::div_mod::lemma_mod_bound(d, t);
    assert((q + 1) * t == t * q + t) by (nonlinear_arith);
    let next = r.next_tick + (q + 1) * t;
    assert(now < next <= now + t);
    vstd::arithmetic::div_mod::lemma_mod_multiples_basic(q + 1, t);
    assert(w.drive(now).0.phase->Rate_0.next_tick == r.tick_after(now));
}

proof fn lemma_next_place(w: WorkerView, r: model::RatePhase, k: nat)
    requires
        k <= r.conns.len(),
    ensures
        k <= w.next_place(r, k) <= r.conns.len(),
        w.next_place(r, k) < r.conns.len() ==> w.takes_batch(r, w.next_place(r, k) as int),
        forall|j: int| k <= j < w.next_place(r, k) ==> !#[trigger] w.takes_batch(r, j),
    decreases r.conns.len() - k,
{
    if k < r.conns.len() && !w.takes_batch(r, k as int) {
        lemma_next_place(w, r, k + 1);
    }
}

/// Whether a connection may be sent a batch: it is up, the server takes requests on
/// it, and with the batch no more than four are unanswered.
pub open spec fn may_take(w: WorkerView, idx: usize, batch: usize) -> bool {
    w.conn(idx as int) matches Some(c) && c.state is Ready && !c.goaway && c.in_flight + batch <= 4
        * batch
}

/// A tick begins when its time has come, unless the run's is over, and goes through
/// the connections in order: it asks what streams the first one has that may be sent a
/// batch, and is over where none may. Before its time, nothing is done.
pub proof fn a_tick_goes_through_the_connections(w: WorkerView, now: Nanos)
    requires
        w.op is Nothing,
        w.phase matches PhaseView::Rate(r) && r.grace_until is None && r.conns.len() < usize::MAX,
    ensures
        ({
            let r = w.phase->Rate_0;
            let (v, act) = w.drive(now);
            let from = match r.tick {
                Some(Tick::Look(k)) => k as int,
                _ => 0,
            };
            &&& r.tick is None && now < r.next_tick && now < r.deadline ==> act is Rest && v == w
            &&& (r.tick is None && r.next_tick <= now < r.deadline) || (r.tick matches Some(
                Tick::Look(k),
            ) && k <= r.conns.len()) ==> {
                &&& act is Rest || act is Streams
                &&& act is Rest ==> v.phase->Rate_0.tick is None && forall|j: int|
                    from <= j < r.conns.len() ==> !may_take(w, #[trigger] r.conns[j], r.job.batch)
                &&& act matches ActView::Streams(idx) ==> (v.phase->Rate_0.tick matches Some(
                    Tick::Streams(at),
                ) && from <= at < r.conns.len() && r.conns[at as int] == idx && may_take(
                    w,
                    idx,
                    r.job.batch,
                ) && forall|j: int|
                    from <= j < at ==> !may_take(w, #[trigger] r.conns[j], r.job.batch))
                &&& v.phase->Rate_0.counts == r.counts && v.slots == w.slots
                &&& v.phase->Rate_0.conns == r.conns && v.phase->Rate_0.job == r.job
            }
        }),
{
    let r = w.phase->Rate_0;
    let (v, act) = w.drive(now);
    let from = match r.tick {
        Some(Tick::Look(k)) => k as int,
        _ => 0,
    };
    if (r.tick is None && r.next_tick <= now < r.deadline) || (r.tick matches Some(Tick::Look(k))
        && k <= r.conns.len()) {
        let s = if r.tick is None {
            model::RatePhase { next_tick: r.tick_after(now), ..r }
        } else {
            r
        };
        lemma_next_place(w, s, from as nat);
        assert forall|j: int| 0 <= j < r.conns.len() implies #[trigger] may_take(
            w,
            r.conns[j],
            r.job.batch,
        ) == w.takes_batch(s, j) by {
            assert(r.job.batch * model::MAX_BATCHES_IN_FLIGHT == 4 * r.job.batch);
        }
        let at = w.next_place(s, from as nat) as int;
        if at < r.conns.len() {
            assert(may_take(w, r.conns[at], r.job.batch));
        }
        assert forall|j: int| from <= j < at implies !may_take(
            w,
            #[trigger] r.conns[j],
            r.job.batch,
        ) by {
            assert(!w.takes_batch(s, j));
        }
    }
}

/// A connection that the server leaves enough streams is sent the whole batch, once
/// the limiter lets it through if there is one: as many requests as the batch has,
/// each of the payload, one after another; and then the tick goes on with the
/// connection behind it. What the limiter does not let through is left out.
pub proof fn a_whole_batch_goes_out(w: WorkerView, at: usize, n: u64, left: usize, now: Nanos)
    requires
        w.op is Nothing,
        w.phase is Rate,
        at < w.phase->Rate_0.conns.len(),
        w.phase->Rate_0.conns.len() < usize::MAX,
        w.phase->Rate_0.job.batch > 0,
        w.phase->Rate_0.tick is Some,
    ensures
        ({
            let r = w.phase->Rate_0;
            let t = r.tick->Some_0;
            let idx = r.conns[at as int];
            let batch = r.job.batch;
            &&& t == Tick::Streams(at) && n >= batch && !r.job.limited ==> w.streams_left(
                n,
            ).phase->Rate_0.tick == Some(Tick::Sending { at, left: batch })
            &&& t == Tick::Streams(at) && n >= batch && r.job.limited ==> w.streams_left(n).drive(
                now,
            ).1 == ActView::Take(batch) && w.streams_left(n).tokens(None, now).phase->Rate_0.tick
                == Some(Tick::Sending { at, left: batch }) && w.streams_left(n).tokens(
                Some(1),
                now,
            ).phase->Rate_0.tick == Some(Tick::Look((at + 1) as usize))
            &&& t == Tick::Streams(at) && n < batch ==> w.streams_left(n).phase->Rate_0.tick == Some(
                Tick::Look((at + 1) as usize),
            )
            &&& t == (Tick::Sending { at, left }) && (w.conn(idx as int) matches Some(c) && c.h3)
                ==> w.drive(now).1 is Transmit && w.drive(now).0.op == (OpView::Send {
                idx,
                kind: ReqKind::Rate,
                body: r.job.payload,
                queued: false,
            })
        }),
{
}

/// A request of a batch that went out counts once, with the bytes of its payload, is
/// unanswered on its connection, and leaves one fewer of the batch to send; behind the
/// last, the tick goes on with the next connection. One that did not go out counts as
/// nothing, and the rest of the batch is left out.
pub proof fn a_request_of_a_batch_is_counted(
    w: WorkerView,
    idx: usize,
    at: usize,
    left: usize,
    stream: u64,
    off: usize,
    why: Seq<char>,
    now: Nanos,
)
    requires
        w.phase matches PhaseView::Rate(r) && r.tick == Some(Tick::Sending { at, left }) && left > 0
            && at < usize::MAX && r.counts.send_times < u64::MAX && r.counts.send_bytes
            + r.job.payload.len() <= u64::MAX && w.op == (OpView::Send {
            idx,
            kind: ReqKind::Rate,
            body: r.job.payload,
            queued: false,
        }),
        w.conn(idx as int) matches Some(c) && c.in_flight < u64::MAX,
    ensures
        ({
            let r = w.phase->Rate_0;
            let v = w.transmitted(SentView::Out { stream, off }, now);
            let s = v.phase->Rate_0;
            &&& v.phase is Rate
            &&& s.counts.send_times == r.counts.send_times + 1
            &&& s.counts.send_bytes == r.counts.send_bytes + r.job.payload.len()
            &&& s.counts.recv_times == r.counts.recv_times && s.counts.recv_bytes
                == r.counts.recv_bytes && s.counts.answered == r.counts.answered
            &&& v.conn(idx as int)->Some_0.in_flight == w.conn(idx as int)->Some_0.in_flight + 1
            &&& left > 1 ==> s.tick == Some(Tick::Sending { at, left: (left - 1) as usize })
            &&& left == 1 ==> s.tick == Some(Tick::Look((at + 1) as usize))
            &&& forall|sent: SentView|
                sent is Blocked || sent is HeadersFailed || sent is BodyFailed
                    ==> #[trigger] w.transmitted(sent, now).phase->Rate_0.counts == r.counts
                    && w.transmitted(sent, now).phase->Rate_0.tick == Some(
                    Tick::Look((at + 1) as usize),
                ) && w.transmitted(sent, now).conn(idx as int)->Some_0.in_flight == w.conn(
                    idx as int,
                )->Some_0.in_flight && w.transmitted(sent, now).conn(idx as int)->Some_0.queued
                    == w.conn(idx as int)->Some_0.queued
        }),
{
}

/// An answer to a request of a batch counts once, with its bytes, and one fewer is
/// unanswered on its connection. An answer that is not what was wanted is one that
/// came back, but is not counted as read back; a request that got none is neither.
pub proof fn an_answer_is_counted(
    w: WorkerView,
    idx: usize,
    result: Result<usize, Seq<char>>,
    now: Nanos,
)
    requires
        w.events.len() > 0,
        w.events[0] == (idx, EventView::Response { kind: ReqKind::Rate, result }),
        w.phase matches PhaseView::Rate(r) && r.counts.recv_times < u64::MAX && r.counts.answered
            < u64::MAX && (result matches Ok(n) ==> r.counts.recv_bytes + n <= u64::MAX),
        w.conn(idx as int) is Some,
    ensures
        ({
            let r = w.phase->Rate_0;
            let v = w.next_event(now);
            let s = v.phase->Rate_0;
            let c = w.conn(idx as int)->Some_0;
            &&& v.phase is Rate
            &&& s.job == r.job && s.conns == r.conns && s.tick == r.tick && s.deadline == r.deadline
            &&& s.counts.send_times == r.counts.send_times && s.counts.send_bytes
                == r.counts.send_bytes
            &&& v.conn(idx as int)->Some_0.in_flight == (if c.in_flight > 0 {
                c.in_flight - 1
            } else {
                0
            })
            &&& result matches Ok(n) ==> s.counts.recv_times == r.counts.recv_times + 1
                && s.counts.recv_bytes == r.counts.recv_bytes + n && s.counts.answered
                == r.counts.answered + 1
            &&& result matches Err(e) ==> s.counts.recv_times == r.counts.recv_times
                && s.counts.recv_bytes == r.counts.recv_bytes && s.counts.answered
                == r.counts.answered + (if "status "@.is_prefix_of(e)
                || "response body"@.is_prefix_of(e) {
                1int
            } else {
                0int
            })
        }),
{
}

/// What comes back of a benchmark that is over counts as nothing.
pub proof fn what_comes_too_late_counts_as_nothing(
    w: WorkerView,
    idx: usize,
    kind: ReqKind,
    result: Result<usize, Seq<char>>,
    now: Nanos,
)
    requires
        w.phase is Idle,
        !(kind is Dial),
    ensures
        w.event(idx, EventView::Response { kind, result }, now).phase is Idle,
        w.event(idx, EventView::Response { kind, result }, now).op == w.op,
        w.event(idx, EventView::Response { kind, result }, now).ready == w.ready,
        w.event(idx, EventView::Response { kind, result }, now).connected == w.connected,
{
}

// ---------------------------------------------------------------------------
// Sockets and time.

/// A connection is sent a PING exactly if it is up, carries no request, and neither
/// sent nor received anything for as long as it may be quiet; this is looked at once a
/// second. Each such connection owes a flush, and no other is changed.
pub proof fn quiet_connections_are_pinged(w: WorkerView, i: usize, now: Nanos)
    requires
        w.slots.len() <= usize::MAX,
        now + 1_000_000_000 <= u128::MAX,
    ensures
        w.to_ping(now).contains(i) <==> now >= w.next_keepalive && (w.conn(i as int) matches Some(c)
            && c.state is Ready && c.streams.len() == 0 && (if now > c.last_active {
            now - c.last_active
        } else {
            0
        }) >= w.limits.keepalive),
        now < w.next_keepalive ==> w.keepalive(now) == w,
        now >= w.next_keepalive ==> {
            let v = w.keepalive(now);
            &&& v.next_keepalive == now + 1_000_000_000
            &&& w.to_ping(now).contains(i) ==> v.conn(i as int)->Some_0.dirty
            &&& !w.to_ping(now).contains(i) ==> v.conn(i as int) == w.conn(i as int)
            &&& v.phase == w.phase
        },
{
    indices_are_those_wanted(w.slots.len(), |i: int| w.quiet(i, now), i);
}

/// A worker sleeps until the first of what it waits for: the next look at quiet
/// connections, its first timer, its first retry, the limiter, the next tick, the end
/// of the run, or the end of the last batch's time.
pub proof fn sleeps_until_the_first_thing(w: WorkerView)
    ensures
        w.next_wakeup() <= w.next_keepalive,
        crate::timers::first(w.timers) matches Some(t) ==> w.next_wakeup() <= t.0,
        w.retries.len() > 0 ==> w.next_wakeup() <= w.retries[0].0,
        w.phase matches PhaseView::Echo(e) ==> (e.wait_until matches Some(t) ==> w.next_wakeup()
            <= t),
        w.phase matches PhaseView::Rate(r) ==> match r.grace_until {
            Some(t) => w.next_wakeup() <= t,
            None => w.next_wakeup() <= r.next_tick && w.next_wakeup() <= r.deadline,
        },
        ({
            let t = w.next_wakeup();
            ||| t == w.next_keepalive
            ||| crate::timers::first(w.timers) matches Some(x) && x.0 == t
            ||| w.retries.len() > 0 && w.retries[0].0 == t
            ||| w.phase matches PhaseView::Echo(e) && e.wait_until == Some(t)
            ||| w.phase matches PhaseView::Rate(r) && (r.grace_until == Some(t) || r.next_tick == t
                || r.deadline == t)
        }),
{
}

/// Datagrams that came in or went out make a connection active now; an error of its
/// socket is kept until it is looked after, and then closes it. A flush is owed no
/// longer once it was made, and a full buffer drops what did not fit.
pub proof fn sockets_are_kept_track_of(
    w: WorkerView,
    idx: usize,
    err: Seq<char>,
    timeout: Option<Nanos>,
    now: Nanos,
)
    requires
        w.conn(idx as int) is Some,
    ensures
        ({
            let c = w.conn(idx as int)->Some_0;
            let in_good = w.received(idx, true, None, now).conn(idx as int)->Some_0;
            let in_bad = w.received(idx, false, Some(err), now).conn(idx as int)->Some_0;
            let out = w.flushed(idx, true, FlushView::Empty, timeout, now);
            let full = w.flushed(idx, false, FlushView::Full, timeout, now);
            let bad = w.flushed(idx, false, FlushView::SocketFailed(err), timeout, now);
            let worse = w.flushed(idx, false, FlushView::TransportFailed(err), timeout, now);
            &&& in_good.last_active == now && in_good.socket_error == c.socket_error
            &&& in_bad.last_active == c.last_active && in_bad.socket_error == Some("recv: "@ + err)
            &&& out.conn(idx as int)->Some_0.last_active == now
            &&& out.conn(idx as int)->Some_0.socket_error == c.socket_error
            &&& full.conn(idx as int)->Some_0.last_active == c.last_active
            &&& full.dropped == w.dropped + 1
            &&& out.dropped == w.dropped && bad.dropped == w.dropped && worse.dropped == w.dropped
            &&& bad.conn(idx as int)->Some_0.socket_error == Some("send: "@ + err)
            &&& worse.conn(idx as int)->Some_0.socket_error == Some("quiche send: "@ + err)
            &&& !out.conn(idx as int)->Some_0.dirty && !full.conn(idx as int)->Some_0.dirty
            &&& out.phase == w.phase
            &&& out.conn(idx as int)->Some_0.deadline == (match (timeout, c.attempt_deadline) {
                (Some(a), Some(b)) => Some(
                    if a < b {
                        a
                    } else {
                        b
                    },
                ),
                (Some(a), None) => Some(a),
                (None, b) => b,
            })
            &&& c.socket_error matches Some(e) ==> {
                let v = w.begin(idx, None, true);
                &&& v.1 is Close
                &&& v.0.events.last() == (idx, EventView::Closed(e))
                &&& v.0.conn(idx as int)->Some_0.socket_error is None
            }
        }),
{
}

} // verus!
