//! What holds of a worker's slots over everything that happens to it.

use vstd::prelude::*;

use crate::engine::conn::{EventView, Nanos, Purpose, ReqKind, State};
use crate::engine::laws;
use crate::engine::model::{Limits, OpView, PhaseView, SentView, WorkerView};
use crate::engine::trace;
use crate::engine::trace::Input;

verus! {

/// Whether every slot of a worker holds a connection or can be taken.
pub open spec fn none_lost(w: WorkerView) -> bool {
    forall|i: usize|
        0 <= i < w.slots.len() ==> #[trigger] laws::is_occupied(w, i as int) || w.free.contains(i)
}

/// Connections stay in their slots, and no slot that could be taken was.
proof fn lemma_kept(w: WorkerView, v: WorkerView)
    requires
        none_lost(w),
        v.free == w.free,
        v.slots.len() == w.slots.len(),
        forall|i: int| 0 <= i < w.slots.len() && w.slots[i] is Some ==> (#[trigger] v.slots[i]) is Some,
    ensures
        none_lost(v),
{
    assert forall|i: usize| 0 <= i < v.slots.len() implies #[trigger] laws::is_occupied(v, i as int)
        || v.free.contains(i) by {
        assert(laws::is_occupied(w, i as int) || w.free.contains(i));
    }
}

proof fn lemma_kept_failed(w: WorkerView, idx: usize, err: Seq<char>, now: Nanos)
    requires
        none_lost(w),
    ensures
        none_lost(w.dial_failed(idx, err, now)),
{
    let v = w.dial_failed(idx, err, now);
    match w.conn(idx as int) {
        Some(c) => match c.dial {
            Some(job) => {
                if job.purpose == Purpose::New {
                    assert(v.free == w.free.push(idx));
                    assert(v.slots == w.slots.update(idx as int, None));
                    assert forall|i: usize| 0 <= i < v.slots.len() implies #[trigger] laws::is_occupied(
                        v,
                        i as int,
                    ) || v.free.contains(i) by {
                        if i == idx {
                            assert(v.free[w.free.len() as int] == i);
                        } else if w.free.contains(i) {
                            let a = choose|a: int| 0 <= a < w.free.len() && w.free[a] == i;
                            assert(v.free[a] == i);
                        } else {
                            assert(laws::is_occupied(w, i as int));
                        }
                    }
                } else {
                    lemma_kept(w, v);
                }
            },
            None => {},
        },
        None => {},
    }
}

proof fn lemma_kept_send_failed(
    w: WorkerView,
    idx: usize,
    kind: ReqKind,
    err: Seq<char>,
    now: Nanos,
)
    requires
        none_lost(w),
    ensures
        none_lost(w.send_failed(idx, kind, err, now)),
{
    match kind {
        ReqKind::Dial => {
            lemma_kept_failed(w, idx, err, now);
        },
        _ => {
            lemma_kept(w, w.send_failed(idx, kind, err, now));
        },
    }
}

proof fn lemma_kept_request(w: WorkerView, idx: usize, kind: ReqKind, body: Seq<u8>, now: Nanos)
    requires
        none_lost(w),
    ensures
        none_lost(w.send_request(idx, kind, body, now)),
{
    let err = "no HTTP/3 connection"@;
    lemma_kept_send_failed(w, idx, kind, err, now);
    let v = w.send_request(idx, kind, body, now);
    if v != w.send_failed(idx, kind, err, now) {
        lemma_kept(w, v);
    }
}

proof fn lemma_kept_up(w: WorkerView, idx: usize, now: Nanos)
    requires
        none_lost(w),
    ensures
        none_lost(w.dial_ok(idx, now)),
{
    match w.conn(idx as int) {
        Some(c) => match c.dial {
            Some(job) => {
                let v = WorkerView { ready: w.ready + 1, ..w.with_conn(idx as int, c.come_up()) };
                lemma_kept(w, v);
                match (job.purpose, w.phase) {
                    (Purpose::RedialEcho { start }, PhaseView::Echo(e)) => {
                        lemma_kept_request(
                            v,
                            idx,
                            ReqKind::Echo { start },
                            e.job.payloads[0],
                            now,
                        );
                    },
                    _ => {
                        lemma_kept(w, w.dial_ok(idx, now));
                    },
                }
            },
            None => {},
        },
        None => {},
    }
}

proof fn lemma_kept_event(w: WorkerView, now: Nanos)
    requires
        none_lost(w),
    ensures
        none_lost(w.next_event(now)),
{
    if w.events.len() > 0 {
        let (idx, ev) = w.events[0];
        let v = WorkerView { events: w.events.drop_first(), ..w };
        lemma_kept(w, v);
        match ev {
            EventView::Established => {
                lemma_kept_request(v, idx, ReqKind::Dial, Seq::empty(), now);
            },
            EventView::Response { kind, result } => match kind {
                ReqKind::Dial => match result {
                    Ok(_) => {
                        lemma_kept_up(v, idx, now);
                    },
                    Err(e) => {
                        lemma_kept_failed(v, idx, e, now);
                    },
                },
                _ => {
                    lemma_kept(w, w.next_event(now));
                },
            },
            EventView::Closed(reason) => {
                lemma_kept_failed(v, idx, reason, now);
                let u = w.next_event(now);
                if u != v.dial_failed(idx, reason, now) {
                    lemma_kept(w, u);
                }
            },
        }
    }
}

proof fn lemma_kept_transmitted(w: WorkerView, sent: SentView, now: Nanos)
    requires
        none_lost(w),
        w.op is Send,
    ensures
        none_lost(w.transmitted(sent, now)),
{
    match w.op {
        OpView::Send { idx, kind, body, queued } => {
            let x = w.with_op(OpView::Nothing);
            let y = x.mark_dirty(idx as int);
            lemma_kept(w, x);
            lemma_kept(x, y);
            match sent {
                SentView::Blocked => {
                    lemma_kept_send_failed(x, idx, kind, Seq::empty(), now);
                    let v = w.transmitted(sent, now);
                    if v != x.send_failed(idx, kind, Seq::empty(), now) {
                        lemma_kept(x, v);
                    }
                },
                SentView::HeadersFailed(e) => {
                    lemma_kept_send_failed(y, idx, kind, "send request: "@ + e, now);
                },
                SentView::BodyFailed(e) => {
                    lemma_kept_send_failed(y, idx, kind, "send body: "@ + e, now);
                },
                SentView::Out { stream, off } => {
                    lemma_kept(x, w.transmitted(sent, now));
                },
            }
        },
        _ => {},
    }
}

proof fn lemma_kept_timer(w: WorkerView, now: Nanos, timeout: Option<Nanos>, established: bool)
    requires
        none_lost(w),
        w.timer_due(now) is Some,
    ensures
        none_lost(w.fire_timer(now, timeout, established).0),
{
    let t = crate::timers::first(w.timers)->Some_0;
    let idx = t.1;
    let c = w.slots[idx as int]->Some_0;
    let v = WorkerView {
        timers: w.timers.remove(t),
        ..w.with_conn(idx as int, crate::engine::conn::ConnView { scheduled: None, ..c })
    };
    lemma_kept(w, v);
    if !(c.deadline matches Some(d) && d <= now) {
        lemma_kept(v, v.schedule(idx, timeout));
    } else if c.state == State::Connecting && (c.attempt_deadline matches Some(a) && a <= now) {
        lemma_kept_failed(v, idx, "timeout waiting for the first response"@, now);
        lemma_kept_failed(v, idx, "handshake timeout"@, now);
    } else {
        lemma_kept(v, v.mark_dirty(idx as int));
    }
}

proof fn lemma_kept_issue(w: WorkerView, n: u64, now: Nanos)
    requires
        none_lost(w),
        w.op is Nothing,
        laws::wants_number(w),
    ensures
        none_lost(w.issue(n, now)),
{
    let e = w.phase->Echo_0;
    let u = w.issue(n, now);
    if n < e.job.times {
        let v = laws::taken_up(w);
        let kind = ReqKind::Echo { start: now };
        let body = e.job.payloads[(n % (e.job.payloads.len() as u64)) as int];
        lemma_kept(w, v);
        lemma_kept_request(v, e.idle[0], kind, body, now);
        if u != v.send_request(e.idle[0], kind, body, now) {
            lemma_kept(w, u);
        }
    } else {
        lemma_kept(w, u);
    }
}

proof fn lemma_kept_queued(w: WorkerView, idx: usize, now: Nanos)
    requires
        none_lost(w),
    ensures
        none_lost(w.send_queued(idx, now)),
{
    match w.conn(idx as int) {
        Some(c) => if c.queued.len() > 0 {
            let v = w.with_conn(idx as int, c.with_queued(c.queued.drop_first()));
            let err = "no HTTP/3 connection"@;
            lemma_kept(w, v);
            lemma_kept_send_failed(v, idx, c.queued[0].kind, err, now);
            let u = w.send_queued(idx, now);
            if u != v.send_failed(idx, c.queued[0].kind, err, now) {
                lemma_kept(w, u);
            }
        },
        None => {},
    }
}

proof fn lemma_kept_opened(w: WorkerView, now: Nanos)
    requires
        none_lost(w),
        laws::inv(w),
        w.op is Dial,
        w.slots.len() < usize::MAX,
    ensures
        none_lost(w.dial_opened(now)),
{
    let job = w.op->Dial_0;
    let idx = w.slot_for(job);
    let v = w.dial_opened(now);
    match job.slot {
        Some(i) => {
            laws::lemma_redial_slot(w, job, i);
        },
        None => if w.free.len() > 0 {
            laws::lemma_free_slot(w);
        },
    }
    assert forall|i: usize| 0 <= i < v.slots.len() implies #[trigger] laws::is_occupied(v, i as int)
        || v.free.contains(i) by {
        if i != idx {
            assert(v.slots[i as int] == w.slots[i as int]);
            assert(laws::is_occupied(w, i as int) || w.free.contains(i));
            if w.free.contains(i) {
                let a = choose|a: int| 0 <= a < w.free.len() && w.free[a] == i;
                assert(v.free[a] == i);
            }
        }
    }
}

proof fn lemma_kept_conn(w: WorkerView, x: Input)
    requires
        none_lost(w),
        x is Begin || x is SetUp || x is Polled || x is BodySent || x is ReadOut || x is Received
            || x is Flushed,
    ensures
        none_lost(trace::step(w, x)),
{
    lemma_kept(w, trace::step(w, x));
}

proof fn lemma_kept_drive(w: WorkerView, now: Nanos)
    requires
        none_lost(w),
    ensures
        none_lost(w.drive(now).0),
{
    let v = w.drive(now).0;
    match w.phase {
        PhaseView::Rate(r) => {
            assert(v.slots == w.slots);
            assert(v.free == w.free);
        },
        _ => {},
    }
    lemma_kept(w, v);
}

proof fn lemma_kept_rest(w: WorkerView, x: Input)
    requires
        none_lost(w),
        x is StartDial || x is StartEcho || x is StartRate || x is Tokens || x is StreamsLeft
            || x is DialRefused || x is FireRetry || x is NextDirty || x is TimerDue || x is Keepalive
            || x is TakeNotes,
    ensures
        none_lost(trace::step(w, x)),
{
    lemma_kept(w, trace::step(w, x));
}

proof fn lemma_kept_step(w: WorkerView, x: Input)
    requires
        none_lost(w),
        laws::inv(w),
        trace::allowed(w, x),
        !(x is DialUnregistered),
    ensures
        none_lost(trace::step(w, x)),
{
    match x {
        Input::Issue { n, now } => {
            lemma_kept_issue(w, n, now);
        },
        Input::DialOpened { now } => {
            lemma_kept_opened(w, now);
        },
        Input::Transmitted { request, now } => {
            lemma_kept_transmitted(w, request, now);
        },
        Input::SendQueued { idx, now } => {
            lemma_kept_queued(w, idx, now);
        },
        Input::NextEvent { now } => {
            lemma_kept_event(w, now);
        },
        Input::FireTimer { now, timeout, established } => {
            lemma_kept_timer(w, now, timeout, established);
        },
        Input::Drive { now } => {
            lemma_kept_drive(w, now);
        },
        Input::Begin { idx, closed, established } => {
            lemma_kept_conn(w, x);
        },
        Input::SetUp { idx, failed } => {
            lemma_kept_conn(w, x);
        },
        Input::Polled { idx, ev } => {
            lemma_kept_conn(w, x);
        },
        Input::BodySent { idx, i, body } => {
            lemma_kept_conn(w, x);
        },
        Input::ReadOut { idx, closed } => {
            lemma_kept_conn(w, x);
        },
        Input::Received { idx, got, failed, now } => {
            lemma_kept_conn(w, x);
        },
        Input::Flushed { idx, sent, end, timeout, now } => {
            lemma_kept_conn(w, x);
        },
        _ => {
            lemma_kept_rest(w, x);
        },
    }
}

/// As long as every connection that was opened could be polled, each slot of a
/// worker holds a connection or can be taken, and a worker that asks for the number
/// of a round trip has the connection to send it on.
pub proof fn no_slot_is_lost(limits: Limits, now: Nanos, xs: Seq<Input>)
    requires
        trace::may_run(WorkerView::fresh(limits, now), xs),
        forall|k: int| 0 <= k < xs.len() ==> !((#[trigger] xs[k]) is DialUnregistered),
    ensures
        ({
            let w = trace::run(WorkerView::fresh(limits, now), xs);
            &&& none_lost(w)
            &&& w.op is Nothing && laws::wants_number(w) ==> laws::has_next(w)
        }),
    decreases xs.len(),
{
    let w = trace::run(WorkerView::fresh(limits, now), xs);
    if xs.len() > 0 {
        let less = xs.drop_last();
        let v = trace::run(WorkerView::fresh(limits, now), less);
        assert forall|k: int| 0 <= k < less.len() implies !((#[trigger] less[k]) is DialUnregistered) by {
            assert(less[k] == xs[k]);
        }
        assert(xs.last() == xs[xs.len() - 1]);
        no_slot_is_lost(limits, now, less);
        trace::every_worker_keeps_to_it(limits, now, less);
        lemma_kept_step(v, xs.last());
    }
    trace::every_worker_keeps_to_it(limits, now, xs);
    if w.op is Nothing && laws::wants_number(w) {
        laws::lemma_first_idle(w);
        assert(laws::is_occupied(w, w.phase->Echo_0.idle[0] as int));
    }
}

} // verus!
