//! What holds of a worker over everything that happens to it.

use vstd::prelude::*;

use crate::engine::conn::{BodySent, DialJob, EventView, H3View, Nanos, Purpose, ReqKind, State};
use crate::engine::count;
use crate::engine::laws;
use crate::engine::laws::Hand;
use crate::engine::model;
use crate::engine::model::{
    ActView, EchoPhase, EchoView, FlushView, Limits, OpView, OutcomeView, PhaseView, RateView,
    SentView, WorkerView,
};
use crate::stats::LatenciesView;

verus! {

/// Something that happens to a worker.
pub enum Input {
    StartDial { count: usize, concurrency: usize },
    StartEcho { job: EchoView, concurrency: usize },
    StartRate { rate: RateView },
    Drive { now: Nanos },
    Issue { n: u64, now: Nanos },
    Tokens { wait: Option<Nanos>, now: Nanos },
    StreamsLeft { n: u64 },
    DialOpened { now: Nanos },
    DialRefused { err: Seq<char>, now: Nanos },
    DialUnregistered { err: Seq<char>, now: Nanos },
    FireRetry { now: Nanos },
    Transmitted { request: SentView, now: Nanos },
    SendQueued { idx: usize, now: Nanos },
    Begin { idx: usize, closed: Option<Seq<char>>, established: bool },
    SetUp { idx: usize, failed: Option<Seq<char>> },
    Polled { idx: usize, ev: H3View },
    BodySent { idx: usize, i: int, body: BodySent },
    ReadOut { idx: usize, closed: Option<Seq<char>> },
    NextEvent { now: Nanos },
    Received { idx: usize, got: bool, failed: Option<Seq<char>>, now: Nanos },
    Flushed { idx: usize, sent: bool, end: FlushView, timeout: Option<Nanos>, now: Nanos },
    NextDirty,
    TimerDue { now: Nanos },
    FireTimer { now: Nanos, timeout: Option<Nanos>, established: bool },
    Keepalive { now: Nanos },
    TakeNotes,
}

/// Whether it begins a benchmark.
pub open spec fn begins(x: Input) -> bool {
    x is StartDial || x is StartEcho || x is StartRate
}

/// Whether it may happen to a worker.
pub open spec fn allowed(w: WorkerView, x: Input) -> bool {
    match x {
        Input::StartDial { count, concurrency } => w.op is Nothing && w.phase is Idle,
        Input::StartEcho { job, concurrency } => w.op is Nothing && w.phase is Idle
            && job.payloads.len() > 0,
        Input::StartRate { rate: job } => w.op is Nothing && w.phase is Idle && laws::job_fits(
            job.batch,
            job.tick,
        ),
        Input::Drive { now } => true,
        Input::Issue { n, now } => w.op is Nothing && laws::wants_number(w) && (n
            < w.phase->Echo_0.job.times ==> laws::has_next(w)),
        Input::DialOpened { now } => w.op is Dial && w.slots.len() < usize::MAX,
        Input::DialRefused { err, now } => w.op is Dial,
        Input::DialUnregistered { err, now } => w.op is Dial && w.slots.len() < usize::MAX,
        Input::Transmitted { request: sent, now } => w.op is Send && w.goes_out(sent),
        Input::FireTimer { now, timeout, established } => w.op is Nothing && w.timer_due(
            now,
        ) is Some,
        Input::NextDirty => true,
        Input::TimerDue { now } => true,
        Input::TakeNotes => true,
        _ => w.op is Nothing,
    }
}

/// What it leaves of the worker.
pub open spec fn step(w: WorkerView, x: Input) -> WorkerView {
    match x {
        Input::StartDial { count, concurrency } => w.start_dial(count, concurrency),
        Input::StartEcho { job, concurrency } => w.start_echo(job, concurrency),
        Input::StartRate { rate: job } => w.start_rate(job),
        Input::Drive { now } => w.drive(now).0,
        Input::Issue { n, now } => w.issue(n, now),
        Input::Tokens { wait, now } => w.tokens(wait, now),
        Input::StreamsLeft { n } => w.streams_left(n),
        Input::DialOpened { now } => w.dial_opened(now),
        Input::DialRefused { err, now } => w.dial_refused(err, now),
        Input::DialUnregistered { err, now } => w.dial_unregistered(err, now),
        Input::FireRetry { now } => w.fire_retry(now),
        Input::Transmitted { request: sent, now } => w.transmitted(sent, now),
        Input::SendQueued { idx, now } => w.send_queued(idx, now),
        Input::Begin { idx, closed, established } => w.begin(idx, closed, established).0,
        Input::SetUp { idx, failed } => w.set_up(idx, failed),
        Input::Polled { idx, ev } => w.polled(idx, ev),
        Input::BodySent { idx, i, body: sent } => w.body_sent(idx, i, sent),
        Input::ReadOut { idx, closed } => w.read_out(idx, closed),
        Input::NextEvent { now } => w.next_event(now),
        Input::Received { idx, got, failed, now } => w.received(idx, got, failed, now),
        Input::Flushed { idx, sent, end, timeout, now } => w.flushed(idx, sent, end, timeout, now),
        Input::NextDirty => w.trim_dirty(),
        Input::TimerDue { now } => w.drop_stale(now),
        Input::FireTimer { now, timeout, established } => w.fire_timer(
            now,
            timeout,
            established,
        ).0,
        Input::Keepalive { now } => w.keepalive(now),
        Input::TakeNotes => WorkerView { notes: Seq::empty(), ..w },
    }
}

/// What one thing after another leaves of the worker.
pub open spec fn run(w: WorkerView, xs: Seq<Input>) -> WorkerView
    decreases xs.len(),
{
    if xs.len() == 0 {
        w
    } else {
        step(run(w, xs.drop_last()), xs.last())
    }
}

/// Whether each may happen once the ones before have.
pub open spec fn may_run(w: WorkerView, xs: Seq<Input>) -> bool
    decreases xs.len(),
{
    xs.len() > 0 ==> may_run(w, xs.drop_last()) && allowed(run(w, xs.drop_last()), xs.last())
}

/// What may happen to a worker leaves it with what every worker keeps to.
pub proof fn lemma_step(w: WorkerView, x: Input)
    requires
        laws::inv(w),
        allowed(w, x),
    ensures
        laws::inv(step(w, x)),
{
    match x {
        Input::StartDial { count, concurrency } => {
            laws::lemma_start_dial(w, count, concurrency);
        },
        Input::StartEcho { job, concurrency } => {
            laws::lemma_start_echo(w, job, concurrency);
        },
        Input::StartRate { rate: job } => {
            laws::lemma_start_rate(w, job);
        },
        Input::Drive { now } => {
            laws::lemma_drive(w, now);
        },
        Input::Issue { n, now } => {
            laws::lemma_issue(w, n, now);
        },
        Input::Tokens { wait, now } => {
            laws::lemma_tokens(w, wait, now);
        },
        Input::StreamsLeft { n } => {
            laws::lemma_streams_left(w, n);
        },
        Input::DialOpened { now } => {
            laws::lemma_dial_opened(w, now);
        },
        Input::DialRefused { err, now } => {
            laws::lemma_dial_refused(w, err, now);
        },
        Input::DialUnregistered { err, now } => {
            laws::lemma_dial_unregistered(w, err, now);
        },
        Input::FireRetry { now } => {
            laws::lemma_fire_retry(w, now);
        },
        Input::Transmitted { request: sent, now } => {
            laws::lemma_transmitted(w, sent, now);
        },
        Input::SendQueued { idx, now } => {
            laws::lemma_send_queued(w, idx, now);
        },
        Input::Begin { idx, closed, established } => {
            laws::lemma_begin(w, idx, closed, established);
        },
        Input::SetUp { idx, failed } => {
            laws::lemma_set_up(w, idx, failed);
        },
        Input::Polled { idx, ev } => {
            laws::lemma_polled(w, idx, ev);
        },
        Input::BodySent { idx, i, body: sent } => {
            laws::lemma_body_sent(w, idx, i, sent);
        },
        Input::ReadOut { idx, closed } => {
            laws::lemma_read_out(w, idx, closed);
        },
        Input::NextEvent { now } => {
            laws::lemma_next_event(w, now);
        },
        Input::Received { idx, got, failed, now } => {
            laws::lemma_received(w, idx, got, failed, now);
        },
        Input::Flushed { idx, sent, end, timeout, now } => {
            laws::lemma_flushed(w, idx, sent, end, timeout, now);
        },
        Input::NextDirty => {
            laws::lemma_trim_dirty(w);
        },
        Input::TimerDue { now } => {
            laws::lemma_drop_stale(w, now);
        },
        Input::FireTimer { now, timeout, established } => {
            laws::lemma_fire_timer(w, now, timeout, established);
        },
        Input::Keepalive { now } => {
            laws::lemma_keepalive(w, now);
        },
        Input::TakeNotes => {
            laws::lemma_notes(w, Seq::empty());
        },
    }
}

proof fn lemma_run(w: WorkerView, xs: Seq<Input>)
    requires
        laws::inv(w),
        may_run(w, xs),
    ensures
        laws::inv(run(w, xs)),
    decreases xs.len(),
{
    if xs.len() > 0 {
        lemma_run(w, xs.drop_last());
        lemma_step(run(w, xs.drop_last()), xs.last());
    }
}

/// Whatever happens to a worker, it keeps to what every worker keeps to.
pub proof fn every_worker_keeps_to_it(limits: Limits, now: Nanos, xs: Seq<Input>)
    requires
        may_run(WorkerView::fresh(limits, now), xs),
    ensures
        laws::inv(run(WorkerView::fresh(limits, now), xs)),
{
    laws::lemma_new(WorkerView::fresh(limits, now));
    lemma_run(WorkerView::fresh(limits, now), xs);
}

// ---------------------------------------------------------------------------
// Nothing that is begun is lost.

pub open spec fn ended(lat: LatenciesView) -> int {
    lat.success + lat.failed
}

/// Whether a phase has as many dials and round trips to account for as one
/// before it had.
spec fn steady(a: PhaseView, b: PhaseView) -> bool {
    match a {
        PhaseView::Dial(d) => {
            &&& b matches PhaseView::Dial(e)
            &&& e.remaining + e.active + ended(e.lat) == d.remaining + d.active + ended(d.lat)
            &&& e.concurrency == d.concurrency
            &&& e.active <= d.active
        },
        PhaseView::Echo(d) => {
            &&& b matches PhaseView::Echo(e)
            &&& e.job == d.job
            &&& e.slots == d.slots
            &&& e.exhausted == d.exhausted
            &&& d.job.measure ==> e.in_flight + ended(e.lat) == d.in_flight + ended(d.lat)
            &&& !d.job.measure ==> e.lat == d.lat
        },
        _ => !(b is Dial) && !(b is Echo),
    }
}

proof fn lemma_steady_echo(
    w: WorkerView,
    idx: usize,
    result: Result<usize, Seq<char>>,
    start: Nanos,
    now: Nanos,
)
    requires
        laws::holds(w, Hand::Echo(idx)),
    ensures
        steady(w.phase, w.echo_done(idx, result, start, now).phase),
{
    assert(laws::round_trips(w, Hand::Echo(idx), idx) > 0);
    laws::lemma_echo_counted(w, Hand::Echo(idx), idx);
}

proof fn lemma_steady_job(w: WorkerView, job: DialJob, err: Seq<char>, now: Nanos)
    requires
        laws::holds(w, Hand::Dial(job)),
    ensures
        steady(w.phase, w.dial_failed_job(job, err, now).phase),
{
    if job.attempt >= w.limits.dial_retries {
        match job.purpose {
            Purpose::New => {
                assert(laws::is_new()(job));
                assert(laws::dials(w, Hand::Dial(job), laws::is_new()) > 0);
            },
            Purpose::RedialEcho { start } => {
                let idx = job.slot->Some_0;
                laws::lemma_hand_to_echo(w, job, idx);
                lemma_steady_echo(w, idx, Err("redial: "@ + err), start, now);
            },
            Purpose::RedialRate => {
                assert(laws::is_rate()(job));
                assert(laws::dials(w, Hand::Dial(job), laws::is_rate()) > 0);
            },
        }
    }
}

proof fn lemma_steady_failed(w: WorkerView, idx: usize, err: Seq<char>, now: Nanos)
    requires
        laws::holds(w, Hand::Nothing),
    ensures
        steady(w.phase, w.dial_failed(idx, err, now).phase),
{
    match w.conn(idx as int) {
        Some(c) => match c.dial {
            Some(job) => {
                if job.purpose == Purpose::New {
                    let v = WorkerView {
                        slots: w.slots.update(idx as int, None),
                        free: w.free.push(idx),
                        ..w
                    };
                    let j = DialJob { slot: None, ..job };
                    laws::lemma_slot_freed(w, idx, j);
                    lemma_steady_job(v, j, err, now);
                } else {
                    laws::lemma_given_up(w, idx);
                    lemma_steady_job(w.with_conn(idx as int, c.given_up()), job, err, now);
                }
            },
            None => {},
        },
        None => {},
    }
}

proof fn lemma_steady_send_failed(
    w: WorkerView,
    idx: usize,
    kind: ReqKind,
    err: Seq<char>,
    now: Nanos,
)
    requires
        laws::holds(w, laws::hand_of(idx, kind)),
    ensures
        steady(w.phase, w.send_failed(idx, kind, err, now).phase),
{
    match kind {
        ReqKind::Dial => {
            lemma_steady_failed(w, idx, err, now);
        },
        ReqKind::Echo { start } => {
            lemma_steady_echo(w, idx, Err(err), start, now);
        },
        ReqKind::Rate => {},
    }
}

proof fn lemma_steady_request(w: WorkerView, idx: usize, kind: ReqKind, body: Seq<u8>, now: Nanos)
    requires
        laws::holds(w, laws::hand_of(idx, kind)),
    ensures
        steady(w.phase, w.send_request(idx, kind, body, now).phase),
{
    lemma_steady_send_failed(w, idx, kind, "no HTTP/3 connection"@, now);
}

proof fn lemma_steady_queued(w: WorkerView, idx: usize, now: Nanos)
    requires
        laws::holds(w, Hand::Nothing),
    ensures
        steady(w.phase, w.send_queued(idx, now).phase),
{
    match w.conn(idx as int) {
        Some(c) => if c.queued.len() > 0 {
            laws::lemma_unqueued(w, idx);
            let v = w.with_conn(idx as int, c.with_queued(c.queued.drop_first()));
            lemma_steady_send_failed(v, idx, c.queued[0].kind, "no HTTP/3 connection"@, now);
        },
        None => {},
    }
}

proof fn lemma_steady_up(w: WorkerView, idx: usize, now: Nanos)
    requires
        laws::inv(w),
        w.op is Nothing,
    ensures
        steady(w.phase, w.dial_ok(idx, now).phase),
{
    match w.conn(idx as int) {
        Some(c) => match c.dial {
            Some(job) => {
                let lat = match w.phase {
                    PhaseView::Dial(d) => d.lat.ok(model::since(now, job.start)),
                    _ => LatenciesView::none(),
                };
                laws::lemma_come_up(w, idx, lat);
                let v = WorkerView { ready: w.ready + 1, ..w.with_conn(idx as int, c.come_up()) };
                match job.purpose {
                    Purpose::RedialEcho { start } => {
                        assert(laws::round_trips(v, Hand::Echo(idx), idx) > 0);
                        laws::lemma_echo_counted(v, Hand::Echo(idx), idx);
                        let e = w.phase->Echo_0;
                        lemma_steady_request(
                            v,
                            idx,
                            ReqKind::Echo { start },
                            e.job.payloads[0],
                            now,
                        );
                    },
                    _ => {},
                }
            },
            None => {},
        },
        None => {},
    }
}

proof fn lemma_steady_event(w: WorkerView, now: Nanos)
    requires
        laws::inv(w),
        w.op is Nothing,
    ensures
        steady(w.phase, w.next_event(now).phase),
{
    if w.events.len() > 0 {
        let (idx, ev) = w.events[0];
        let v = WorkerView { events: w.events.drop_first(), ..w };
        laws::lemma_report_taken(w);
        match ev {
            EventView::Established => {
                lemma_steady_request(v, idx, ReqKind::Dial, Seq::empty(), now);
            },
            EventView::Response { kind, result } => match kind {
                ReqKind::Dial => match result {
                    Ok(_) => {
                        lemma_steady_up(v, idx, now);
                    },
                    Err(e) => {
                        lemma_steady_failed(v, idx, e, now);
                    },
                },
                ReqKind::Echo { start } => {
                    lemma_steady_echo(v, idx, result, start, now);
                },
                ReqKind::Rate => {},
            },
            EventView::Closed(reason) => match v.conn(idx as int) {
                Some(c) => match c.state {
                    State::Connecting => {
                        lemma_steady_failed(v, idx, reason, now);
                    },
                    _ => {},
                },
                None => {},
            },
        }
    }
}

proof fn lemma_steady_transmitted(w: WorkerView, sent: SentView, now: Nanos)
    requires
        laws::inv(w),
        w.op is Send,
    ensures
        steady(w.phase, w.transmitted(sent, now).phase),
{
    let h = laws::hand(w.op);
    match w.op {
        OpView::Send { idx, kind, body, queued } => {
            let x = w.with_op(OpView::Nothing);
            laws::lemma_op_changes(w, h, OpView::Nothing);
            laws::lemma_mark_dirty(x, h, idx as int);
            match sent {
                SentView::Blocked => if kind is Rate {
                    lemma_steady_send_failed(x, idx, kind, Seq::empty(), now);
                },
                SentView::HeadersFailed(e) => {
                    lemma_steady_send_failed(
                        x.mark_dirty(idx as int),
                        idx,
                        kind,
                        "send request: "@ + e,
                        now,
                    );
                },
                SentView::BodyFailed(e) => {
                    lemma_steady_send_failed(
                        x.mark_dirty(idx as int),
                        idx,
                        kind,
                        "send body: "@ + e,
                        now,
                    );
                },
                _ => {},
            }
        },
        _ => {},
    }
}

proof fn lemma_steady_timer(w: WorkerView, now: Nanos, timeout: Option<Nanos>, established: bool)
    requires
        laws::inv(w),
        w.op is Nothing,
        w.timer_due(now) is Some,
    ensures
        steady(w.phase, w.fire_timer(now, timeout, established).0.phase),
{
    let t = crate::timers::first(w.timers)->Some_0;
    let idx = t.1;
    let c = w.slots[idx as int]->Some_0;
    if (c.deadline matches Some(d) && d <= now) && c.state == State::Connecting && (
    c.attempt_deadline matches Some(a) && a <= now) {
        let err = if established {
            "timeout waiting for the first response"@
        } else {
            "handshake timeout"@
        };
        assert(laws::conn_ok(idx as int, c));
        laws::lemma_taken_then_failed(w, t, err, now);
        lemma_steady_failed(w, idx, err, now);
    }
}

proof fn lemma_steady_self(p: PhaseView)
    ensures
        steady(p, p),
{
}

/// What concerns sockets, timers and what connections report leaves the phase as
/// it is.
proof fn lemma_same_phase(w: WorkerView, x: Input)
    requires
        x is DialOpened || x is FireRetry || x is Begin || x is SetUp || x is Polled || x is BodySent
            || x is ReadOut || x is Received || x is Flushed || x is NextDirty || x is TimerDue
            || x is Keepalive || x is TakeNotes,
    ensures
        step(w, x).phase == w.phase,
{
    match x {
        Input::Begin { idx, closed, established } => {
            assert(w.begin(idx, closed, established).0.phase == w.phase);
        },
        Input::Polled { idx, ev } => {
            assert(w.polled(idx, ev).phase == w.phase);
        },
        Input::Flushed { idx, sent, end, timeout, now } => {
            assert(w.flushed(idx, sent, end, timeout, now).phase == w.phase);
        },
        _ => {},
    }
}

proof fn lemma_steady_answers(w: WorkerView, x: Input)
    requires
        x is Tokens || x is StreamsLeft,
    ensures
        steady(w.phase, step(w, x).phase),
{
}

/// What happens other than beginning, driving and numbering leaves what is to be
/// accounted for as it is.
proof fn lemma_steady_step(w: WorkerView, x: Input)
    requires
        laws::inv(w),
        allowed(w, x),
        !begins(x),
        !(x is Drive),
        !(x is Issue),
    ensures
        steady(w.phase, step(w, x).phase),
{
    match x {
        Input::DialRefused { err, now } => {
            let h = laws::hand(w.op);
            laws::lemma_op_changes(w, h, OpView::Nothing);
            lemma_steady_job(w.with_op(OpView::Nothing), w.op->Dial_0, err, now);
        },
        Input::DialUnregistered { err, now } => {
            let h = laws::hand(w.op);
            let job = w.op->Dial_0;
            let v = w.with_op(OpView::Nothing);
            laws::lemma_op_changes(w, h, OpView::Nothing);
            laws::lemma_slot_lost(v, job);
            lemma_steady_job(v.slot_lost(job), job, err, now);
        },
        Input::Transmitted { request: sent, now } => {
            lemma_steady_transmitted(w, sent, now);
        },
        Input::SendQueued { idx, now } => {
            lemma_steady_queued(w, idx, now);
        },
        Input::NextEvent { now } => {
            lemma_steady_event(w, now);
        },
        Input::FireTimer { now, timeout, established } => {
            lemma_steady_timer(w, now, timeout, established);
        },
        Input::Tokens { wait, now } => {
            lemma_steady_answers(w, x);
        },
        Input::StreamsLeft { n } => {
            lemma_steady_answers(w, x);
        },
        _ => {
            lemma_same_phase(w, x);
            lemma_steady_self(w.phase);
        },
    }
}

/// Whether all the connections asked for are yet to be dialed, being dialed, up
/// or given up, and no more are being dialed than may be at once.
pub open spec fn connections_add_up(w: WorkerView, count: usize, concurrency: usize) -> bool {
    match w.phase {
        PhaseView::Dial(d) => {
            &&& d.remaining + d.active + ended(d.lat) == count
            &&& d.concurrency == concurrency
            &&& d.active <= concurrency
        },
        _ => false,
    }
}

proof fn lemma_connections(w: WorkerView, count: usize, concurrency: usize, xs: Seq<Input>)
    requires
        laws::inv(w),
        w.op is Nothing,
        w.phase is Idle,
        may_run(w.start_dial(count, concurrency), xs),
        forall|k: int| 0 <= k < xs.len() ==> !begins(#[trigger] xs[k]),
        run(w.start_dial(count, concurrency), xs).phase is Dial,
    ensures
        laws::inv(run(w.start_dial(count, concurrency), xs)),
        connections_add_up(run(w.start_dial(count, concurrency), xs), count, concurrency),
    decreases xs.len(),
{
    let begun = w.start_dial(count, concurrency);
    laws::lemma_start_dial(w, count, concurrency);
    lemma_run(begun, xs);
    if xs.len() > 0 {
        let less = xs.drop_last();
        let v = run(begun, less);
        let x = xs.last();
        assert(x == xs[xs.len() - 1]);
        assert forall|k: int| 0 <= k < less.len() implies !begins(#[trigger] less[k]) by {
            assert(less[k] == xs[k]);
        }
        lemma_run(begun, less);
        if !(x is Drive) && !(x is Issue) {
            lemma_steady_step(v, x);
        }
        assert(v.phase is Dial);
        lemma_connections(w, count, concurrency, less);
    }
}

/// Every connection that the Connections benchmark was asked for is yet to be
/// dialed, being dialed, up or given up; no more are being dialed than may be at
/// once; and when it is over, each was counted once, as a success or a failure.
pub proof fn every_connection_is_accounted_for(
    w: WorkerView,
    count: usize,
    concurrency: usize,
    xs: Seq<Input>,
    now: Nanos,
)
    requires
        laws::inv(w),
        w.op is Nothing,
        w.phase is Idle,
        may_run(w.start_dial(count, concurrency), xs),
        forall|k: int| 0 <= k < xs.len() ==> !begins(#[trigger] xs[k]),
        run(w.start_dial(count, concurrency), xs).phase is Dial,
    ensures
        ({
            let v = run(w.start_dial(count, concurrency), xs);
            let d = v.phase->Dial_0;
            let dialing = laws::dials(v, laws::hand(v.op), laws::is_new());
            &&& d.remaining + dialing + ended(d.lat) == count
            &&& dialing <= concurrency
            &&& v.drive(now).1 matches ActView::Done(OutcomeView::Dial(lat)) ==> ended(lat)
                == count
        }),
{
    lemma_connections(w, count, concurrency, xs);
}

/// How many round trips were numbered, of those there are to be.
pub open spec fn numbered(xs: Seq<Input>, times: u64) -> nat
    decreases xs.len(),
{
    if xs.len() == 0 {
        0
    } else {
        numbered(xs.drop_last(), times) + (match xs.last() {
            Input::Issue { n, now } => if n < times {
                1nat
            } else {
                0nat
            },
            _ => 0nat,
        })
    }
}

/// The numbers that a worker was given, in order.
pub open spec fn drawn(xs: Seq<Input>) -> Seq<int>
    decreases xs.len(),
{
    if xs.len() == 0 {
        Seq::empty()
    } else {
        match xs.last() {
            Input::Issue { n, now } => drawn(xs.drop_last()).push(n as int),
            _ => drawn(xs.drop_last()),
        }
    }
}

pub open spec fn below(times: u64) -> spec_fn(int) -> bool {
    |n: int| n < times
}

proof fn lemma_numbered(xs: Seq<Input>, times: u64)
    ensures
        numbered(xs, times) == count::of(drawn(xs), below(times)),
    decreases xs.len(),
{
    if xs.len() > 0 {
        lemma_numbered(xs.drop_last(), times);
        match xs.last() {
            Input::Issue { n, now } => {
                count::push(drawn(xs.drop_last()), n as int, below(times));
            },
            _ => {},
        }
    }
}

/// How many round trips a worker may have in flight, of `concurrency`.
pub open spec fn places(w: WorkerView, concurrency: usize) -> nat {
    if concurrency < w.occupied().len() {
        concurrency as nat
    } else {
        w.occupied().len()
    }
}

proof fn lemma_steady_issue(w: WorkerView, n: u64, now: Nanos)
    requires
        laws::inv(w),
        w.op is Nothing,
        laws::wants_number(w),
        n < w.phase->Echo_0.job.times,
        laws::has_next(w),
    ensures
        ({
            let e = w.phase->Echo_0;
            &&& w.issue(n, now).phase matches PhaseView::Echo(f)
            &&& f.job == e.job
            &&& f.slots == e.slots
            &&& f.exhausted == e.exhausted
            &&& e.job.measure ==> f.in_flight + ended(f.lat) == e.in_flight + ended(e.lat) + 1
            &&& !e.job.measure ==> f.lat == e.lat
        }),
{
    laws::lemma_first_idle(w);
    laws::lemma_taken_up(w);
    let e = w.phase->Echo_0;
    let idx = e.idle[0];
    let v = laws::taken_up(w);
    let c = w.slots[idx as int]->Some_0;
    if c.state != State::Broken {
        lemma_steady_request(
            v,
            idx,
            ReqKind::Echo { start: now },
            e.job.payloads[(n % (e.job.payloads.len() as u64)) as int],
            now,
        );
    }
}

/// Whether a worker's phase is what a BenchEcho comes to whose numbers were those
/// of some inputs.
spec fn comes_to(e: EchoPhase, job: EchoView, slots: nat, xs: Seq<Input>) -> bool {
    &&& e.job == job
    &&& e.slots == slots
    &&& e.exhausted && slots > 0 ==> drawn(xs).len() > numbered(xs, job.times)
    &&& job.measure ==> e.in_flight + ended(e.lat) == numbered(xs, job.times)
    &&& !job.measure ==> e.lat == LatenciesView::none()
}

proof fn lemma_comes_on(v: WorkerView, x: Input, job: EchoView, slots: nat, less: Seq<Input>)
    requires
        laws::inv(v),
        allowed(v, x),
        !begins(x),
        !(x is Drive),
        !(x is Issue),
        v.phase matches PhaseView::Echo(e) ==> comes_to(e, job, slots, less),
        step(v, x).phase is Echo,
    ensures
        v.phase is Echo,
        comes_to(step(v, x).phase->Echo_0, job, slots, less.push(x)),
{
    lemma_steady_step(v, x);
    assert(less.push(x).drop_last() =~= less);
}

proof fn lemma_comes_driven(v: WorkerView, now: Nanos, job: EchoView, slots: nat, less: Seq<Input>)
    requires
        v.phase matches PhaseView::Echo(e) ==> comes_to(e, job, slots, less),
        v.drive(now).0.phase is Echo,
    ensures
        v.phase is Echo,
        comes_to(v.drive(now).0.phase->Echo_0, job, slots, less.push(Input::Drive { now })),
{
    let x = Input::Drive { now };
    assert(less.push(x).drop_last() =~= less);
}

proof fn lemma_comes_numbered(
    v: WorkerView,
    n: u64,
    now: Nanos,
    job: EchoView,
    slots: nat,
    less: Seq<Input>,
)
    requires
        laws::inv(v),
        v.op is Nothing,
        laws::wants_number(v),
        n < v.phase->Echo_0.job.times ==> laws::has_next(v),
        comes_to(v.phase->Echo_0, job, slots, less),
    ensures
        v.issue(n, now).phase is Echo,
        comes_to(v.issue(n, now).phase->Echo_0, job, slots, less.push(Input::Issue { n, now })),
{
    let x = Input::Issue { n, now };
    assert(less.push(x).drop_last() =~= less);
    lemma_numbered(less, job.times);
    count::at_most(drawn(less), below(job.times));
    if n < job.times {
        lemma_steady_issue(v, n, now);
    }
}

proof fn lemma_round_trips(w: WorkerView, job: EchoView, concurrency: usize, xs: Seq<Input>)
    requires
        laws::inv(w),
        w.op is Nothing,
        w.phase is Idle,
        job.payloads.len() > 0,
        may_run(w.start_echo(job, concurrency), xs),
        forall|k: int| 0 <= k < xs.len() ==> !begins(#[trigger] xs[k]),
        run(w.start_echo(job, concurrency), xs).phase is Echo,
    ensures
        laws::inv(run(w.start_echo(job, concurrency), xs)),
        comes_to(
            run(w.start_echo(job, concurrency), xs).phase->Echo_0,
            job,
            places(w, concurrency),
            xs,
        ),
    decreases xs.len(),
{
    let begun = w.start_echo(job, concurrency);
    laws::lemma_start_echo(w, job, concurrency);
    lemma_run(begun, xs);
    if xs.len() > 0 {
        let less = xs.drop_last();
        let v = run(begun, less);
        let x = xs.last();
        let slots = places(w, concurrency);
        assert(x == xs[xs.len() - 1]);
        assert(less.push(x) =~= xs);
        assert forall|k: int| 0 <= k < less.len() implies !begins(#[trigger] less[k]) by {
            assert(less[k] == xs[k]);
        }
        lemma_run(begun, less);
        if v.phase is Echo {
            lemma_round_trips(w, job, concurrency, less);
        }
        match x {
            Input::Drive { now } => {
                lemma_comes_driven(v, now, job, slots, less);
            },
            Input::Issue { n, now } => {
                lemma_comes_numbered(v, n, now, job, slots, less);
            },
            _ => {
                lemma_comes_on(v, x, job, slots, less);
            },
        }
    }
}

/// Whatever happens while BenchEcho runs, no more round trips are in flight on a
/// worker than it may have, nor more than one on a connection.
pub proof fn no_more_round_trips_than_asked_for(
    w: WorkerView,
    job: EchoView,
    concurrency: usize,
    xs: Seq<Input>,
    i: usize,
)
    requires
        laws::inv(w),
        w.op is Nothing,
        w.phase is Idle,
        job.payloads.len() > 0,
        may_run(w.start_echo(job, concurrency), xs),
        forall|k: int| 0 <= k < xs.len() ==> !begins(#[trigger] xs[k]),
        run(w.start_echo(job, concurrency), xs).phase is Echo,
    ensures
        ({
            let v = run(w.start_echo(job, concurrency), xs);
            &&& v.phase->Echo_0.in_flight <= places(w, concurrency) <= concurrency
            &&& laws::round_trips(v, laws::hand(v.op), i) <= 1
        }),
{
    lemma_round_trips(w, job, concurrency, xs);
    laws::one_round_trip_per_connection(run(w.start_echo(job, concurrency), xs), i);
}

/// Every round trip that BenchEcho numbered is in flight or was counted; and
/// when it is over, each was counted once, as a success or a failure.
pub proof fn every_round_trip_is_accounted_for(
    w: WorkerView,
    job: EchoView,
    concurrency: usize,
    xs: Seq<Input>,
    now: Nanos,
)
    requires
        laws::inv(w),
        w.op is Nothing,
        w.phase is Idle,
        job.payloads.len() > 0,
        job.measure,
        may_run(w.start_echo(job, concurrency), xs),
        forall|k: int| 0 <= k < xs.len() ==> !begins(#[trigger] xs[k]),
        run(w.start_echo(job, concurrency), xs).phase is Echo,
    ensures
        ({
            let v = run(w.start_echo(job, concurrency), xs);
            let e = v.phase->Echo_0;
            &&& e.in_flight + ended(e.lat) == numbered(xs, job.times)
            &&& v.drive(now).1 matches ActView::Done(OutcomeView::Echo(lat)) ==> ended(lat)
                == numbered(xs, job.times)
        }),
{
    lemma_round_trips(w, job, concurrency, xs);
}

// ---------------------------------------------------------------------------
// The workers together.

/// What one worker has of a BenchEcho: the worker before it, what happens to it,
/// and when it is done.
pub struct Part {
    pub w: WorkerView,
    pub concurrency: usize,
    pub xs: Seq<Input>,
    pub now: Nanos,
}

impl Part {
    /// The worker at the end.
    pub open spec fn end(self, job: EchoView) -> WorkerView {
        run(self.w.start_echo(job, self.concurrency), self.xs)
    }

    /// Whether the worker ran the job and is done with it.
    pub open spec fn is_done(self, job: EchoView) -> bool {
        &&& laws::inv(self.w)
        &&& self.w.op is Nothing
        &&& self.w.phase is Idle
        &&& may_run(self.w.start_echo(job, self.concurrency), self.xs)
        &&& forall|k: int| 0 <= k < self.xs.len() ==> !begins(#[trigger] self.xs[k])
        &&& self.end(job).phase is Echo
        &&& self.end(job).drive(self.now).1 matches ActView::Done(OutcomeView::Echo(_))
    }

    /// What the worker reports.
    pub open spec fn outcome(self, job: EchoView) -> LatenciesView {
        self.end(job).phase->Echo_0.lat
    }
}

/// The numbers given out, over all workers.
pub open spec fn given_out(parts: Seq<Part>) -> Seq<int>
    decreases parts.len(),
{
    if parts.len() == 0 {
        Seq::empty()
    } else {
        given_out(parts.drop_last()) + drawn(parts.last().xs)
    }
}

/// Whether numbers are those from nought on, each once, in whatever order.
pub open spec fn each_once(s: Seq<int>) -> bool {
    &&& s.no_duplicates()
    &&& forall|i: int| 0 <= i < s.len() ==> 0 <= #[trigger] s[i] < s.len()
}

/// How many round trips were begun, over all workers.
pub open spec fn all_numbered(parts: Seq<Part>, times: u64) -> nat
    decreases parts.len(),
{
    if parts.len() == 0 {
        0
    } else {
        all_numbered(parts.drop_last(), times) + numbered(parts.last().xs, times)
    }
}

/// How many the workers report, as successes or failures.
pub open spec fn all_ended(parts: Seq<Part>, job: EchoView) -> int
    decreases parts.len(),
{
    if parts.len() == 0 {
        0
    } else {
        all_ended(parts.drop_last(), job) + ended(parts.last().outcome(job))
    }
}

proof fn lemma_all_numbered(parts: Seq<Part>, times: u64)
    ensures
        all_numbered(parts, times) == count::of(given_out(parts), below(times)),
    decreases parts.len(),
{
    if parts.len() > 0 {
        lemma_all_numbered(parts.drop_last(), times);
        lemma_numbered(parts.last().xs, times);
        count::concat(given_out(parts.drop_last()), drawn(parts.last().xs), below(times));
    }
}

/// As many numbers below a bound stand in a list as in the set of them, where each
/// stands once.
proof fn lemma_count_below(s: Seq<int>, t: u64)
    requires
        s.no_duplicates(),
    ensures
        s.to_set().filter(below(t)).finite(),
        count::of(s, below(t)) == s.to_set().filter(below(t)).len(),
    decreases s.len(),
{
    broadcast use vstd::seq_lib::group_seq_properties;

    if s.len() == 0 {
        assert(s.to_set().filter(below(t)) =~= Set::<int>::empty());
    } else {
        let less = s.drop_last();
        let x = s.last();
        lemma_count_below(less, t);
        assert(s =~= less.push(x));
        count::push(less, x, below(t));
        assert(!less.contains(x)) by {
            if less.contains(x) {
                let i = choose|i: int| 0 <= i < less.len() && less[i] == x;
                assert(s[i] == s[s.len() - 1]);
            }
        }
        if x < t {
            assert(s.to_set().filter(below(t)) =~= less.to_set().filter(below(t)).insert(x)) by {
                assert forall|y: int| s.contains(y) <==> less.contains(y) || y == x by {
                    if less.contains(y) {
                        let i = choose|i: int| 0 <= i < less.len() && less[i] == y;
                        assert(s[i] == y);
                    }
                    if s.contains(y) && y != x {
                        let i = choose|i: int| 0 <= i < s.len() && s[i] == y;
                        assert(less[i] == y);
                    }
                    if y == x {
                        assert(s[s.len() - 1] == y);
                    }
                }
            }
        } else {
            assert(s.to_set().filter(below(t)) =~= less.to_set().filter(below(t))) by {
                assert forall|y: int| y < t implies (s.contains(y) <==> less.contains(y)) by {
                    if less.contains(y) {
                        let i = choose|i: int| 0 <= i < less.len() && less[i] == y;
                        assert(s[i] == y);
                    }
                    if s.contains(y) {
                        let i = choose|i: int| 0 <= i < s.len() && s[i] == y;
                        assert(less[i] == y);
                    }
                }
            }
        }
    }
}

/// Of the numbers from nought on, each given out once, as many are below a bound
/// as the bound says, if there are so many.
proof fn lemma_each_once(s: Seq<int>, t: u64)
    requires
        each_once(s),
    ensures
        count::of(s, below(t)) == (if t < s.len() {
            t as nat
        } else {
            s.len()
        }),
{
    let n = s.len() as int;
    let range = vstd::set_lib::set_int_range(0, n);
    vstd::set_lib::lemma_int_range(0, n);
    s.unique_seq_to_set();
    assert(s.to_set().subset_of(range));
    vstd::set_lib::lemma_subset_equality(s.to_set(), range);
    lemma_count_below(s, t);
    let m = if t < n {
        t as int
    } else {
        n
    };
    vstd::set_lib::lemma_int_range(0, m);
    assert(s.to_set().filter(below(t)) =~= vstd::set_lib::set_int_range(0, m));
}

/// Whether what a worker reports is what it began.
#[verifier::opaque]
spec fn adds_up(p: Part, job: EchoView) -> bool {
    &&& job.measure ==> ended(p.outcome(job)) == numbered(p.xs, job.times)
    &&& !job.measure ==> p.outcome(job) == LatenciesView::none()
    &&& places(p.w, p.concurrency) > 0 ==> drawn(p.xs).len() > numbered(p.xs, job.times)
    &&& drawn(p.xs).len() >= numbered(p.xs, job.times)
    &&& p.end(job).drive(p.now).1 == ActView::Done(OutcomeView::Echo(p.outcome(job)))
}

proof fn lemma_part(p: Part, job: EchoView)
    requires
        job.payloads.len() > 0,
        p.is_done(job),
    ensures
        adds_up(p, job),
{
    reveal(adds_up);
    lemma_round_trips(p.w, job, p.concurrency, p.xs);
    lemma_numbered(p.xs, job.times);
    count::at_most(drawn(p.xs), below(job.times));
}

spec fn has_place(p: Part) -> bool {
    places(p.w, p.concurrency) > 0
}

proof fn lemma_parts(parts: Seq<Part>, job: EchoView)
    requires
        forall|k: int| 0 <= k < parts.len() ==> adds_up(#[trigger] parts[k], job),
    ensures
        job.measure ==> all_ended(parts, job) == all_numbered(parts, job.times),
        forall|k: int|
            0 <= k < parts.len() && has_place(#[trigger] parts[k]) ==> given_out(parts).len()
                > all_numbered(parts, job.times),
        given_out(parts).len() >= all_numbered(parts, job.times),
    decreases parts.len(),
{
    if parts.len() > 0 {
        let less = parts.drop_last();
        let p = parts[parts.len() - 1];
        assert forall|k: int| 0 <= k < less.len() implies adds_up(#[trigger] less[k], job) by {
            assert(less[k] == parts[k]);
        }
        lemma_parts(less, job);
        assert(adds_up(p, job));
        reveal(adds_up);
        assert forall|k: int| 0 <= k < parts.len() && has_place(#[trigger] parts[k]) implies given_out(
            parts,
        ).len() > all_numbered(parts, job.times) by {
            if k < less.len() {
                assert(has_place(less[k]));
            }
        }
    }
}

/// However the workers share a BenchEcho out between them, each number given out
/// once, exactly as many round trips are begun as it asks for; a measured one
/// reports each of them once, as a success or a failure, and one that is not
/// reports nothing.
pub proof fn the_workers_make_as_many_as_asked_for(parts: Seq<Part>, job: EchoView)
    requires
        job.payloads.len() > 0,
        forall|k: int| 0 <= k < parts.len() ==> (#[trigger] parts[k]).is_done(job),
        each_once(given_out(parts)),
        exists|k: int|
            0 <= k < parts.len() && places((#[trigger] parts[k]).w, parts[k].concurrency) > 0,
    ensures
        all_numbered(parts, job.times) == job.times,
        job.measure ==> all_ended(parts, job) == job.times,
        !job.measure ==> forall|k: int|
            0 <= k < parts.len() ==> (#[trigger] parts[k]).outcome(job) == LatenciesView::none(),
        forall|k: int|
            0 <= k < parts.len() ==> parts[k].end(job).drive(parts[k].now).1 == ActView::Done(
                OutcomeView::Echo((#[trigger] parts[k]).outcome(job)),
            ),
{
    assert forall|k: int| 0 <= k < parts.len() implies adds_up(#[trigger] parts[k], job) by {
        lemma_part(parts[k], job);
    }
    lemma_parts(parts, job);
    let k = choose|k: int|
        0 <= k < parts.len() && places((#[trigger] parts[k]).w, parts[k].concurrency) > 0;
    assert(has_place(parts[k]));
    lemma_all_numbered(parts, job.times);
    lemma_each_once(given_out(parts), job.times);
    assert forall|k: int| 0 <= k < parts.len() implies {
        &&& !job.measure ==> (#[trigger] parts[k]).outcome(job) == LatenciesView::none()
        &&& parts[k].end(job).drive(parts[k].now).1 == ActView::Done(
            OutcomeView::Echo(parts[k].outcome(job)),
        )
    } by {
        assert(adds_up(parts[k], job));
        reveal(adds_up);
    }
}

// ---------------------------------------------------------------------------
// No dial is made more often than it may be.

pub open spec fn tries_fit(job: DialJob, retries: usize) -> bool {
    1 <= job.attempt <= (if retries < 1 {
        1
    } else {
        retries
    })
}

/// Whether no dial has been tried more often than it may be.
pub open spec fn attempts_fit(w: WorkerView) -> bool {
    &&& forall|i: int|
        0 <= i < w.slots.len() ==> ((#[trigger] w.slots[i]) matches Some(c) ==> (
        c.dial matches Some(job) ==> tries_fit(job, w.limits.dial_retries)))
    &&& forall|k: int|
        0 <= k < w.retries.len() ==> tries_fit((#[trigger] w.retries[k]).1, w.limits.dial_retries)
    &&& w.op matches OpView::Dial(job) ==> tries_fit(job, w.limits.dial_retries)
}

proof fn lemma_attempts_job(w: WorkerView, job: DialJob, err: Seq<char>, now: Nanos)
    requires
        attempts_fit(w),
        tries_fit(job, w.limits.dial_retries),
    ensures
        attempts_fit(w.dial_failed_job(job, err, now)),
        w.dial_failed_job(job, err, now).limits == w.limits,
{
    let v = w.dial_failed_job(job, err, now);
    if job.attempt < w.limits.dial_retries {
        assert forall|k: int| 0 <= k < v.retries.len() implies tries_fit(
            (#[trigger] v.retries[k]).1,
            v.limits.dial_retries,
        ) by {
            if k < w.retries.len() {
                assert(v.retries[k] == w.retries[k]);
            }
        }
    }
}

proof fn lemma_attempts_failed(w: WorkerView, idx: usize, err: Seq<char>, now: Nanos)
    requires
        attempts_fit(w),
    ensures
        attempts_fit(w.dial_failed(idx, err, now)),
        w.dial_failed(idx, err, now).limits == w.limits,
{
    match w.conn(idx as int) {
        Some(c) => match c.dial {
            Some(job) => {
                assert(w.slots[idx as int] == Some(c));
                if job.purpose == Purpose::New {
                    let v = WorkerView {
                        slots: w.slots.update(idx as int, None),
                        free: w.free.push(idx),
                        ..w
                    };
                    lemma_attempts_job(v, DialJob { slot: None, ..job }, err, now);
                } else {
                    lemma_attempts_job(w.with_conn(idx as int, c.given_up()), job, err, now);
                }
            },
            None => {},
        },
        None => {},
    }
}

proof fn lemma_attempts_send_failed(
    w: WorkerView,
    idx: usize,
    kind: ReqKind,
    err: Seq<char>,
    now: Nanos,
)
    requires
        attempts_fit(w),
    ensures
        attempts_fit(w.send_failed(idx, kind, err, now)),
        w.send_failed(idx, kind, err, now).limits == w.limits,
{
    match kind {
        ReqKind::Dial => {
            lemma_attempts_failed(w, idx, err, now);
        },
        _ => {},
    }
}

proof fn lemma_attempts_request(w: WorkerView, idx: usize, kind: ReqKind, body: Seq<u8>, now: Nanos)
    requires
        attempts_fit(w),
    ensures
        attempts_fit(w.send_request(idx, kind, body, now)),
        w.send_request(idx, kind, body, now).limits == w.limits,
{
    lemma_attempts_send_failed(w, idx, kind, "no HTTP/3 connection"@, now);
}

proof fn lemma_attempts_up(w: WorkerView, idx: usize, now: Nanos)
    requires
        attempts_fit(w),
    ensures
        attempts_fit(w.dial_ok(idx, now)),
        w.dial_ok(idx, now).limits == w.limits,
{
    match w.conn(idx as int) {
        Some(c) => match c.dial {
            Some(job) => {
                let v = WorkerView { ready: w.ready + 1, ..w.with_conn(idx as int, c.come_up()) };
                assert(attempts_fit(v));
                match (job.purpose, w.phase) {
                    (Purpose::RedialEcho { start }, PhaseView::Echo(e)) => {
                        lemma_attempts_request(
                            v,
                            idx,
                            ReqKind::Echo { start },
                            e.job.payloads[0],
                            now,
                        );
                    },
                    _ => {},
                }
            },
            None => {},
        },
        None => {},
    }
}

proof fn lemma_attempts_event(w: WorkerView, now: Nanos)
    requires
        attempts_fit(w),
    ensures
        attempts_fit(w.next_event(now)),
        w.next_event(now).limits == w.limits,
{
    if w.events.len() > 0 {
        let (idx, ev) = w.events[0];
        let v = WorkerView { events: w.events.drop_first(), ..w };
        assert(attempts_fit(v));
        match ev {
            EventView::Established => {
                lemma_attempts_request(v, idx, ReqKind::Dial, Seq::empty(), now);
            },
            EventView::Response { kind, result } => match kind {
                ReqKind::Dial => match result {
                    Ok(_) => {
                        lemma_attempts_up(v, idx, now);
                    },
                    Err(e) => {
                        lemma_attempts_failed(v, idx, e, now);
                    },
                },
                _ => {},
            },
            EventView::Closed(reason) => {
                lemma_attempts_failed(v, idx, reason, now);
            },
        }
    }
}

proof fn lemma_attempts_transmitted(w: WorkerView, sent: SentView, now: Nanos)
    requires
        attempts_fit(w),
        w.op is Send,
    ensures
        attempts_fit(w.transmitted(sent, now)),
        w.transmitted(sent, now).limits == w.limits,
{
    match w.op {
        OpView::Send { idx, kind, body, queued } => {
            let x = w.with_op(OpView::Nothing);
            assert(attempts_fit(x));
            assert(attempts_fit(x.mark_dirty(idx as int)));
            match sent {
                SentView::Blocked => {
                    lemma_attempts_send_failed(x, idx, kind, Seq::empty(), now);
                },
                SentView::HeadersFailed(e) => {
                    lemma_attempts_send_failed(
                        x.mark_dirty(idx as int),
                        idx,
                        kind,
                        "send request: "@ + e,
                        now,
                    );
                },
                SentView::BodyFailed(e) => {
                    lemma_attempts_send_failed(
                        x.mark_dirty(idx as int),
                        idx,
                        kind,
                        "send body: "@ + e,
                        now,
                    );
                },
                SentView::Out { stream, off } => {},
            }
        },
        _ => {},
    }
}

proof fn lemma_attempts_timer(w: WorkerView, now: Nanos, timeout: Option<Nanos>, established: bool)
    requires
        attempts_fit(w),
        w.timer_due(now) is Some,
    ensures
        attempts_fit(w.fire_timer(now, timeout, established).0),
        w.fire_timer(now, timeout, established).0.limits == w.limits,
{
    let t = crate::timers::first(w.timers)->Some_0;
    let idx = t.1;
    let c = w.slots[idx as int]->Some_0;
    let v = WorkerView {
        timers: w.timers.remove(t),
        ..w.with_conn(idx as int, crate::engine::conn::ConnView { scheduled: None, ..c })
    };
    assert(attempts_fit(v));
    lemma_attempts_failed(v, idx, "timeout waiting for the first response"@, now);
    lemma_attempts_failed(v, idx, "handshake timeout"@, now);
}

proof fn lemma_attempts_issue(w: WorkerView, n: u64, now: Nanos)
    requires
        attempts_fit(w),
        w.op is Nothing,
        laws::wants_number(w),
    ensures
        attempts_fit(w.issue(n, now)),
        w.issue(n, now).limits == w.limits,
{
    let e = w.phase->Echo_0;
    if n < e.job.times {
        let v = laws::taken_up(w);
        assert(attempts_fit(v));
        lemma_attempts_request(
            v,
            e.idle[0],
            ReqKind::Echo { start: now },
            e.job.payloads[(n % (e.job.payloads.len() as u64)) as int],
            now,
        );
    }
}

proof fn lemma_attempts_queued(w: WorkerView, idx: usize, now: Nanos)
    requires
        attempts_fit(w),
    ensures
        attempts_fit(w.send_queued(idx, now)),
        w.send_queued(idx, now).limits == w.limits,
{
    match w.conn(idx as int) {
        Some(c) => if c.queued.len() > 0 {
            let v = w.with_conn(idx as int, c.with_queued(c.queued.drop_first()));
            assert(attempts_fit(v));
            lemma_attempts_send_failed(v, idx, c.queued[0].kind, "no HTTP/3 connection"@, now);
        },
        None => {},
    }
}

proof fn lemma_attempts_retry(w: WorkerView, now: Nanos)
    requires
        attempts_fit(w),
    ensures
        attempts_fit(w.fire_retry(now)),
{
    let v = w.fire_retry(now);
    if w.retry_due(now) {
        assert forall|k: int| 0 <= k < v.retries.len() implies tries_fit(
            (#[trigger] v.retries[k]).1,
            v.limits.dial_retries,
        ) by {
            assert(v.retries[k] == w.retries[k + 1]);
        }
    }
}

proof fn lemma_attempts_drive(w: WorkerView, now: Nanos)
    requires
        attempts_fit(w),
    ensures
        attempts_fit(w.drive(now).0),
        w.drive(now).0.limits == w.limits,
{
    match w.phase {
        PhaseView::Rate(r) => {
            assert(w.drive(now).0.slots == w.slots);
            assert(w.drive(now).0.retries == w.retries);
        },
        _ => {},
    }
}

proof fn lemma_attempts_conn(w: WorkerView, x: Input)
    requires
        attempts_fit(w),
        x is Begin || x is SetUp || x is Polled || x is BodySent || x is ReadOut || x is Received
            || x is Flushed,
    ensures
        attempts_fit(step(w, x)),
        step(w, x).limits == w.limits,
{
    let v = step(w, x);
    assert(v.retries == w.retries && v.op == w.op && v.limits == w.limits);
    assert(v.slots.len() == w.slots.len());
    assert forall|i: int| 0 <= i < v.slots.len() implies ((#[trigger] v.slots[i]) matches Some(c)
        ==> (c.dial matches Some(job) ==> tries_fit(job, v.limits.dial_retries))) by {
        assert(w.slots[i] matches Some(c) ==> (c.dial matches Some(job) ==> tries_fit(
            job,
            w.limits.dial_retries,
        )));
    }
}

proof fn lemma_attempts_opened(w: WorkerView, now: Nanos)
    requires
        attempts_fit(w),
        laws::inv(w),
        w.op is Dial,
        w.slots.len() < usize::MAX,
    ensures
        attempts_fit(w.dial_opened(now)),
        w.dial_opened(now).limits == w.limits,
{
    let job = w.op->Dial_0;
    let idx = w.slot_for(job) as int;
    let v = w.dial_opened(now);
    match job.slot {
        Some(i) => {
            laws::lemma_redial_slot(w, job, i);
        },
        None => if w.free.len() > 0 {
            laws::lemma_free_slot(w);
        },
    }
    assert(v.retries == w.retries && v.op is Nothing);
    assert forall|i: int| 0 <= i < v.slots.len() implies ((#[trigger] v.slots[i]) matches Some(c)
        ==> (c.dial matches Some(j) ==> tries_fit(j, v.limits.dial_retries))) by {
        if i == idx {
            assert(v.slots[i] matches Some(c) && c.dial matches Some(j) && j.attempt == job.attempt);
        } else {
            assert(v.slots[i] == w.slots[i]);
        }
    }
}

proof fn lemma_attempts_unregistered(w: WorkerView, err: Seq<char>, now: Nanos)
    requires
        attempts_fit(w),
        laws::inv(w),
        w.op is Dial,
    ensures
        attempts_fit(w.dial_unregistered(err, now)),
        w.dial_unregistered(err, now).limits == w.limits,
{
    let job = w.op->Dial_0;
    let v = w.with_op(OpView::Nothing).slot_lost(job);
    if job.slot is Some {
        laws::lemma_redial_slot(w, job, job.slot->Some_0);
    }
    assert forall|i: int| 0 <= i < v.slots.len() implies ((#[trigger] v.slots[i]) matches Some(c)
        ==> (c.dial matches Some(j) ==> tries_fit(j, v.limits.dial_retries))) by {
        if v.slots[i] is Some {
            assert(v.slots[i] == w.slots[i]);
        }
    }
    lemma_attempts_job(v, job, err, now);
}

proof fn lemma_attempts_step(w: WorkerView, x: Input)
    requires
        attempts_fit(w),
        laws::inv(w),
        allowed(w, x),
    ensures
        attempts_fit(step(w, x)),
        step(w, x).limits == w.limits,
{
    match x {
        Input::Drive { now } => {
            lemma_attempts_drive(w, now);
        },
        Input::Issue { n, now } => {
            lemma_attempts_issue(w, n, now);
        },
        Input::DialOpened { now } => {
            lemma_attempts_opened(w, now);
        },
        Input::DialRefused { err, now } => {
            lemma_attempts_job(w.with_op(OpView::Nothing), w.op->Dial_0, err, now);
        },
        Input::DialUnregistered { err, now } => {
            lemma_attempts_unregistered(w, err, now);
        },
        Input::FireRetry { now } => {
            lemma_attempts_retry(w, now);
        },
        Input::Transmitted { request, now } => {
            lemma_attempts_transmitted(w, request, now);
        },
        Input::SendQueued { idx, now } => {
            lemma_attempts_queued(w, idx, now);
        },
        Input::NextEvent { now } => {
            lemma_attempts_event(w, now);
        },
        Input::FireTimer { now, timeout, established } => {
            lemma_attempts_timer(w, now, timeout, established);
        },
        Input::Keepalive { now } => {
            let v = w.keepalive(now);
            assert forall|i: int| 0 <= i < v.slots.len() implies ((#[trigger] v.slots[i]) matches Some(
                c,
            ) ==> (c.dial matches Some(job) ==> tries_fit(job, v.limits.dial_retries))) by {
                assert(w.slots[i] matches Some(c) ==> (c.dial matches Some(job) ==> tries_fit(
                    job,
                    w.limits.dial_retries,
                )));
            }
        },
        Input::Begin { idx, closed, established } => {
            lemma_attempts_conn(w, x);
        },
        Input::SetUp { idx, failed } => {
            lemma_attempts_conn(w, x);
        },
        Input::Polled { idx, ev } => {
            lemma_attempts_conn(w, x);
        },
        Input::BodySent { idx, i, body } => {
            lemma_attempts_conn(w, x);
        },
        Input::ReadOut { idx, closed } => {
            lemma_attempts_conn(w, x);
        },
        Input::Received { idx, got, failed, now } => {
            lemma_attempts_conn(w, x);
        },
        Input::Flushed { idx, sent, end, timeout, now } => {
            lemma_attempts_conn(w, x);
        },
        _ => {},
    }
}

/// Whatever happens to a worker, no connection is dialed more often in a row than
/// its limits allow, and once where they allow none.
pub proof fn no_dial_is_tried_too_often(limits: Limits, now: Nanos, xs: Seq<Input>)
    requires
        may_run(WorkerView::fresh(limits, now), xs),
    ensures
        attempts_fit(run(WorkerView::fresh(limits, now), xs)),
        run(WorkerView::fresh(limits, now), xs).limits == limits,
    decreases xs.len(),
{
    if xs.len() > 0 {
        no_dial_is_tried_too_often(limits, now, xs.drop_last());
        every_worker_keeps_to_it(limits, now, xs.drop_last());
        lemma_attempts_step(run(WorkerView::fresh(limits, now), xs.drop_last()), xs.last());
    }
}

} // verus!
