//! A worker as its contracts speak of it: its connections, what it is doing,
//! and what each thing that happens makes of them.

use vstd::multiset::Multiset;
use vstd::prelude::*;

use crate::engine::conn::{
    BodySent, ConnView, DialJob, EventView, H3View, Nanos, PendingView, Purpose, QueuedView,
    ReqKind, ReqView, State,
};
use crate::stats::LatenciesView;
use crate::timers::Timer;

verus! {

/// How many batches a connection may have unanswered in BenchMultiplex
/// before it is skipped for a tick.
pub const MAX_BATCHES_IN_FLIGHT: u64 = 4;

/// What a worker goes by for as long as it runs.
#[derive(Clone, Copy)]
pub struct Limits {
    pub dial_timeout: Nanos,
    pub dial_retries: usize,
    pub dial_retry_interval: Nanos,
    /// How long a connection may be quiet before it is sent a PING.
    pub keepalive: Nanos,
    pub check: bool,
}

#[derive(Clone, Copy)]
pub struct RateCounts {
    pub send_times: u64,
    pub send_bytes: u64,
    pub recv_times: u64,
    pub recv_bytes: u64,
    pub answered: u64,
}

/// Where a tick of BenchMultiplex is, by the place of a connection among those
/// it runs on.
#[derive(Clone, Copy)]
pub enum Tick {
    /// It looks for the next connection that may be sent a batch.
    Look(usize),
    /// It asks how many streams the server leaves the connection.
    Streams(usize),
    /// It asks for the batch's tokens.
    Tokens(usize),
    /// It sends what is left of the batch.
    Sending { at: usize, left: usize },
}

/// The place a tick is at.
pub open spec fn place(t: Tick) -> usize {
    match t {
        Tick::Look(at) => at,
        Tick::Streams(at) => at,
        Tick::Tokens(at) => at,
        Tick::Sending { at, left } => at,
    }
}

#[verifier::ext_equal]
pub struct EchoView {
    pub times: u64,
    pub payloads: Seq<Seq<u8>>,
    pub measure: bool,
    pub limited: bool,
}

#[verifier::ext_equal]
pub struct RateView {
    pub duration: Nanos,
    pub batch: usize,
    pub tick: Nanos,
    pub payload: Seq<u8>,
    pub limited: bool,
}

/// Dialing the connections of the Connections benchmark.
#[verifier::ext_equal]
pub struct DialPhase {
    pub remaining: nat,
    pub active: nat,
    pub concurrency: nat,
    /// How many more connections may be dialed before the worker rests.
    pub round: Option<nat>,
    pub lat: LatenciesView,
}

/// BenchEcho.
#[verifier::ext_equal]
pub struct EchoPhase {
    pub job: EchoView,
    pub slots: nat,
    pub in_flight: nat,
    pub idle: Seq<usize>,
    pub exhausted: bool,
    /// Whether the limiter let the next round trip through.
    pub granted: bool,
    pub wait_until: Option<Nanos>,
    pub lat: LatenciesView,
}

/// Dialing broken connections again before BenchMultiplex starts.
#[verifier::ext_equal]
pub struct PrepPhase {
    pub job: RateView,
    pub redials: nat,
    /// The broken connections that are yet to be dialed.
    pub todo: Seq<usize>,
    /// Whether all of them were dialed: the redials that are over count from then
    /// on.
    pub begun: bool,
}

/// BenchMultiplex.
#[verifier::ext_equal]
pub struct RatePhase {
    pub job: RateView,
    pub conns: Seq<usize>,
    pub deadline: Nanos,
    pub next_tick: Nanos,
    pub grace_until: Option<Nanos>,
    pub counts: RateCounts,
    pub tick: Option<Tick>,
}

#[verifier::ext_equal]
pub enum PhaseView {
    Idle,
    Dial(DialPhase),
    Echo(EchoPhase),
    RatePrep(PrepPhase),
    Rate(RatePhase),
}

/// What a worker asks to be done, and waits for the outcome of.
#[verifier::ext_equal]
pub enum OpView {
    Nothing,
    /// Open a connection.
    Dial(DialJob),
    /// Send a request; `queued` where it waited for room before.
    Send { idx: usize, kind: ReqKind, body: Seq<u8>, queued: bool },
}

#[verifier::ext_equal]
pub enum OutcomeView {
    Dial(LatenciesView),
    Echo(LatenciesView),
    Rate(RateCounts),
}

/// What a worker wants next.
#[verifier::ext_equal]
pub enum ActView {
    /// Nothing, until something happens.
    Rest,
    /// A connection opened, for the operation it waits for.
    Open,
    /// A request sent, for the operation it waits for.
    Transmit,
    /// That many tokens of the job's limiter.
    Take(usize),
    /// The number of the next round trip.
    Number,
    /// How many streams the server leaves the connection in a slot.
    Streams(usize),
    /// Nothing more: the benchmark is over.
    Done(OutcomeView),
}

#[verifier::ext_equal]
pub struct WorkerView {
    pub limits: Limits,
    pub slots: Seq<Option<ConnView>>,
    pub free: Seq<usize>,
    pub timers: Multiset<Timer>,
    pub retries: Seq<(Nanos, DialJob)>,
    pub dirty: Seq<usize>,
    /// What connections have reported and the worker has not acted on.
    pub events: Seq<(usize, EventView)>,
    pub op: OpView,
    pub phase: PhaseView,
    pub next_keepalive: Nanos,
    /// How many connections are up and serving.
    pub ready: nat,
    /// How many connections of the Connections benchmark came up.
    pub connected: nat,
    /// How many datagrams a full socket buffer dropped.
    pub dropped: nat,
    /// Why redials before BenchMultiplex were given up.
    pub notes: Seq<Seq<char>>,
}

impl WorkerView {
    /// A worker without connections, which has nothing to do.
    pub open spec fn fresh(limits: Limits, now: Nanos) -> WorkerView {
        WorkerView {
            limits,
            slots: Seq::empty(),
            free: Seq::empty(),
            timers: Multiset::empty(),
            retries: Seq::empty(),
            dirty: Seq::empty(),
            events: Seq::empty(),
            op: OpView::Nothing,
            phase: PhaseView::Idle,
            next_keepalive: (now + 1_000_000_000) as Nanos,
            ready: 0,
            connected: 0,
            dropped: 0,
            notes: Seq::empty(),
        }
    }
}

/// The numbers below `n` of which `f` holds, in order.
pub open spec fn indices(n: nat, f: spec_fn(int) -> bool) -> Seq<usize>
    decreases n,
{
    if n == 0 {
        Seq::empty()
    } else if f(n - 1) {
        indices((n - 1) as nat, f).push((n - 1) as usize)
    } else {
        indices((n - 1) as nat, f)
    }
}

/// The time from one moment to a later one.
pub open spec fn since(now: Nanos, start: Nanos) -> nat {
    if now > start {
        (now - start) as nat
    } else {
        0
    }
}

pub open spec fn earlier(a: Option<Nanos>, b: Option<Nanos>) -> Option<Nanos> {
    match a {
        None => b,
        Some(x) => match b {
            None => a,
            Some(y) => if x <= y {
                a
            } else {
                b
            },
        },
    }
}

/// Whether an answer counts as one although it is not the one that was wanted.
pub open spec fn answers(e: Seq<char>) -> bool {
    "status "@.is_prefix_of(e) || "response body"@.is_prefix_of(e)
}

/// How many bytes a report says that BenchMultiplex was answered.
pub open spec fn answer_bytes(e: EventView) -> nat {
    match e {
        EventView::Response { kind: ReqKind::Rate, result: Ok(n) } => n as nat,
        _ => 0,
    }
}

impl RateCounts {
    pub open spec fn none() -> RateCounts {
        RateCounts { send_times: 0, send_bytes: 0, recv_times: 0, recv_bytes: 0, answered: 0 }
    }

    pub open spec fn sent(self, bytes: nat) -> RateCounts {
        RateCounts {
            send_times: (self.send_times + 1) as u64,
            send_bytes: (self.send_bytes + bytes) as u64,
            ..self
        }
    }

    pub open spec fn with_response(self, result: Result<usize, Seq<char>>) -> RateCounts {
        match result {
            Ok(n) => RateCounts {
                answered: (self.answered + 1) as u64,
                recv_times: (self.recv_times + 1) as u64,
                recv_bytes: (self.recv_bytes + n) as u64,
                ..self
            },
            Err(e) => if answers(e) {
                RateCounts { answered: (self.answered + 1) as u64, ..self }
            } else {
                self
            },
        }
    }
}

impl EchoPhase {
    /// A round trip is over, and its connection idle again.
    pub open spec fn done(
        self,
        idx: usize,
        result: Result<usize, Seq<char>>,
        start: Nanos,
        now: Nanos,
    ) -> EchoPhase {
        EchoPhase {
            in_flight: (self.in_flight - 1) as nat,
            idle: self.idle.push(idx),
            lat: if !self.job.measure {
                self.lat
            } else {
                match result {
                    Ok(_) => self.lat.ok(since(now, start)),
                    Err(e) => self.lat.fail(e),
                }
            },
            ..self
        }
    }
}

impl PrepPhase {
    /// A redial is over, one way or the other.
    pub open spec fn counted_off(self) -> PrepPhase {
        PrepPhase {
            redials: if self.begun {
                (self.redials - 1) as nat
            } else {
                self.redials
            },
            ..self
        }
    }
}

impl RatePhase {
    pub open spec fn at(self, tick: Option<Tick>) -> RatePhase {
        RatePhase { tick, ..self }
    }

    /// The place after the one the tick is at.
    pub open spec fn skip(self) -> RatePhase {
        match self.tick {
            Some(Tick::Streams(at)) => self.at(Some(Tick::Look((at + 1) as usize))),
            Some(Tick::Tokens(at)) => self.at(Some(Tick::Look((at + 1) as usize))),
            Some(Tick::Sending { at, left }) => self.at(Some(Tick::Look((at + 1) as usize))),
            _ => self,
        }
    }

    /// The batch goes out at `at`.
    pub open spec fn send_at(self, at: usize) -> RatePhase {
        if self.job.batch == 0 {
            self.at(Some(Tick::Look((at + 1) as usize)))
        } else {
            self.at(Some(Tick::Sending { at, left: self.job.batch }))
        }
    }

    /// One request of the batch is out.
    pub open spec fn one_sent(self) -> RatePhase {
        let r = RatePhase { counts: self.counts.sent(self.job.payload.len()), ..self };
        match self.tick {
            Some(Tick::Sending { at, left }) => if left <= 1 {
                r.at(Some(Tick::Look((at + 1) as usize)))
            } else {
                r.at(Some(Tick::Sending { at, left: (left - 1) as usize }))
            },
            _ => r,
        }
    }

    /// The first tick after now, of those that come every `tick` from the next
    /// one on. A tick the loop was too busy to take is dropped rather than sent
    /// late on top of the next one.
    pub open spec fn tick_after(self, now: Nanos) -> Nanos {
        (self.next_tick + ((now - self.next_tick) / (self.job.tick as int) + 1) * self.job.tick) as Nanos
    }
}

impl ConnView {
    /// A connection that is no longer being dialed, and did not come up.
    pub open spec fn given_up(self) -> ConnView {
        ConnView { state: State::Broken, dial: None, attempt_deadline: None, ..self.cleared() }
    }

    pub open spec fn come_up(self) -> ConnView {
        ConnView { state: State::Ready, dial: None, attempt_deadline: None, ..self }
    }

    pub open spec fn with_queued(self, q: Seq<QueuedView>) -> ConnView {
        ConnView { queued: q, ..self }
    }

    /// A request is out on a stream, `off` bytes of its body with it.
    pub open spec fn with_sent(
        self,
        kind: ReqKind,
        body: Seq<u8>,
        stream: u64,
        off: usize,
    ) -> ConnView {
        ConnView {
            pending: if off < body.len() {
                self.pending.push(PendingView { stream, body, off })
            } else {
                self.pending
            },
            streams: crate::engine::conn::noted(
                self.streams,
                ReqView {
                    stream,
                    kind,
                    expect: if kind == ReqKind::Dial {
                        Seq::empty()
                    } else {
                        body
                    },
                    status: 0,
                    got: 0,
                    mismatch: false,
                },
            ),
            in_flight: if kind == ReqKind::Rate {
                (self.in_flight + 1) as u64
            } else {
                self.in_flight
            },
            ..self
        }
    }

    /// When the connection is to be looked at: when its transport wants it,
    /// and at the latest when its dial is given up.
    pub open spec fn due_at(self, timeout: Option<Nanos>) -> Option<Nanos> {
        earlier(timeout, self.attempt_deadline)
    }

    /// Whether a timer must be set for that moment: none is, or a later one.
    pub open spec fn needs_timer(self, due: Option<Nanos>) -> bool {
        due is Some && (self.scheduled is None || due->Some_0 < self.scheduled->Some_0)
    }
}

impl WorkerView {
    pub open spec fn conn(self, i: int) -> Option<ConnView> {
        if 0 <= i < self.slots.len() {
            self.slots[i]
        } else {
            None
        }
    }

    pub open spec fn with_conn(self, i: int, c: ConnView) -> WorkerView {
        WorkerView { slots: self.slots.update(i, Some(c)), ..self }
    }

    pub open spec fn with_phase(self, phase: PhaseView) -> WorkerView {
        WorkerView { phase, ..self }
    }

    pub open spec fn with_op(self, op: OpView) -> WorkerView {
        WorkerView { op, ..self }
    }

    pub open spec fn with_events(self, idx: usize, evs: Seq<EventView>) -> WorkerView {
        WorkerView { events: self.events + crate::engine::conn::tagged(idx, evs), ..self }
    }

    /// The connection owes a flush.
    pub open spec fn mark_dirty(self, i: int) -> WorkerView {
        match self.conn(i) {
            Some(c) => if c.dirty {
                self
            } else {
                WorkerView {
                    slots: self.slots.update(i, Some(ConnView { dirty: true, ..c })),
                    dirty: self.dirty.push(i as usize),
                    ..self
                }
            },
            None => self,
        }
    }

    // -- round trips and dials that are over ---------------------------------

    pub open spec fn echo_done(
        self,
        idx: usize,
        result: Result<usize, Seq<char>>,
        start: Nanos,
        now: Nanos,
    ) -> WorkerView {
        match self.phase {
            PhaseView::Echo(e) => self.with_phase(PhaseView::Echo(e.done(idx, result, start, now))),
            _ => self,
        }
    }

    /// A dial attempt failed: it is made again later, or for the last time
    /// counted as a failure.
    pub open spec fn dial_failed_job(self, job: DialJob, err: Seq<char>, now: Nanos) -> WorkerView {
        if job.attempt < self.limits.dial_retries {
            WorkerView {
                retries: self.retries.push(
                    (
                        (now + self.limits.dial_retry_interval) as Nanos,
                        DialJob { attempt: (job.attempt + 1) as usize, ..job },
                    ),
                ),
                ..self
            }
        } else {
            match job.purpose {
                Purpose::New => match self.phase {
                    PhaseView::Dial(d) => self.with_phase(
                        PhaseView::Dial(
                            DialPhase { active: (d.active - 1) as nat, lat: d.lat.fail(err), ..d },
                        ),
                    ),
                    _ => self,
                },
                Purpose::RedialEcho { start } => match job.slot {
                    Some(idx) => self.echo_done(idx, Err("redial: "@ + err), start, now),
                    None => self,
                },
                Purpose::RedialRate => {
                    let w = WorkerView { notes: self.notes.push(err), ..self };
                    match self.phase {
                        PhaseView::RatePrep(p) => w.with_phase(
                            PhaseView::RatePrep(p.counted_off()),
                        ),
                        _ => w,
                    }
                },
            }
        }
    }

    /// The dial of the connection in a slot failed. A new connection that never
    /// came up leaves nothing behind.
    pub open spec fn dial_failed(self, idx: usize, err: Seq<char>, now: Nanos) -> WorkerView {
        match self.conn(idx as int) {
            Some(c) => match c.dial {
                Some(job) => if job.purpose == Purpose::New {
                    WorkerView {
                        slots: self.slots.update(idx as int, None),
                        free: self.free.push(idx),
                        ..self
                    }.dial_failed_job(DialJob { slot: None, ..job }, err, now)
                } else {
                    self.with_conn(idx as int, c.given_up()).dial_failed_job(job, err, now)
                },
                None => self,
            },
            None => self,
        }
    }

    /// The first request on a connection was answered: it is up.
    pub open spec fn dial_ok(self, idx: usize, now: Nanos) -> WorkerView {
        match self.conn(idx as int) {
            Some(c) => match c.dial {
                Some(job) => {
                    let w = WorkerView { ready: self.ready + 1, ..self.with_conn(
                        idx as int,
                        c.come_up(),
                    ) };
                    match job.purpose {
                        Purpose::New => {
                            let w = WorkerView { connected: self.connected + 1, ..w };
                            match self.phase {
                                PhaseView::Dial(d) => w.with_phase(
                                    PhaseView::Dial(
                                        DialPhase {
                                            active: (d.active - 1) as nat,
                                            lat: d.lat.ok(since(now, job.start)),
                                            ..d
                                        },
                                    ),
                                ),
                                _ => w,
                            }
                        },
                        Purpose::RedialEcho { start } => match self.phase {
                            PhaseView::Echo(e) => w.send_request(
                                idx,
                                ReqKind::Echo { start },
                                e.job.payloads[0],
                                now,
                            ),
                            _ => w,
                        },
                        Purpose::RedialRate => match self.phase {
                            PhaseView::RatePrep(p) => w.with_phase(
                                PhaseView::RatePrep(p.counted_off()),
                            ),
                            _ => w,
                        },
                    }
                },
                None => self,
            },
            None => self,
        }
    }

    // -- requests --------------------------------------------------------------

    /// A request could not be sent: the dial failed, the round trip is over, or
    /// the rest of the batch is left out.
    pub open spec fn send_failed(
        self,
        idx: usize,
        kind: ReqKind,
        err: Seq<char>,
        now: Nanos,
    ) -> WorkerView {
        match kind {
            ReqKind::Dial => self.dial_failed(idx, err, now),
            ReqKind::Echo { start } => self.echo_done(idx, Err(err), start, now),
            ReqKind::Rate => match self.phase {
                PhaseView::Rate(r) => self.with_phase(PhaseView::Rate(r.skip())),
                _ => self,
            },
        }
    }

    /// Tries to send a request on a connection.
    pub open spec fn try_send(
        self,
        idx: usize,
        kind: ReqKind,
        body: Seq<u8>,
        queued: bool,
        now: Nanos,
    ) -> WorkerView {
        match self.conn(idx as int) {
            Some(c) => if c.h3 {
                self.with_op(OpView::Send { idx, kind, body, queued })
            } else {
                self.send_failed(idx, kind, "no HTTP/3 connection"@, now)
            },
            None => self,
        }
    }

    /// Sends a request, or for a BenchEcho round trip or a first GET on a
    /// connection where others wait for room, queues it behind them.
    pub open spec fn send_request(
        self,
        idx: usize,
        kind: ReqKind,
        body: Seq<u8>,
        now: Nanos,
    ) -> WorkerView {
        match self.conn(idx as int) {
            Some(c) => if kind != ReqKind::Rate && c.queued.len() > 0 {
                self.with_conn(idx as int, c.with_queued(c.queued.push(QueuedView { kind, body })))
            } else {
                self.try_send(idx, kind, body, false, now)
            },
            None => self,
        }
    }

    /// Takes the request that waits longest for room on a connection.
    pub open spec fn send_queued(self, idx: usize, now: Nanos) -> WorkerView {
        match self.conn(idx as int) {
            Some(c) => if c.queued.len() > 0 {
                self.with_conn(idx as int, c.with_queued(c.queued.drop_first())).try_send(
                    idx,
                    c.queued[0].kind,
                    c.queued[0].body,
                    true,
                    now,
                )
            } else {
                self
            },
            None => self,
        }
    }
}

/// What came of sending a request.
pub enum SentView {
    /// It is out on a stream, `off` bytes of its body with it.
    Out { stream: u64, off: usize },
    /// No room on the connection yet: flow control, the congestion window or
    /// the server's stream limit.
    Blocked,
    /// The connection is in no state to carry requests.
    HeadersFailed(Seq<char>),
    BodyFailed(Seq<char>),
}

impl WorkerView {
    /// The request the worker waited for was sent, or not. One that found no
    /// room waits for it, unless it is of BenchMultiplex, which skips a
    /// connection that cannot take a batch rather than build a backlog in front
    /// of the server.
    pub open spec fn transmitted(self, sent: SentView, now: Nanos) -> WorkerView {
        match self.op {
            OpView::Send { idx, kind, body, queued } => {
                let w = self.with_op(OpView::Nothing);
                match self.conn(idx as int) {
                    None => w,
                    Some(c) => match sent {
                        SentView::Out { stream, off } => {
                            let w = w.with_conn(idx as int, c.with_sent(kind, body, stream, off));
                            let w = if kind != ReqKind::Rate {
                                w
                            } else {
                                match w.phase {
                                    PhaseView::Rate(r) => w.with_phase(
                                        PhaseView::Rate(r.one_sent()),
                                    ),
                                    _ => w,
                                }
                            };
                            w.mark_dirty(idx as int)
                        },
                        SentView::Blocked => if kind == ReqKind::Rate {
                            w.send_failed(idx, kind, Seq::empty(), now)
                        } else if queued {
                            w.with_conn(
                                idx as int,
                                c.with_queued(seq![QueuedView { kind, body }] + c.queued),
                            )
                        } else {
                            w.with_conn(
                                idx as int,
                                c.with_queued(c.queued.push(QueuedView { kind, body })),
                            )
                        },
                        SentView::HeadersFailed(e) => w.mark_dirty(idx as int).send_failed(
                            idx,
                            kind,
                            "send request: "@ + e,
                            now,
                        ),
                        SentView::BodyFailed(e) => w.mark_dirty(idx as int).send_failed(
                            idx,
                            kind,
                            "send body: "@ + e,
                            now,
                        ),
                    },
                }
            },
            _ => self,
        }
    }

    /// Whether the request the worker waits for can have gone out so: a first GET
    /// does not go out on the stream of a round trip, which would be lost.
    pub open spec fn goes_out(self, sent: SentView) -> bool {
        match (self.op, sent) {
            (
                OpView::Send { idx, kind: ReqKind::Dial, body, queued },
                SentView::Out { stream, off },
            ) => match self.conn(idx as int) {
                Some(c) => c.has(stream) ==> !(c.req(stream).kind is Echo),
                None => true,
            },
            _ => true,
        }
    }

    // -- dialing -----------------------------------------------------------------

    /// The slot a dial goes into: the one it is to be dialed into again, the one
    /// that was freed last, or a new one.
    pub open spec fn slot_for(self, job: DialJob) -> usize {
        match job.slot {
            Some(i) => i,
            None => if self.free.len() > 0 {
                self.free.last()
            } else {
                self.slots.len() as usize
            },
        }
    }

    /// The connection the worker waited for is open, and handshakes.
    pub open spec fn dial_opened(self, now: Nanos) -> WorkerView {
        match self.op {
            OpView::Dial(job) => {
                let idx = self.slot_for(job);
                let c = ConnView::fresh(
                    DialJob { slot: Some(idx), ..job },
                    now,
                    (now + self.limits.dial_timeout) as Nanos,
                );
                let w = self.with_op(OpView::Nothing);
                if job.slot is Some {
                    w.with_conn(idx as int, c)
                } else if self.free.len() > 0 {
                    WorkerView { free: self.free.drop_last(), ..w.with_conn(idx as int, c) }
                } else {
                    WorkerView { slots: self.slots.push(Some(c)), ..w }
                }
            },
            _ => self,
        }
    }

    /// The connection the worker waited for could not be opened.
    pub open spec fn dial_refused(self, err: Seq<char>, now: Nanos) -> WorkerView {
        match self.op {
            OpView::Dial(job) => self.with_op(OpView::Nothing).dial_failed_job(job, err, now),
            _ => self,
        }
    }

    /// What the slot of a dial held is gone. The slot stays in use.
    pub open spec fn slot_lost(self, job: DialJob) -> WorkerView {
        match job.slot {
            Some(i) => WorkerView { slots: self.slots.update(i as int, None), ..self },
            None => if self.free.len() > 0 {
                WorkerView { free: self.free.drop_last(), ..self }
            } else {
                WorkerView { slots: self.slots.push(None), ..self }
            },
        }
    }

    /// The connection the worker waited for is open, but cannot be polled: it had
    /// its slot by then.
    pub open spec fn dial_unregistered(self, err: Seq<char>, now: Nanos) -> WorkerView {
        match self.op {
            OpView::Dial(job) => self.with_op(OpView::Nothing).slot_lost(job).dial_failed_job(
                job,
                err,
                now,
            ),
            _ => self,
        }
    }

    /// Whether a dial is to be made again by now.
    pub open spec fn retry_due(self, now: Nanos) -> bool {
        self.retries.len() > 0 && self.retries[0].0 <= now
    }

    pub open spec fn fire_retry(self, now: Nanos) -> WorkerView {
        if self.retry_due(now) {
            WorkerView {
                retries: self.retries.drop_first(),
                op: OpView::Dial(self.retries[0].1),
                ..self
            }
        } else {
            self
        }
    }

    // -- what connections report ---------------------------------------------------

    /// A request was answered, or failed. Responses to a benchmark that has
    /// already been counted are left out of it.
    pub open spec fn response(
        self,
        idx: usize,
        kind: ReqKind,
        result: Result<usize, Seq<char>>,
        now: Nanos,
    ) -> WorkerView {
        match kind {
            ReqKind::Dial => match result {
                Ok(_) => self.dial_ok(idx, now),
                Err(e) => self.dial_failed(idx, e, now),
            },
            ReqKind::Echo { start } => self.echo_done(idx, result, start, now),
            ReqKind::Rate => {
                let w = match self.conn(idx as int) {
                    Some(c) => self.with_conn(
                        idx as int,
                        ConnView {
                            in_flight: if c.in_flight > 0 {
                                (c.in_flight - 1) as u64
                            } else {
                                0
                            },
                            ..c
                        },
                    ),
                    None => self,
                };
                match self.phase {
                    PhaseView::Rate(r) => w.with_phase(
                        PhaseView::Rate(RatePhase { counts: r.counts.with_response(result), ..r }),
                    ),
                    _ => w,
                }
            },
        }
    }

    pub open spec fn event(self, idx: usize, ev: EventView, now: Nanos) -> WorkerView {
        match ev {
            EventView::Established => self.send_request(idx, ReqKind::Dial, Seq::empty(), now),
            EventView::Response { kind, result } => self.response(idx, kind, result, now),
            EventView::Closed(reason) => match self.conn(idx as int) {
                Some(c) => match c.state {
                    State::Connecting => self.dial_failed(idx, reason, now),
                    State::Ready => WorkerView {
                        ready: (self.ready - 1) as nat,
                        ..self.with_conn(idx as int, ConnView { state: State::Broken, ..c })
                    },
                    State::Broken => self,
                },
                None => self,
            },
        }
    }

    /// Acts on the report that came first.
    pub open spec fn next_event(self, now: Nanos) -> WorkerView {
        if self.events.len() == 0 {
            self
        } else {
            WorkerView { events: self.events.drop_first(), ..self }.event(
                self.events[0].0,
                self.events[0].1,
                now,
            )
        }
    }
}

/// What to do about a connection that has something to read or is to be looked
/// after.
#[derive(Clone, Copy)]
pub enum Look {
    /// Nothing: there is no connection.
    Rest,
    /// Close it, and act on what it reports.
    Close,
    /// Act on what it reports.
    Handle,
    /// Set its HTTP/3 side up.
    Setup,
    /// Read what its HTTP/3 side has.
    Poll,
}

impl WorkerView {
    /// The connection is closed: its requests fail, and it reports that.
    pub open spec fn close_conn(self, idx: usize, c: ConnView, reason: Seq<char>) -> WorkerView {
        self.with_conn(idx as int, c.cleared()).with_events(
            idx,
            c.failures(reason).push(EventView::Closed(reason)),
        )
    }

    /// Begins to look after a connection, given why it is closed, if it is, and
    /// whether its handshake is complete.
    pub open spec fn begin(
        self,
        idx: usize,
        closed: Option<Seq<char>>,
        established: bool,
    ) -> (WorkerView, Look) {
        match self.conn(idx as int) {
            None => (self, Look::Rest),
            Some(c) => match c.socket_error {
                Some(err) => (
                    self.close_conn(idx, ConnView { socket_error: None, ..c }, err).mark_dirty(
                        idx as int,
                    ),
                    if closed is None {
                        Look::Close
                    } else {
                        Look::Handle
                    },
                ),
                None => match closed {
                    Some(reason) => (
                        self.close_conn(idx, c, reason).mark_dirty(idx as int),
                        Look::Handle,
                    ),
                    None => (
                        self.mark_dirty(idx as int),
                        if c.h3 {
                            Look::Poll
                        } else if established {
                            Look::Setup
                        } else {
                            Look::Handle
                        },
                    ),
                },
            },
        }
    }

    /// The HTTP/3 side of a connection was set up, or not.
    pub open spec fn set_up(self, idx: usize, failed: Option<Seq<char>>) -> WorkerView {
        match self.conn(idx as int) {
            None => self,
            Some(c) => match failed {
                None => {
                    let w = self.with_conn(idx as int, ConnView { h3: true, ..c });
                    if c.state == State::Connecting {
                        w.with_events(idx, seq![EventView::Established])
                    } else {
                        w
                    }
                },
                Some(e) => self.with_events(
                    idx,
                    seq![EventView::Closed("HTTP/3 setup: "@ + e)],
                ),
            },
        }
    }

    /// The HTTP/3 side of a connection reported something.
    pub open spec fn polled(self, idx: usize, ev: H3View) -> WorkerView {
        match self.conn(idx as int) {
            None => self,
            Some(c) => {
                let (after, said) = crate::engine::conn::h3_step(c, ev, self.limits.check);
                let w = self.with_conn(idx as int, after);
                match said {
                    Some(e) => w.with_events(idx, seq![e]),
                    None => w,
                }
            },
        }
    }

    /// Some of a body that waited on a connection was sent, or not.
    pub open spec fn body_sent(self, idx: usize, i: int, sent: BodySent) -> WorkerView {
        match self.conn(idx as int) {
            None => self,
            Some(c) => self.with_conn(idx as int, crate::engine::conn::body_step(c, i, sent)),
        }
    }

    /// The connection has been read, and is closed for that reason if it is.
    pub open spec fn read_out(self, idx: usize, closed: Option<Seq<char>>) -> WorkerView {
        match self.conn(idx as int) {
            None => self,
            Some(c) => match closed {
                Some(reason) => self.close_conn(idx, c, reason),
                None => self,
            },
        }
    }

    // -- the socket ----------------------------------------------------------------

    /// Datagrams were read off the socket, until an error if there was one.
    pub open spec fn received(
        self,
        idx: usize,
        got: bool,
        failed: Option<Seq<char>>,
        now: Nanos,
    ) -> WorkerView {
        match self.conn(idx as int) {
            None => self,
            Some(c) => self.with_conn(
                idx as int,
                ConnView {
                    socket_error: match failed {
                        Some(e) => Some("recv: "@ + e),
                        None => c.socket_error,
                    },
                    last_active: if got {
                        now
                    } else {
                        c.last_active
                    },
                    ..c
                },
            ),
        }
    }

    /// Sees to it that a timer is set for when the connection is due.
    pub open spec fn schedule(self, idx: usize, timeout: Option<Nanos>) -> WorkerView {
        match self.conn(idx as int) {
            None => self,
            Some(c) => {
                let due = c.due_at(timeout);
                if c.needs_timer(due) {
                    WorkerView {
                        timers: self.timers.insert((due->Some_0, idx)),
                        ..self.with_conn(
                            idx as int,
                            ConnView { deadline: due, scheduled: due, ..c },
                        )
                    }
                } else {
                    self.with_conn(idx as int, ConnView { deadline: due, ..c })
                }
            },
        }
    }
}

/// How writing a connection's datagrams to its socket ended.
pub enum FlushView {
    /// There were no more.
    Empty,
    /// The socket buffer is full.
    Full,
    SocketFailed(Seq<char>),
    TransportFailed(Seq<char>),
}

impl WorkerView {
    /// A connection's datagrams were written to its socket, until it ended so.
    pub open spec fn flushed(
        self,
        idx: usize,
        sent: bool,
        end: FlushView,
        timeout: Option<Nanos>,
        now: Nanos,
    ) -> WorkerView {
        match self.conn(idx as int) {
            None => self,
            Some(c) => WorkerView {
                dropped: if end == FlushView::Full {
                    self.dropped + 1
                } else {
                    self.dropped
                },
                ..self.with_conn(
                    idx as int,
                    ConnView {
                        dirty: false,
                        last_active: if sent {
                            now
                        } else {
                            c.last_active
                        },
                        socket_error: match end {
                            FlushView::SocketFailed(e) => Some("send: "@ + e),
                            FlushView::TransportFailed(e) => Some("quiche send: "@ + e),
                            _ => c.socket_error,
                        },
                        ..c
                    },
                ).schedule(idx, timeout)
            },
        }
    }

    /// Whether the connection in a slot owes a flush.
    pub open spec fn owes_flush(self, i: usize) -> bool {
        match self.conn(i as int) {
            Some(c) => c.dirty,
            None => false,
        }
    }
}

/// The list without the slots at its end that owe no flush.
pub open spec fn trimmed(w: WorkerView, dirty: Seq<usize>) -> Seq<usize>
    decreases dirty.len(),
{
    if dirty.len() == 0 || w.owes_flush(dirty.last()) {
        dirty
    } else {
        trimmed(w, dirty.drop_last())
    }
}

/// Whether a timer is the one that was set last for its slot.
pub open spec fn current(slots: Seq<Option<ConnView>>, t: Timer) -> bool {
    t.1 < slots.len() && slots[t.1 as int] is Some && slots[t.1 as int]->Some_0.scheduled == Some(
        t.0,
    )
}

/// The timers without those at the front that have run out by now and were set
/// before another.
pub open spec fn fresh_timers(
    timers: Multiset<Timer>,
    slots: Seq<Option<ConnView>>,
    now: Nanos,
) -> Multiset<Timer>
    decreases timers.len(),
{
    match crate::timers::first(timers) {
        Some(t) => if timers.count(t) > 0 && t.0 <= now && !current(slots, t) {
            fresh_timers(timers.remove(t), slots, now)
        } else {
            timers
        },
        None => timers,
    }
}

/// What a timer that ran out came to.
#[derive(Clone, Copy)]
pub enum Fired {
    /// The connection is not due yet, and has a new timer.
    NotDue,
    /// Its dial is given up.
    GaveUp,
    /// Its transport is to be told, and looked after.
    Expired,
}

impl WorkerView {
    pub open spec fn trim_dirty(self) -> WorkerView {
        WorkerView { dirty: trimmed(self, self.dirty), ..self }
    }

    pub open spec fn drop_stale(self, now: Nanos) -> WorkerView {
        WorkerView { timers: fresh_timers(self.timers, self.slots, now), ..self }
    }

    /// The slot whose timer has run out by now.
    pub open spec fn timer_due(self, now: Nanos) -> Option<usize> {
        match crate::timers::first(self.timers) {
            Some(t) => if t.0 <= now && current(self.slots, t) {
                Some(t.1)
            } else {
                None
            },
            None => None,
        }
    }

    /// Acts on the timer that has run out, given when the connection's transport
    /// wants to be looked at and whether its handshake is complete.
    pub open spec fn fire_timer(
        self,
        now: Nanos,
        timeout: Option<Nanos>,
        established: bool,
    ) -> (WorkerView, Fired) {
        let t = crate::timers::first(self.timers)->Some_0;
        let idx = t.1;
        let c = self.slots[idx as int]->Some_0;
        let w = WorkerView {
            timers: self.timers.remove(t),
            ..self.with_conn(idx as int, ConnView { scheduled: None, ..c })
        };
        if !(c.deadline matches Some(d) && d <= now) {
            (w.schedule(idx, timeout), Fired::NotDue)
        } else if c.state == State::Connecting && (c.attempt_deadline matches Some(a) && a <= now) {
            (
                w.dial_failed(
                    idx,
                    if established {
                        "timeout waiting for the first response"@
                    } else {
                        "handshake timeout"@
                    },
                    now,
                ),
                Fired::GaveUp,
            )
        } else {
            (w.mark_dirty(idx as int), Fired::Expired)
        }
    }

    /// Whether a connection has been quiet for so long that it is sent a PING.
    pub open spec fn quiet(self, i: int, now: Nanos) -> bool {
        match self.slots[i] {
            Some(c) => c.state == State::Ready && c.streams.len() == 0 && since(now, c.last_active)
                >= self.limits.keepalive,
            None => false,
        }
    }

    /// The connections to send a PING to, once a second.
    pub open spec fn to_ping(self, now: Nanos) -> Seq<usize> {
        if now < self.next_keepalive {
            Seq::empty()
        } else {
            indices(self.slots.len(), |i: int| self.quiet(i, now))
        }
    }

    pub open spec fn keepalive(self, now: Nanos) -> WorkerView {
        if now < self.next_keepalive {
            self
        } else {
            WorkerView {
                next_keepalive: (now + 1_000_000_000) as Nanos,
                slots: Seq::new(
                    self.slots.len(),
                    |i: int|
                        if self.quiet(i, now) {
                            Some(ConnView { dirty: true, ..self.slots[i]->Some_0 })
                        } else {
                            self.slots[i]
                        },
                ),
                dirty: self.dirty + indices(
                    self.slots.len(),
                    |i: int| self.quiet(i, now) && !self.slots[i]->Some_0.dirty,
                ),
                ..self
            }
        }
    }

    // -- the benchmarks ------------------------------------------------------------

    pub open spec fn start_dial(self, count: usize, concurrency: usize) -> WorkerView {
        self.with_phase(
            PhaseView::Dial(
                DialPhase {
                    remaining: count as nat,
                    active: 0,
                    concurrency: concurrency as nat,
                    round: None,
                    lat: LatenciesView::none(),
                },
            ),
        )
    }

    /// The slots that hold a connection.
    pub open spec fn occupied(self) -> Seq<usize> {
        indices(self.slots.len(), |i: int| self.slots[i] is Some)
    }

    pub open spec fn in_state(self, s: State) -> Seq<usize> {
        indices(
            self.slots.len(),
            |i: int| self.slots[i] is Some && self.slots[i]->Some_0.state == s,
        )
    }

    pub open spec fn start_echo(self, job: EchoView, concurrency: usize) -> WorkerView {
        let idle = self.occupied();
        let slots = if concurrency < idle.len() {
            concurrency as nat
        } else {
            idle.len()
        };
        self.with_phase(
            PhaseView::Echo(
                EchoPhase {
                    job,
                    slots,
                    in_flight: 0,
                    idle,
                    exhausted: slots == 0,
                    granted: false,
                    wait_until: None,
                    lat: LatenciesView::none(),
                },
            ),
        )
    }

    pub open spec fn start_rate(self, job: RateView) -> WorkerView {
        let broken = self.in_state(State::Broken);
        self.with_phase(
            PhaseView::RatePrep(
                PrepPhase { job, redials: broken.len(), todo: broken, begun: false },
            ),
        )
    }

    pub open spec fn dial_for(self, start: Nanos, purpose: Purpose, slot: Option<usize>) -> WorkerView {
        self.with_op(OpView::Dial(DialJob { start, attempt: 1, purpose, slot }))
    }

    pub open spec fn finish(self, outcome: OutcomeView) -> (WorkerView, ActView) {
        (self.with_phase(PhaseView::Idle), ActView::Done(outcome))
    }

    /// Dials as many connections as there is room for. A dial that fails at once
    /// makes room only for after the worker has rested.
    pub open spec fn drive_dial(self, d: DialPhase, now: Nanos) -> (WorkerView, ActView) {
        let left = match d.round {
            Some(n) => n as int,
            None => d.concurrency - d.active,
        };
        if d.round is None && d.remaining == 0 && d.active == 0 {
            self.finish(OutcomeView::Dial(d.lat))
        } else if left > 0 && d.remaining > 0 && d.active < d.concurrency {
            (
                self.with_phase(
                    PhaseView::Dial(
                        DialPhase {
                            remaining: (d.remaining - 1) as nat,
                            active: d.active + 1,
                            round: Some((left - 1) as nat),
                            ..d
                        },
                    ),
                ).dial_for(now, Purpose::New, None),
                ActView::Open,
            )
        } else {
            (self.with_phase(PhaseView::Dial(DialPhase { round: None, ..d })), ActView::Rest)
        }
    }

    pub open spec fn drive_echo(self, e: EchoPhase, now: Nanos) -> (WorkerView, ActView) {
        if e.exhausted && e.in_flight == 0 {
            self.finish(OutcomeView::Echo(e.lat))
        } else if e.exhausted || e.in_flight >= e.slots {
            (self, ActView::Rest)
        } else if e.wait_until matches Some(t) && now < t {
            (self, ActView::Rest)
        } else {
            let e = EchoPhase { wait_until: None, ..e };
            let w = self.with_phase(PhaseView::Echo(e));
            if e.job.limited && !e.granted {
                (w, ActView::Take(1))
            } else if e.idle.len() == 0 {
                (w.with_phase(PhaseView::Echo(EchoPhase { granted: false, ..e })), ActView::Rest)
            } else {
                (w, ActView::Number)
            }
        }
    }

    /// The round trip with that number is the next one, if there are so many.
    pub open spec fn issue(self, n: u64, now: Nanos) -> WorkerView {
        match self.phase {
            PhaseView::Echo(e) => if e.idle.len() == 0 {
                self
            } else if n >= e.job.times {
                self.with_phase(
                    PhaseView::Echo(EchoPhase { exhausted: true, granted: false, ..e }),
                )
            } else {
                let idx = e.idle[0];
                let w = self.with_phase(
                    PhaseView::Echo(
                        EchoPhase {
                            idle: e.idle.drop_first(),
                            in_flight: e.in_flight + 1,
                            granted: false,
                            ..e
                        },
                    ),
                );
                match self.conn(idx as int) {
                    Some(c) => if c.state == State::Broken {
                        w.dial_for(now, Purpose::RedialEcho { start: now }, Some(idx))
                    } else {
                        w.send_request(
                            idx,
                            ReqKind::Echo { start: now },
                            e.job.payloads[(n % (e.job.payloads.len() as u64)) as int],
                            now,
                        )
                    },
                    None => w,
                }
            },
            _ => self,
        }
    }

    /// Dials the broken connections, and begins once the redials that count are
    /// over. One that fails for good before all of them were dialed is not counted
    /// off.
    pub open spec fn drive_prep(self, p: PrepPhase, now: Nanos) -> (WorkerView, ActView) {
        if p.todo.len() > 0 {
            (
                self.with_phase(
                    PhaseView::RatePrep(PrepPhase { todo: p.todo.drop_first(), ..p }),
                ).dial_for(now, Purpose::RedialRate, Some(p.todo[0])),
                ActView::Open,
            )
        } else if p.redials == 0 {
            (
                WorkerView {
                    slots: Seq::new(
                        self.slots.len(),
                        |i: int|
                            if self.slots[i] is Some && self.slots[i]->Some_0.state == State::Ready {
                                Some(ConnView { in_flight: 0, ..self.slots[i]->Some_0 })
                            } else {
                                self.slots[i]
                            },
                    ),
                    phase: PhaseView::Rate(
                        RatePhase {
                            job: p.job,
                            conns: self.in_state(State::Ready),
                            deadline: (now + p.job.duration) as Nanos,
                            next_tick: (now + p.job.tick) as Nanos,
                            grace_until: None,
                            counts: RateCounts::none(),
                            tick: None,
                        },
                    ),
                    ..self
                },
                ActView::Rest,
            )
        } else {
            (
                self.with_phase(PhaseView::RatePrep(PrepPhase { begun: true, ..p })),
                ActView::Rest,
            )
        }
    }

    /// Whether a connection may be sent a batch: it is up, the server takes
    /// requests on it, and with the batch no more are unanswered than may be.
    pub open spec fn takes_batch(self, r: RatePhase, k: int) -> bool {
        match self.conn(r.conns[k] as int) {
            Some(c) => c.state == State::Ready && !c.goaway && c.in_flight + r.job.batch
                <= r.job.batch * MAX_BATCHES_IN_FLIGHT,
            None => false,
        }
    }

    /// The first place from `k` on of a connection that may be sent a batch.
    pub open spec fn next_place(self, r: RatePhase, k: nat) -> nat
        decreases r.conns.len() - k,
    {
        if k >= r.conns.len() || self.takes_batch(r, k as int) {
            k
        } else {
            self.next_place(r, k + 1)
        }
    }

    pub open spec fn tick_look(self, r: RatePhase, k: nat) -> (WorkerView, ActView) {
        let at = self.next_place(r, k);
        if at >= r.conns.len() {
            (self.with_phase(PhaseView::Rate(r.at(None))), ActView::Rest)
        } else {
            (
                self.with_phase(PhaseView::Rate(r.at(Some(Tick::Streams(at as usize))))),
                ActView::Streams(r.conns[at as int]),
            )
        }
    }

    pub open spec fn rate_tick(self, r: RatePhase, tick: Tick, now: Nanos) -> (WorkerView, ActView) {
        match tick {
            Tick::Look(k) => self.tick_look(r, k as nat),
            Tick::Streams(at) => (self, ActView::Streams(r.conns[at as int])),
            Tick::Tokens(at) => (self, ActView::Take(r.job.batch)),
            Tick::Sending { at, left } => {
                let idx = r.conns[at as int];
                match self.conn(idx as int) {
                    Some(c) => if c.h3 {
                        (
                            self.with_op(
                                OpView::Send {
                                    idx,
                                    kind: ReqKind::Rate,
                                    body: r.job.payload,
                                    queued: false,
                                },
                            ),
                            ActView::Transmit,
                        )
                    } else {
                        self.tick_look(r, (at + 1) as nat)
                    },
                    None => self.tick_look(r, (at + 1) as nat),
                }
            },
        }
    }

    pub open spec fn drive_rate(self, r: RatePhase, now: Nanos) -> (WorkerView, ActView) {
        if r.tick is Some {
            self.rate_tick(r, r.tick->Some_0, now)
        } else if r.grace_until is Some {
            // The last batch has had its tick to come back in, or has.
            if r.counts.answered >= r.counts.send_times || now >= r.grace_until->Some_0 {
                self.finish(OutcomeView::Rate(r.counts))
            } else {
                (self, ActView::Rest)
            }
        } else if now >= r.deadline {
            (
                self.with_phase(
                    PhaseView::Rate(
                        RatePhase { grace_until: Some((now + r.job.tick) as Nanos), ..r },
                    ),
                ),
                ActView::Rest,
            )
        } else if now < r.next_tick {
            (self, ActView::Rest)
        } else {
            self.tick_look(RatePhase { next_tick: r.tick_after(now), ..r }, 0)
        }
    }

    /// What the worker wants next.
    pub open spec fn drive(self, now: Nanos) -> (WorkerView, ActView) {
        match self.op {
            OpView::Dial(_) => (self, ActView::Open),
            OpView::Send { .. } => (self, ActView::Transmit),
            OpView::Nothing => match self.phase {
                PhaseView::Idle => (self, ActView::Rest),
                PhaseView::Dial(d) => self.drive_dial(d, now),
                PhaseView::Echo(e) => self.drive_echo(e, now),
                PhaseView::RatePrep(p) => self.drive_prep(p, now),
                PhaseView::Rate(r) => self.drive_rate(r, now),
            },
        }
    }

    /// The limiter let what was asked for through, or said how long it will be.
    pub open spec fn tokens(self, wait: Option<Nanos>, now: Nanos) -> WorkerView {
        match self.phase {
            PhaseView::Echo(e) => self.with_phase(
                PhaseView::Echo(
                    match wait {
                        None => EchoPhase { granted: true, ..e },
                        Some(t) => EchoPhase { wait_until: Some((now + t) as Nanos), ..e },
                    },
                ),
            ),
            PhaseView::Rate(r) => match r.tick {
                Some(Tick::Tokens(at)) => self.with_phase(
                    PhaseView::Rate(
                        if wait is None {
                            r.send_at(at)
                        } else {
                            r.skip()
                        },
                    ),
                ),
                _ => self,
            },
            _ => self,
        }
    }

    /// The server leaves the connection that many streams.
    pub open spec fn streams_left(self, n: u64) -> WorkerView {
        match self.phase {
            PhaseView::Rate(r) => match r.tick {
                Some(Tick::Streams(at)) => self.with_phase(
                    PhaseView::Rate(
                        if n < r.job.batch {
                            r.skip()
                        } else if r.job.limited {
                            r.at(Some(Tick::Tokens(at)))
                        } else {
                            r.send_at(at)
                        },
                    ),
                ),
                _ => self,
            },
            _ => self,
        }
    }

    /// Whether what may happen next can still be counted.
    pub open spec fn room(self) -> bool {
        &&& self.connected < u64::MAX
        &&& self.dropped < u64::MAX
        &&& match self.phase {
            PhaseView::Dial(d) => d.lat.success < i64::MAX && d.lat.failed < i64::MAX,
            PhaseView::Echo(e) => e.lat.success < i64::MAX && e.lat.failed < i64::MAX,
            PhaseView::Rate(r) => {
                &&& r.counts.send_times < u64::MAX
                &&& r.counts.send_bytes + r.job.payload.len() <= u64::MAX
                &&& r.counts.answered < u64::MAX
                &&& r.counts.recv_times < u64::MAX
            },
            _ => true,
        }
    }

    /// Whether the report that came first can be.
    pub open spec fn room_for_report(self) -> bool {
        match self.phase {
            PhaseView::Rate(r) => self.events.len() > 0 ==> r.counts.recv_bytes + answer_bytes(
                self.events[0].1,
            ) <= u64::MAX,
            _ => true,
        }
    }

    /// When the worker must look again at the latest.
    pub open spec fn next_wakeup(self) -> Nanos {
        let t = Some(self.next_keepalive);
        let t = earlier(
            t,
            match crate::timers::first(self.timers) {
                Some(e) => Some(e.0),
                None => None,
            },
        );
        let t = earlier(
            t,
            if self.retries.len() > 0 {
                Some(self.retries[0].0)
            } else {
                None
            },
        );
        let t = earlier(
            t,
            match self.phase {
                PhaseView::Echo(e) => e.wait_until,
                PhaseView::Rate(r) => Some(
                    if r.grace_until is Some {
                        r.grace_until->Some_0
                    } else if r.next_tick < r.deadline {
                        r.next_tick
                    } else {
                        r.deadline
                    },
                ),
                _ => None,
            },
        );
        t->Some_0
    }
}

} // verus!
