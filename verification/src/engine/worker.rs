//! A worker.

use std::collections::VecDeque;
use std::sync::Arc;
use vstd::prelude::*;

use crate::clock;
use crate::clock::duration_of;
use crate::engine::conn;
use crate::engine::conn::{
    BodySent, Conn, ConnEvent, ConnView, DialJob, H3Event, Nanos, PendingBody, Purpose, Queued,
    Req, ReqKind, State,
};
use crate::engine::laws;
use crate::engine::laws::Hand;
use crate::engine::model;
use crate::engine::model::{
    ActView, DialPhase, EchoPhase, EchoView, Fired, FlushView, Limits, Look, OpView,
    OutcomeView, PhaseView, PrepPhase, RateCounts, RatePhase, RateView, SentView, Tick,
    WorkerView,
};
use crate::engine::setup;
use crate::engine::setup::OpenError;
use crate::stats::Latencies;
use crate::text::begins_with;
use crate::timers::{Timer, Timers};

verus! {

/// Round trips for the workers to share.
pub struct EchoJob {
    pub times: u64,
    pub payloads: Vec<Arc<Vec<u8>>>,
    /// Whether latencies and failures are recorded: false for the warmup.
    pub measure: bool,
    /// Whether a limiter goes with it.
    pub limited: bool,
}

impl View for EchoJob {
    type V = EchoView;

    open spec fn view(&self) -> EchoView {
        EchoView {
            times: self.times,
            payloads: self.payloads@.map_values(|p: Arc<Vec<u8>>| p@),
            measure: self.measure,
            limited: self.limited,
        }
    }
}

pub struct RateJob {
    pub duration: Nanos,
    pub batch: usize,
    pub tick: Nanos,
    pub payload: Arc<Vec<u8>>,
    /// Whether a limiter goes with it.
    pub limited: bool,
}

impl View for RateJob {
    type V = RateView;

    open spec fn view(&self) -> RateView {
        RateView {
            duration: self.duration,
            batch: self.batch,
            tick: self.tick,
            payload: self.payload@,
            limited: self.limited,
        }
    }
}

pub enum Command {
    Dial { count: usize, concurrency: usize },
    Echo { job: Arc<EchoJob>, concurrency: usize },
    Rate(Arc<RateJob>),
    Stop,
}

pub enum Outcome {
    Dial(Latencies),
    Echo(Latencies),
    Rate(RateCounts),
}

impl View for Outcome {
    type V = OutcomeView;

    open spec fn view(&self) -> OutcomeView {
        match *self {
            Outcome::Dial(l) => OutcomeView::Dial(l@),
            Outcome::Echo(l) => OutcomeView::Echo(l@),
            Outcome::Rate(c) => OutcomeView::Rate(c),
        }
    }
}

impl Outcome {
    pub open spec fn wf(&self) -> bool {
        match *self {
            Outcome::Dial(l) => l.wf(),
            Outcome::Echo(l) => l.wf(),
            Outcome::Rate(c) => true,
        }
    }
}

/// What came of sending a request.
pub enum Sent {
    /// It is out on a stream, `off` bytes of its body with it.
    Out { stream: u64, off: usize },
    /// No room on the connection yet: flow control, the congestion window or
    /// the server's stream limit.
    Blocked,
    /// The connection is in no state to carry requests; it is to be closed.
    HeadersFailed(String),
    BodyFailed(String),
}

impl View for Sent {
    type V = SentView;

    open spec fn view(&self) -> SentView {
        match *self {
            Sent::Out { stream, off } => SentView::Out { stream, off },
            Sent::Blocked => SentView::Blocked,
            Sent::HeadersFailed(e) => SentView::HeadersFailed(e@),
            Sent::BodyFailed(e) => SentView::BodyFailed(e@),
        }
    }
}

/// How writing a connection's datagrams to its socket ended.
pub enum FlushEnd {
    /// There were no more.
    Empty,
    /// The socket buffer is full. The transport counts the datagram as sent; its
    /// loss recovery sends it again, as it would after a drop on the wire.
    Full,
    SocketFailed(String),
    TransportFailed(String),
}

impl View for FlushEnd {
    type V = FlushView;

    open spec fn view(&self) -> FlushView {
        match *self {
            FlushEnd::Empty => FlushView::Empty,
            FlushEnd::Full => FlushView::Full,
            FlushEnd::SocketFailed(e) => FlushView::SocketFailed(e@),
            FlushEnd::TransportFailed(e) => FlushView::TransportFailed(e@),
        }
    }
}

/// What a worker wants next.
pub enum Act {
    /// Nothing, until something happens.
    Rest,
    /// A connection opened, for the operation it waits for.
    Open,
    /// A request sent, for the operation it waits for.
    Transmit,
    /// That many tokens of the job's limiter.
    Take(usize),
    /// The number of the next round trip.
    Number,
    /// How many streams the server leaves the connection in a slot.
    Streams(usize),
    /// Nothing more: the benchmark is over.
    Done(Outcome),
}

impl View for Act {
    type V = ActView;

    open spec fn view(&self) -> ActView {
        match *self {
            Act::Rest => ActView::Rest,
            Act::Open => ActView::Open,
            Act::Transmit => ActView::Transmit,
            Act::Take(n) => ActView::Take(n),
            Act::Number => ActView::Number,
            Act::Streams(i) => ActView::Streams(i),
            Act::Done(o) => ActView::Done(o@),
        }
    }
}

// ---------------------------------------------------------------------------

struct Dialing {
    remaining: usize,
    active: usize,
    concurrency: usize,
    round: Option<usize>,
    lat: Latencies,
}

struct Echoing {
    job: Arc<EchoJob>,
    slots: usize,
    in_flight: usize,
    idle: VecDeque<usize>,
    exhausted: bool,
    granted: bool,
    wait_until: Option<Nanos>,
    lat: Latencies,
}

struct Preparing {
    job: Arc<RateJob>,
    redials: usize,
    todo: VecDeque<usize>,
    begun: bool,
}

struct Rating {
    job: Arc<RateJob>,
    conns: Vec<usize>,
    deadline: Nanos,
    next_tick: Nanos,
    grace_until: Option<Nanos>,
    counts: RateCounts,
    tick: Option<Tick>,
}

enum Phase {
    Idle,
    Dial(Dialing),
    Echo(Echoing),
    RatePrep(Preparing),
    Rate(Rating),
}

impl View for Phase {
    type V = PhaseView;

    closed spec fn view(&self) -> PhaseView {
        match *self {
            Phase::Idle => PhaseView::Idle,
            Phase::Dial(d) => PhaseView::Dial(
                DialPhase {
                    remaining: d.remaining as nat,
                    active: d.active as nat,
                    concurrency: d.concurrency as nat,
                    round: match d.round {
                        Some(n) => Some(n as nat),
                        None => None,
                    },
                    lat: d.lat@,
                },
            ),
            Phase::Echo(e) => PhaseView::Echo(
                EchoPhase {
                    job: e.job@,
                    slots: e.slots as nat,
                    in_flight: e.in_flight as nat,
                    idle: e.idle@,
                    exhausted: e.exhausted,
                    granted: e.granted,
                    wait_until: e.wait_until,
                    lat: e.lat@,
                },
            ),
            Phase::RatePrep(p) => PhaseView::RatePrep(
                PrepPhase {
                    job: p.job@,
                    redials: p.redials as nat,
                    todo: p.todo@,
                    begun: p.begun,
                },
            ),
            Phase::Rate(r) => PhaseView::Rate(
                RatePhase {
                    job: r.job@,
                    conns: r.conns@,
                    deadline: r.deadline,
                    next_tick: r.next_tick,
                    grace_until: r.grace_until,
                    counts: r.counts,
                    tick: r.tick,
                },
            ),
        }
    }
}

enum Op {
    Nothing,
    Dial(DialJob),
    Send { idx: usize, kind: ReqKind, body: Arc<Vec<u8>>, queued: bool },
}

impl View for Op {
    type V = OpView;

    closed spec fn view(&self) -> OpView {
        match *self {
            Op::Nothing => OpView::Nothing,
            Op::Dial(job) => OpView::Dial(job),
            Op::Send { idx, kind, body, queued } => OpView::Send { idx, kind, body: body@, queued },
        }
    }
}

fn sooner(a: Option<Nanos>, b: Option<Nanos>) -> (r: Option<Nanos>)
    ensures
        r == model::earlier(a, b),
{
    match a {
        None => b,
        Some(x) => match b {
            None => a,
            Some(y) => if x <= y {
                a
            } else {
                b
            },
        },
    }
}

pub open spec fn conn_view(c: Option<Conn>) -> Option<ConnView> {
    match c {
        Some(x) => Some(x@),
        None => None,
    }
}

/// A worker thread's share of the load generator.
pub struct Worker {
    limits: Limits,
    slots: Vec<Option<Conn>>,
    free: Vec<usize>,
    timers: Timers,
    retries: VecDeque<(Nanos, DialJob)>,
    dirty: Vec<usize>,
    events: VecDeque<(usize, ConnEvent)>,
    op: Op,
    phase: Phase,
    next_keepalive: Nanos,
    ready: usize,
    connected: u64,
    dropped: u64,
    notes: Vec<String>,
}

impl View for Worker {
    type V = WorkerView;

    closed spec fn view(&self) -> WorkerView {
        WorkerView {
            limits: self.limits,
            slots: self.slots@.map_values(|c: Option<Conn>| conn_view(c)),
            free: self.free@,
            timers: self.timers@,
            retries: self.retries@,
            dirty: self.dirty@,
            events: conn::report_views(self.events@),
            op: self.op@,
            phase: self.phase@,
            next_keepalive: self.next_keepalive,
            ready: self.ready as nat,
            connected: self.connected as nat,
            dropped: self.dropped as nat,
            notes: crate::text::texts(self.notes@),
        }
    }
}

/// Whether a worker's times are such that moments reckoned with them fit.
pub open spec fn limits_fit(l: Limits) -> bool {
    &&& l.dial_timeout <= clock::max_nanos()
    &&& l.dial_retry_interval <= clock::max_nanos()
    &&& l.keepalive <= clock::max_nanos()
}

impl Worker {
    spec fn phase_wf(&self) -> bool {
        match self.phase {
            Phase::Dial(d) => d.lat.wf(),
            Phase::Echo(e) => e.lat.wf(),
            Phase::RatePrep(p) => p.job.duration <= clock::max_nanos() && p.job.tick
                <= clock::max_nanos(),
            Phase::Rate(r) => r.job.duration <= clock::max_nanos() && r.job.tick
                <= clock::max_nanos(),
            Phase::Idle => true,
        }
    }

    spec fn parts_wf(&self) -> bool {
        &&& self.timers.wf()
        &&& self.phase_wf()
        &&& limits_fit(self.limits)
    }

    /// Whether the worker is as every worker is.
    pub closed spec fn wf(&self) -> bool {
        self.parts_wf() && laws::inv(self@)
    }

    /// What every worker keeps to.
    pub proof fn lemma_inv(&self)
        requires
            self.wf(),
        ensures
            laws::inv(self@),
    {
    }

    // -- round trips and dials that are over ---------------------------------

    fn echo_done(&mut self, idx: usize, result: Result<usize, String>, start: Nanos, now: Nanos)
        requires
            old(self).parts_wf(),
            laws::holds(old(self)@, Hand::Echo(idx)),
            old(self)@.room(),
            now <= clock::max_nanos(),
        ensures
            final(self).parts_wf(),
            final(self)@ == old(self)@.echo_done(idx, conn::result_view(result), start, now),
            laws::holds(final(self)@, Hand::Nothing),
    {
        proof {
            assert(laws::round_trips(self@, Hand::Echo(idx), idx) > 0);
            laws::lemma_echo_counted(self@, Hand::Echo(idx), idx);
            laws::lemma_echo_done(self@, idx, conn::result_view(result), start, now);
        }
        let ghost before = self@;
        let took: Nanos = if now > start {
            now - start
        } else {
            0
        };
        match &mut self.phase {
            Phase::Echo(e) => {
                e.in_flight -= 1;
                e.idle.push_back(idx);
                if e.job.measure {
                    match result {
                        Ok(_) => {
                            e.lat.ok(duration_of(took));
                        },
                        Err(text) => {
                            e.lat.fail(text.as_str());
                        },
                    }
                }
            },
            _ => {},
        }
        assert(self@ =~= before.echo_done(idx, conn::result_view(result), start, now));
    }

    fn dial_failed_job(&mut self, job: DialJob, err: String, now: Nanos)
        requires
            old(self).parts_wf(),
            laws::holds(old(self)@, Hand::Dial(job)),
            old(self)@.room(),
            now <= clock::max_nanos(),
        ensures
            final(self).parts_wf(),
            final(self)@ == old(self)@.dial_failed_job(job, err@, now),
            laws::holds(final(self)@, Hand::Nothing),
    {
        let ghost before = self@;
        proof {
            laws::lemma_dial_failed_job(before, job, err@, now);
        }
        if job.attempt < self.limits.dial_retries {
            let again = DialJob {
                start: job.start,
                attempt: job.attempt + 1,
                purpose: job.purpose,
                slot: job.slot,
            };
            self.retries.push_back((now + self.limits.dial_retry_interval, again));
            assert(self@ =~= before.dial_failed_job(job, err@, now));
            return;
        }
        match job.purpose {
            Purpose::New => {
                assert(laws::dials(before, Hand::Dial(job), laws::is_new()) > 0);
                match &mut self.phase {
                    Phase::Dial(d) => {
                        d.active -= 1;
                        d.lat.fail(err.as_str());
                    },
                    _ => {},
                }
                assert(self@ =~= before.dial_failed_job(job, err@, now));
            },
            Purpose::RedialEcho { start } => {
                match job.slot {
                    Some(idx) => {
                        proof {
                            laws::lemma_hand_to_echo(before, job, idx);
                        }
                        let mut text = "redial: ".to_owned();
                        text.append(err.as_str());
                        self.echo_done(idx, Err(text), start, now);
                    },
                    None => {},
                }
            },
            Purpose::RedialRate => {
                assert(laws::dials(before, Hand::Dial(job), laws::is_rate()) > 0);
                match &mut self.phase {
                    Phase::RatePrep(p) => {
                        if p.begun {
                            p.redials -= 1;
                        }
                    },
                    _ => {},
                }
                let ghost e = err@;
                self.notes.push(err);
                assert(self@.notes =~= before.notes.push(e));
                assert(self@ =~= before.dial_failed_job(job, e, now));
            },
        }
    }

    fn dial_failed(&mut self, idx: usize, err: String, now: Nanos)
        requires
            old(self).parts_wf(),
            laws::holds(old(self)@, Hand::Nothing),
            old(self)@.room(),
            now <= clock::max_nanos(),
        ensures
            final(self).parts_wf(),
            final(self)@ == old(self)@.dial_failed(idx, err@, now),
            laws::holds(final(self)@, Hand::Nothing),
    {
        let ghost before = self@;
        if idx >= self.slots.len() {
            return;
        }
        assert(before.slots[idx as int] == conn_view(self.slots@[idx as int]));
        let dial: Option<DialJob> = match &self.slots[idx] {
            Some(c) => c.dial,
            None => None,
        };
        match dial {
            None => {},
            Some(job) => {
                match job.purpose {
                    Purpose::New => {
                        self.slots.set(idx, None);
                        self.free.push(idx);
                        let job = DialJob {
                            start: job.start,
                            attempt: job.attempt,
                            purpose: job.purpose,
                            slot: None,
                        };
                        proof {
                            assert(self@.slots =~= before.slots.update(idx as int, None));
                            assert(self@ =~= WorkerView {
                                slots: before.slots.update(idx as int, None),
                                free: before.free.push(idx),
                                ..before
                            });
                            laws::lemma_slot_freed(before, idx, job);
                        }
                        self.dial_failed_job(job, err, now);
                    },
                    _ => {
                        match &mut self.slots[idx] {
                            Some(c) => {
                                c.give_up();
                            },
                            None => {},
                        }
                        proof {
                            let c = before.slots[idx as int]->Some_0;
                            assert(self@.slots =~= before.slots.update(
                                idx as int,
                                Some(c.given_up()),
                            ));
                            assert(self@ =~= before.with_conn(idx as int, c.given_up()));
                            laws::lemma_given_up(before, idx);
                        }
                        self.dial_failed_job(job, err, now);
                    },
                }
            },
        }
    }

    // -- requests ------------------------------------------------------------

    fn send_failed(&mut self, idx: usize, kind: ReqKind, err: String, now: Nanos)
        requires
            old(self).parts_wf(),
            laws::holds(old(self)@, laws::hand_of(idx, kind)),
            old(self)@.room(),
            now <= clock::max_nanos(),
        ensures
            final(self).parts_wf(),
            final(self)@ == old(self)@.send_failed(idx, kind, err@, now),
            laws::holds(final(self)@, Hand::Nothing),
    {
        let ghost before = self@;
        proof {
            laws::lemma_send_failed(before, idx, kind, err@, now);
        }
        match kind {
            ReqKind::Dial => {
                self.dial_failed(idx, err, now);
            },
            ReqKind::Echo { start } => {
                self.echo_done(idx, Err(err), start, now);
            },
            ReqKind::Rate => {
                match &mut self.phase {
                    Phase::Rate(r) => {
                        r.skip();
                    },
                    _ => {},
                }
                assert(self@ =~= before.send_failed(idx, kind, err@, now));
            },
        }
    }

    fn try_send(&mut self, idx: usize, kind: ReqKind, body: Arc<Vec<u8>>, queued: bool, now: Nanos)
        requires
            old(self).parts_wf(),
            laws::holds(old(self)@, laws::hand_of(idx, kind)),
            old(self)@.op is Nothing,
            laws::is_occupied(old(self)@, idx as int),
            !(kind is Rate),
            old(self)@.room(),
            now <= clock::max_nanos(),
        ensures
            final(self).wf(),
            final(self)@ == old(self)@.try_send(idx, kind, body@, queued, now),
    {
        let ghost before = self@;
        proof {
            laws::lemma_try_send(before, idx, kind, body@, queued, now);
            assert(before.slots[idx as int] == conn_view(self.slots@[idx as int]));
        }
        let h3: bool = match &self.slots[idx] {
            Some(c) => c.h3,
            None => false,
        };
        if h3 {
            self.op = Op::Send { idx, kind, body, queued };
            assert(self@ =~= before.try_send(idx, kind, body@, queued, now));
        } else {
            self.send_failed(idx, kind, "no HTTP/3 connection".to_owned(), now);
        }
    }

    fn send_request(&mut self, idx: usize, kind: ReqKind, body: Arc<Vec<u8>>, now: Nanos)
        requires
            old(self).parts_wf(),
            laws::holds(old(self)@, laws::hand_of(idx, kind)),
            old(self)@.op is Nothing,
            laws::is_occupied(old(self)@, idx as int),
            !(kind is Rate),
            old(self)@.room(),
            now <= clock::max_nanos(),
        ensures
            final(self).wf(),
            final(self)@ == old(self)@.send_request(idx, kind, body@, now),
    {
        let ghost before = self@;
        proof {
            laws::lemma_send_request(before, idx, kind, body@, now);
            assert(before.slots[idx as int] == conn_view(self.slots@[idx as int]));
        }
        let wait: bool = match &self.slots[idx] {
            Some(c) => c.queued.len() > 0,
            None => false,
        };
        if wait {
            match &mut self.slots[idx] {
                Some(c) => {
                    c.queue_back(kind, body);
                },
                None => {},
            }
            proof {
                let w = before.send_request(idx, kind, body@, now);
                assert(self@.slots =~= w.slots);
                assert(self@ =~= w);
            }
        } else {
            self.try_send(idx, kind, body, false, now);
        }
    }

    /// Takes the request that waits longest for room on a connection, if any
    /// does.
    pub fn send_queued(&mut self, idx: usize, now: Nanos)
        requires
            old(self).wf(),
            old(self)@.op is Nothing,
            old(self)@.room(),
            now <= clock::max_nanos(),
        ensures
            final(self).wf(),
            final(self)@ == old(self)@.send_queued(idx, now),
    {
        let ghost before = self@;
        if idx >= self.slots.len() {
            return;
        }
        assert(before.slots[idx as int] == conn_view(self.slots@[idx as int]));
        let first: Option<Queued> = match &mut self.slots[idx] {
            Some(c) => c.queued.pop_front(),
            None => None,
        };
        match first {
            Some(q) => {
                proof {
                    let c = before.slots[idx as int]->Some_0;
                    assert(self.slots@[idx as int]->Some_0@.queued =~= c.queued.drop_first());
                    assert(self.slots@[idx as int]->Some_0@ =~= c.with_queued(c.queued.drop_first()));
                    assert(self@.slots =~= before.slots.update(
                        idx as int,
                        Some(c.with_queued(c.queued.drop_first())),
                    ));
                    assert(self@ =~= before.with_conn(
                        idx as int,
                        c.with_queued(c.queued.drop_first()),
                    ));
                    assert(q@ == c.queued[0]);
                    laws::lemma_unqueued(before, idx);
                }
                self.try_send(idx, q.kind, q.body, true, now);
            },
            None => {
                assert(self@.slots =~= before.slots);
                assert(self@ =~= before);
            },
        }
    }
}

impl Worker {
    fn mark_dirty(&mut self, idx: usize)
        ensures
            final(self)@ == old(self)@.mark_dirty(idx as int),
            old(self).parts_wf() ==> final(self).parts_wf(),
    {
        let ghost before = self@;
        if idx >= self.slots.len() {
            return;
        }
        assert(before.slots[idx as int] == conn_view(self.slots@[idx as int]));
        let mut marked = false;
        match &mut self.slots[idx] {
            Some(c) => {
                if !c.dirty {
                    c.dirty = true;
                    marked = true;
                }
            },
            None => {},
        }
        if marked {
            self.dirty.push(idx);
        }
        proof {
            let w = before.mark_dirty(idx as int);
            assert(self@.slots =~= w.slots);
            assert(self@ =~= w);
        }
    }

    /// The request the worker waits for is to be sent on the connection in that
    /// slot: its kind, and its body.
    pub fn outgoing(&self) -> (r: Option<(usize, ReqKind, Arc<Vec<u8>>)>)
        ensures
            match r {
                Some(out) => self@.op matches OpView::Send { idx, kind, body, queued } && idx == out.0
                    && kind == out.1 && body == out.2@,
                None => !(self@.op is Send),
            },
    {
        match &self.op {
            Op::Send { idx, kind, body, queued } => Some((*idx, *kind, body.clone())),
            _ => None,
        }
    }

    /// Whether a stream of the connection in a slot carries a request.
    pub fn carries(&self, idx: usize, stream: u64) -> (r: bool)
        requires
            self.wf(),
        ensures
            r == (self@.conn(idx as int) matches Some(c) && c.has(stream)),
    {
        if idx >= self.slots.len() {
            return false;
        }
        assert(self@.slots[idx as int] == conn_view(self.slots@[idx as int]));
        match &self.slots[idx] {
            Some(c) => c.find(stream) < c.streams.len(),
            None => false,
        }
    }

    /// The request the worker waited for was sent, or not. The transport gives
    /// every request a stream of its own.
    pub fn transmitted(&mut self, sent: Sent, now: Nanos)
        requires
            old(self).wf(),
            old(self)@.op is Send,
            old(self)@.goes_out(sent@),
            old(self)@.room(),
            now <= clock::max_nanos(),
        ensures
            final(self).wf(),
            final(self)@ == old(self)@.transmitted(sent@, now),
    {
        let ghost before = self@;
        proof {
            laws::lemma_transmitted(before, sent@, now);
        }
        let mut op = Op::Nothing;
        std::mem::swap(&mut op, &mut self.op);
        let ghost bare = before.with_op(OpView::Nothing);
        proof {
            assert(self@ =~= bare);
            laws::lemma_op_changes(before, laws::hand(before.op), OpView::Nothing);
        }
        match op {
            Op::Send { idx, kind, body, queued } => {
                assert(before.slots[idx as int] == conn_view(self.slots@[idx as int]));
                let ghost c = before.slots[idx as int]->Some_0;
                match sent {
                    Sent::Out { stream, off } => {
                        let ghost rate = kind is Rate;
                        proof {
                            if rate {
                                laws::lemma_sending(before, idx);
                            }
                        }
                        let ghost b = body@;
                        match &mut self.slots[idx] {
                            Some(c) => {
                                c.note_sent(kind, body, stream, off);
                            },
                            None => {},
                        }
                        match kind {
                            ReqKind::Rate => {
                                match &mut self.phase {
                                    Phase::Rate(r) => {
                                        r.one_sent();
                                    },
                                    _ => {},
                                }
                            },
                            _ => {},
                        }
                        proof {
                            let v = bare.with_conn(idx as int, c.with_sent(kind, b, stream, off));
                            assert(self@.slots =~= v.slots);
                        }
                        self.mark_dirty(idx);
                    },
                    Sent::Blocked => {
                        match kind {
                            ReqKind::Rate => {
                                self.send_failed(idx, kind, String::new(), now);
                                proof {
                                    assert(Seq::<char>::empty() =~= ""@) by {
                                        reveal_strlit("");
                                    }
                                }
                            },
                            _ => {
                                match &mut self.slots[idx] {
                                    Some(c) => {
                                        if queued {
                                            c.queue_front(kind, body);
                                        } else {
                                            c.queue_back(kind, body);
                                        }
                                    },
                                    None => {},
                                }
                                proof {
                                    let v = before.transmitted(sent@, now);
                                    assert(self@.slots =~= v.slots);
                                    assert(self@ =~= v);
                                }
                            },
                        }
                    },
                    Sent::HeadersFailed(e) => {
                        proof {
                            laws::lemma_mark_dirty(bare, laws::hand_of(idx, kind), idx as int);
                        }
                        self.mark_dirty(idx);
                        let mut text = "send request: ".to_owned();
                        text.append(e.as_str());
                        self.send_failed(idx, kind, text, now);
                    },
                    Sent::BodyFailed(e) => {
                        proof {
                            laws::lemma_mark_dirty(bare, laws::hand_of(idx, kind), idx as int);
                        }
                        self.mark_dirty(idx);
                        let mut text = "send body: ".to_owned();
                        text.append(e.as_str());
                        self.send_failed(idx, kind, text, now);
                    },
                }
            },
            _ => {},
        }
        assert(self@ == before.transmitted(sent@, now));
    }
}

impl Worker {
    // -- dialing -------------------------------------------------------------

    /// The slot the connection goes into that the worker waits for.
    pub fn dial_slot(&self) -> (r: Option<usize>)
        requires
            self.wf(),
        ensures
            match r {
                Some(i) => self@.op matches OpView::Dial(job) && i == self@.slot_for(job),
                None => !(self@.op is Dial),
            },
    {
        match &self.op {
            Op::Dial(job) => match job.slot {
                Some(i) => Some(i),
                None => if self.free.len() > 0 {
                    Some(self.free[self.free.len() - 1])
                } else {
                    Some(self.slots.len())
                },
            },
            _ => None,
        }
    }

    /// The connection the worker waited for is open, and handshakes in that
    /// slot.
    pub fn dial_opened(&mut self, now: Nanos) -> (idx: usize)
        requires
            old(self).wf(),
            old(self)@.op is Dial,
            old(self)@.slots.len() < usize::MAX,
            now <= clock::max_nanos(),
        ensures
            final(self).wf(),
            final(self)@ == old(self)@.dial_opened(now),
            idx == old(self)@.slot_for(old(self)@.op->Dial_0),
            laws::is_occupied(final(self)@, idx as int),
    {
        let ghost before = self@;
        proof {
            laws::lemma_dial_opened(before, now);
        }
        let mut op = Op::Nothing;
        std::mem::swap(&mut op, &mut self.op);
        match op {
            Op::Dial(job) => {
                let reused: Option<usize> = match job.slot {
                    Some(i) => {
                        proof {
                            laws::lemma_redial_slot(before, job, i);
                        }
                        Some(i)
                    },
                    None => {
                        let top: Option<usize> = self.free.pop();
                        proof {
                            if top is Some {
                                laws::lemma_free_slot(before);
                                assert(self.free@ =~= before.free.drop_last());
                            }
                        }
                        top
                    },
                };
                let idx: usize = match reused {
                    Some(i) => i,
                    None => self.slots.len(),
                };
                let job = DialJob {
                    start: job.start,
                    attempt: job.attempt,
                    purpose: job.purpose,
                    slot: Some(idx),
                };
                let c = Conn::fresh(job, now, now + self.limits.dial_timeout);
                if reused.is_some() {
                    self.slots.set(idx, Some(c));
                } else {
                    self.slots.push(Some(c));
                }
                proof {
                    let v = before.dial_opened(now);
                    assert(self@.slots =~= v.slots);
                    assert(self@ =~= v);
                }
                idx
            },
            _ => 0,
        }
    }

    /// The connection the worker waited for could not be opened. Its slot, if it had
    /// one, holds what it held.
    pub fn dial_refused(&mut self, err: String, now: Nanos)
        requires
            old(self).wf(),
            old(self)@.op is Dial,
            old(self)@.room(),
            now <= clock::max_nanos(),
        ensures
            final(self).wf(),
            final(self)@ == old(self)@.dial_refused(err@, now),
    {
        let ghost before = self@;
        proof {
            laws::lemma_dial_refused(before, err@, now);
            laws::lemma_op_changes(before, laws::hand(before.op), OpView::Nothing);
        }
        let mut op = Op::Nothing;
        std::mem::swap(&mut op, &mut self.op);
        assert(self@ =~= before.with_op(OpView::Nothing));
        match op {
            Op::Dial(job) => {
                self.dial_failed_job(job, err, now);
            },
            _ => {},
        }
    }

    /// The connection the worker waited for is open, but cannot be polled. By then it
    /// had its slot, which stays in use with nothing in it.
    pub fn dial_unregistered(&mut self, err: String, now: Nanos)
        requires
            old(self).wf(),
            old(self)@.op is Dial,
            old(self)@.slots.len() < usize::MAX,
            old(self)@.room(),
            now <= clock::max_nanos(),
        ensures
            final(self).wf(),
            final(self)@ == old(self)@.dial_unregistered(err@, now),
    {
        let ghost before = self@;
        proof {
            laws::lemma_dial_unregistered(before, err@, now);
            laws::lemma_op_changes(before, laws::hand(before.op), OpView::Nothing);
        }
        let mut op = Op::Nothing;
        std::mem::swap(&mut op, &mut self.op);
        let ghost x = before.with_op(OpView::Nothing);
        assert(self@ =~= x);
        match op {
            Op::Dial(job) => {
                match job.slot {
                    Some(i) => {
                        proof {
                            laws::lemma_redial_slot(x, job, i);
                        }
                        self.slots.set(i, None);
                    },
                    None => {
                        let top: Option<usize> = self.free.pop();
                        proof {
                            if top is Some {
                                assert(self.free@ =~= x.free.drop_last());
                            }
                        }
                        if top.is_none() {
                            self.slots.push(None);
                        }
                    },
                }
                proof {
                    laws::lemma_slot_lost(x, job);
                    assert(self@.slots =~= x.slot_lost(job).slots);
                    assert(self@ =~= x.slot_lost(job));
                }
                self.dial_failed_job(job, err, now);
            },
            _ => {},
        }
    }

    /// The connection the worker waited for did not come about. Only one that could
    /// not be polled had its slot by then.
    pub fn not_opened(&mut self, err: &OpenError, now: Nanos)
        requires
            old(self).wf(),
            old(self)@.op is Dial,
            old(self)@.slots.len() < usize::MAX,
            old(self)@.room(),
            now <= clock::max_nanos(),
        ensures
            final(self).wf(),
            final(self)@ == if *err is Register {
                old(self)@.dial_unregistered(setup::open_error_text(*err), now)
            } else {
                old(self)@.dial_refused(setup::open_error_text(*err), now)
            },
    {
        let text = err.text();
        match err {
            OpenError::Register(_) => self.dial_unregistered(text, now),
            _ => self.dial_refused(text, now),
        }
    }

    /// Takes up the dial that is to be made again first, if it is by now.
    pub fn fire_retry(&mut self, now: Nanos) -> (due: bool)
        requires
            old(self).wf(),
            old(self)@.op is Nothing,
        ensures
            final(self).wf(),
            final(self)@ == old(self)@.fire_retry(now),
            due == old(self)@.retry_due(now),
    {
        let ghost before = self@;
        proof {
            laws::lemma_fire_retry(before, now);
        }
        if self.retries.len() == 0 {
            return false;
        }
        if self.retries[0].0 > now {
            return false;
        }
        match self.retries.pop_front() {
            Some(r) => {
                self.op = Op::Dial(r.1);
            },
            None => {},
        }
        assert(self@ =~= before.fire_retry(now));
        true
    }

    fn dial_ok(&mut self, idx: usize, now: Nanos)
        requires
            old(self).wf(),
            old(self)@.op is Nothing,
            old(self)@.room(),
            now <= clock::max_nanos(),
        ensures
            final(self).wf(),
            final(self)@ == old(self)@.dial_ok(idx, now),
    {
        let ghost before = self@;
        proof {
            laws::lemma_dial_ok(before, idx, now);
        }
        if idx >= self.slots.len() {
            return;
        }
        assert(before.slots[idx as int] == conn_view(self.slots@[idx as int]));
        let dial: Option<DialJob> = match &self.slots[idx] {
            Some(c) => c.dial,
            None => None,
        };
        match dial {
            None => {},
            Some(job) => {
                let ghost c = before.slots[idx as int]->Some_0;
                let ghost up = WorkerView {
                    ready: before.ready + 1,
                    ..before.with_conn(idx as int, c.come_up())
                };
                proof {
                    laws::lemma_room_to_come_up(before, idx);
                    laws::lemma_come_up(before, idx, crate::stats::LatenciesView::none());
                }
                match &mut self.slots[idx] {
                    Some(c) => {
                        c.state = State::Ready;
                        c.dial = None;
                        c.attempt_deadline = None;
                    },
                    None => {},
                }
                self.ready += 1;
                proof {
                    assert(self@.slots =~= up.slots);
                    assert(self@ =~= up);
                }
                match job.purpose {
                    Purpose::New => {
                        self.connected += 1;
                        let took: Nanos = if now > job.start {
                            now - job.start
                        } else {
                            0
                        };
                        match &mut self.phase {
                            Phase::Dial(d) => {
                                d.active -= 1;
                                d.lat.ok(duration_of(took));
                            },
                            _ => {},
                        }
                        assert(self@ =~= before.dial_ok(idx, now));
                    },
                    Purpose::RedialEcho { start } => {
                        proof {
                            assert(laws::round_trips(up, Hand::Echo(idx), idx) > 0);
                            laws::lemma_echo_counted(up, Hand::Echo(idx), idx);
                        }
                        let body: Option<Arc<Vec<u8>>> = match &self.phase {
                            Phase::Echo(e) => Some(e.job.payloads[0].clone()),
                            _ => None,
                        };
                        match body {
                            Some(b) => {
                                self.send_request(idx, ReqKind::Echo { start }, b, now);
                            },
                            None => {},
                        }
                    },
                    Purpose::RedialRate => {
                        match &mut self.phase {
                            Phase::RatePrep(p) => {
                                if p.begun {
                                    p.redials -= 1;
                                }
                            },
                            _ => {},
                        }
                        assert(self@ =~= before.dial_ok(idx, now));
                    },
                }
            },
        }
    }

    // -- what connections report ------------------------------------------------

    fn rate_response(&mut self, idx: usize, result: Result<usize, String>, now: Nanos)
        requires
            old(self).wf(),
            old(self)@.op is Nothing,
            old(self)@.phase matches PhaseView::Rate(r) ==> {
                &&& r.counts.answered < u64::MAX
                &&& r.counts.recv_times < u64::MAX
                &&& result matches Ok(n) ==> r.counts.recv_bytes + n <= u64::MAX
            },
        ensures
            final(self).wf(),
            final(self)@ == old(self)@.response(
                idx,
                ReqKind::Rate,
                conn::result_view(result),
                now,
            ),
    {
        let ghost before = self@;
        proof {
            laws::lemma_rate_response(before, idx, conn::result_view(result), now);
        }
        if idx < self.slots.len() {
            assert(before.slots[idx as int] == conn_view(self.slots@[idx as int]));
            match &mut self.slots[idx] {
                Some(c) => {
                    if c.in_flight > 0 {
                        c.in_flight -= 1;
                    }
                },
                None => {},
            }
        }
        match &mut self.phase {
            Phase::Rate(r) => match result {
                Ok(n) => {
                    r.counts.answered += 1;
                    r.counts.recv_times += 1;
                    r.counts.recv_bytes += n as u64;
                },
                Err(e) => {
                    if begins_with(e.as_str(), "status ") || begins_with(
                        e.as_str(),
                        "response body",
                    ) {
                        r.counts.answered += 1;
                    }
                },
            },
            _ => {},
        }
        proof {
            let v = before.response(idx, ReqKind::Rate, conn::result_view(result), now);
            assert(self@.slots =~= v.slots);
            assert(self@ =~= v);
        }
    }

    /// Acts on the report that came first, if there is one.
    pub fn next_event(&mut self, now: Nanos) -> (any: bool)
        requires
            old(self).wf(),
            old(self)@.op is Nothing,
            old(self)@.room(),
            old(self)@.room_for_report(),
            now <= clock::max_nanos(),
        ensures
            final(self).wf(),
            final(self)@ == old(self)@.next_event(now),
            any == (old(self)@.events.len() > 0),
    {
        let ghost before = self@;
        proof {
            laws::lemma_next_event(before, now);
        }
        let first: Option<(usize, ConnEvent)> = self.events.pop_front();
        match first {
            None => {
                assert(self@ =~= before);
                false
            },
            Some((idx, ev)) => {
                let ghost taken = WorkerView { events: before.events.drop_first(), ..before };
                proof {
                    assert(before.events[0] == (idx, ev@));
                    assert(self@.events =~= before.events.drop_first());
                    assert(self@ =~= taken);
                    laws::lemma_report_taken(before);
                }
                match ev {
                    ConnEvent::Established => {
                        if idx < self.slots.len() {
                            assert(taken.slots[idx as int] == conn_view(self.slots@[idx as int]));
                            if self.slots[idx].is_some() {
                                let body: Arc<Vec<u8>> = Arc::new(Vec::new());
                                assert(body@ =~= Seq::<u8>::empty());
                                self.send_request(idx, ReqKind::Dial, body, now);
                            }
                        }
                    },
                    ConnEvent::Response { kind, result } => match kind {
                        ReqKind::Dial => match result {
                            Ok(_) => {
                                self.dial_ok(idx, now);
                            },
                            Err(e) => {
                                self.dial_failed(idx, e, now);
                            },
                        },
                        ReqKind::Echo { start } => {
                            self.echo_done(idx, result, start, now);
                        },
                        ReqKind::Rate => {
                            self.rate_response(idx, result, now);
                        },
                    },
                    ConnEvent::Closed(reason) => {
                        self.closed(idx, reason, now);
                    },
                }
                true
            },
        }
    }

    fn closed(&mut self, idx: usize, reason: String, now: Nanos)
        requires
            old(self).wf(),
            old(self)@.op is Nothing,
            old(self)@.room(),
            now <= clock::max_nanos(),
        ensures
            final(self).parts_wf(),
            final(self)@ == old(self)@.event(idx, conn::EventView::Closed(reason@), now),
    {
        let ghost before = self@;
        if idx >= self.slots.len() {
            return;
        }
        assert(before.slots[idx as int] == conn_view(self.slots@[idx as int]));
        let state: Option<State> = match &self.slots[idx] {
            Some(c) => Some(c.state),
            None => None,
        };
        match state {
            Some(State::Connecting) => {
                self.dial_failed(idx, reason, now);
            },
            Some(State::Ready) => {
                proof {
                    laws::lemma_broke(before, idx);
                }
                match &mut self.slots[idx] {
                    Some(c) => {
                        c.state = State::Broken;
                    },
                    None => {},
                }
                self.ready -= 1;
                proof {
                    let v = before.event(idx, conn::EventView::Closed(reason@), now);
                    assert(self@.slots =~= v.slots);
                    assert(self@ =~= v);
                }
            },
            _ => {},
        }
    }
}

impl Worker {
    // -- looking after a connection ---------------------------------------------

    fn report(&mut self, idx: usize, e: ConnEvent)
        ensures
            final(self)@ == old(self)@.with_events(idx, seq![e@]),
            old(self).parts_wf() ==> final(self).parts_wf(),
    {
        let ghost before = self@;
        let ghost said = e@;
        self.events.push_back((idx, e));
        proof {
            assert(self.events@.last().1@ == said);
            assert(self@.events =~= before.events + conn::tagged(idx, seq![said]));
            assert(self@ =~= before.with_events(idx, seq![said]));
        }
    }

    fn close_conn(&mut self, idx: usize, reason: &str)
        requires
            laws::is_occupied(old(self)@, idx as int),
        ensures
            final(self)@ == old(self)@.close_conn(
                idx,
                old(self)@.slots[idx as int]->Some_0,
                reason@,
            ),
            old(self).parts_wf() ==> final(self).parts_wf(),
    {
        let ghost before = self@;
        assert(before.slots[idx as int] == conn_view(self.slots@[idx as int]));
        let ghost c = before.slots[idx as int]->Some_0;
        match &mut self.slots[idx] {
            Some(c) => {
                c.fail_streams(reason, idx, &mut self.events);
            },
            None => {},
        }
        let ghost mid = before.with_conn(idx as int, c.cleared()).with_events(
            idx,
            c.failures(reason@),
        );
        proof {
            assert(self@.slots =~= mid.slots);
            assert(self@ =~= mid);
        }
        self.report(idx, ConnEvent::Closed(reason.to_owned()));
        proof {
            let last = seq![conn::EventView::Closed(reason@)];
            let all = c.failures(reason@).push(conn::EventView::Closed(reason@));
            assert(conn::tagged(idx, all) =~= conn::tagged(idx, c.failures(reason@))
                + conn::tagged(idx, last));
            assert(self@.events =~= before.events + conn::tagged(idx, all));
            assert(self@ =~= before.close_conn(idx, c, reason@));
        }
    }

    /// Begins to look after a connection, given why it is closed, if it is, and
    /// whether its handshake is complete.
    pub fn begin(&mut self, idx: usize, closed: Option<String>, established: bool) -> (look: Look)
        requires
            old(self).wf(),
            old(self)@.op is Nothing,
        ensures
            final(self).wf(),
            (final(self)@, look) == old(self)@.begin(idx, conn::text_view(closed), established),
    {
        let ghost before = self@;
        proof {
            laws::lemma_begin(before, idx, conn::text_view(closed), established);
        }
        if idx >= self.slots.len() {
            return Look::Rest;
        }
        assert(before.slots[idx as int] == conn_view(self.slots@[idx as int]));
        if self.slots[idx].is_none() {
            return Look::Rest;
        }
        let mut h3 = false;
        let mut error: Option<String> = None;
        match &mut self.slots[idx] {
            Some(c) => {
                h3 = c.h3;
                error = c.socket_error.take();
            },
            None => {},
        }
        let ghost c = before.slots[idx as int]->Some_0;
        let ghost bare = before.with_conn(idx as int, conn::ConnView { socket_error: None, ..c });
        proof {
            assert(self@.slots =~= bare.slots);
            assert(self@ =~= bare);
        }
        match error {
            Some(err) => {
                self.close_conn(idx, err.as_str());
                proof {
                    let d = conn::ConnView { socket_error: None, ..c };
                    assert(bare.close_conn(idx, d, err@).slots =~= before.close_conn(
                        idx,
                        d,
                        err@,
                    ).slots);
                    assert(self@ =~= before.close_conn(idx, d, err@));
                }
                self.mark_dirty(idx);
                if closed.is_none() {
                    Look::Close
                } else {
                    Look::Handle
                }
            },
            None => {
                proof {
                    assert(bare.slots =~= before.slots);
                    assert(bare =~= before);
                }
                match closed {
                    Some(reason) => {
                        self.close_conn(idx, reason.as_str());
                        self.mark_dirty(idx);
                        Look::Handle
                    },
                    None => {
                        self.mark_dirty(idx);
                        if h3 {
                            Look::Poll
                        } else if established {
                            Look::Setup
                        } else {
                            Look::Handle
                        }
                    },
                }
            },
        }
    }

    /// The HTTP/3 side of a connection was set up, or not.
    pub fn set_up(&mut self, idx: usize, failed: Option<String>)
        requires
            old(self).wf(),
            old(self)@.op is Nothing,
        ensures
            final(self).wf(),
            final(self)@ == old(self)@.set_up(idx, conn::text_view(failed)),
    {
        let ghost before = self@;
        proof {
            laws::lemma_set_up(before, idx, conn::text_view(failed));
        }
        if idx >= self.slots.len() {
            return;
        }
        assert(before.slots[idx as int] == conn_view(self.slots@[idx as int]));
        if self.slots[idx].is_none() {
            return;
        }
        match failed {
            None => {
                let mut connecting = false;
                match &mut self.slots[idx] {
                    Some(c) => {
                        c.h3 = true;
                        connecting = c.state == State::Connecting;
                    },
                    None => {},
                }
                proof {
                    let c = before.slots[idx as int]->Some_0;
                    let v = before.with_conn(idx as int, conn::ConnView { h3: true, ..c });
                    assert(self@.slots =~= v.slots);
                    assert(self@ =~= v);
                }
                if connecting {
                    self.report(idx, ConnEvent::Established);
                }
            },
            Some(e) => {
                let mut text = "HTTP/3 setup: ".to_owned();
                text.append(e.as_str());
                self.report(idx, ConnEvent::Closed(text));
            },
        }
    }

    /// Whether a response can still be counted in bytes with what the HTTP/3
    /// side of a connection reports.
    pub fn can_count(&self, idx: usize, ev: &H3Event) -> (r: bool)
        ensures
            r == (self@.conn(idx as int) matches Some(c) ==> conn::countable(c, ev@)),
    {
        if idx >= self.slots.len() {
            return true;
        }
        assert(self@.slots[idx as int] == conn_view(self.slots@[idx as int]));
        match &self.slots[idx] {
            Some(c) => c.can_count(ev),
            None => true,
        }
    }

    /// The HTTP/3 side of a connection reported something.
    pub fn polled(&mut self, idx: usize, ev: &H3Event)
        requires
            old(self).wf(),
            old(self)@.op is Nothing,
            old(self)@.conn(idx as int) matches Some(c) ==> conn::countable(c, ev@),
        ensures
            final(self).wf(),
            final(self)@ == old(self)@.polled(idx, ev@),
    {
        let ghost before = self@;
        proof {
            laws::lemma_polled(before, idx, ev@);
        }
        if idx >= self.slots.len() {
            return;
        }
        assert(before.slots[idx as int] == conn_view(self.slots@[idx as int]));
        if self.slots[idx].is_none() {
            return;
        }
        let check: bool = self.limits.check;
        let mut said: Option<ConnEvent> = None;
        match &mut self.slots[idx] {
            Some(c) => {
                said = c.h3_event(ev, check);
            },
            None => {},
        }
        proof {
            let c = before.slots[idx as int]->Some_0;
            let v = before.with_conn(idx as int, conn::h3_step(c, ev@, check).0);
            assert(self@.slots =~= v.slots);
            assert(self@ =~= v);
        }
        match said {
            Some(e) => {
                self.report(idx, e);
            },
            None => {},
        }
    }

    /// The `i`th body that waits on a connection: its stream, and it from where
    /// it is to be sent on.
    pub fn waiting_body(&self, idx: usize, i: usize) -> (r: Option<(u64, Arc<Vec<u8>>, usize)>)
        ensures
            match r {
                Some(b) => self@.conn(idx as int) matches Some(c) && i < c.pending.len()
                    && c.pending[i as int] == (conn::PendingView {
                    stream: b.0,
                    body: b.1@,
                    off: b.2,
                }),
                None => self@.conn(idx as int) matches Some(c) ==> i >= c.pending.len(),
            },
    {
        if idx >= self.slots.len() {
            return None;
        }
        assert(self@.slots[idx as int] == conn_view(self.slots@[idx as int]));
        match &self.slots[idx] {
            Some(c) => if i < c.pending.len() {
                assert(c@.pending[i as int] == c.pending@[i as int]@);
                Some((c.pending[i].stream, c.pending[i].body.clone(), c.pending[i].off))
            } else {
                None
            },
            None => None,
        }
    }

    /// Counts what of the `i`th waiting body went out, and says which one to try
    /// next.
    pub fn body_sent(&mut self, idx: usize, i: usize, sent: BodySent) -> (next: usize)
        requires
            old(self).wf(),
            old(self)@.op is Nothing,
            old(self)@.conn(idx as int) matches Some(c) && i < c.pending.len() && (
            sent matches BodySent::Sent(n) ==> c.pending[i as int].off + n <= usize::MAX),
        ensures
            final(self).wf(),
            final(self)@ == old(self)@.body_sent(idx, i as int, sent),
            next == (if conn::body_waits(
                old(self)@.slots[idx as int]->Some_0.pending[i as int],
                sent,
            ) {
                i + 1
            } else {
                i as int
            }),
    {
        let ghost before = self@;
        proof {
            laws::lemma_body_sent(before, idx, i as int, sent);
        }
        assert(before.slots[idx as int] == conn_view(self.slots@[idx as int]));
        let mut next: usize = i;
        match &mut self.slots[idx] {
            Some(c) => {
                next = c.body_sent(i, sent);
            },
            None => {},
        }
        proof {
            let v = before.body_sent(idx, i as int, sent);
            assert(self@.slots =~= v.slots);
            assert(self@ =~= v);
        }
        next
    }

    /// The connection has been read, and is closed for that reason if it is.
    pub fn read_out(&mut self, idx: usize, closed: Option<String>)
        requires
            old(self).wf(),
            old(self)@.op is Nothing,
        ensures
            final(self).wf(),
            final(self)@ == old(self)@.read_out(idx, conn::text_view(closed)),
    {
        let ghost before = self@;
        proof {
            laws::lemma_read_out(before, idx, conn::text_view(closed));
        }
        if idx >= self.slots.len() {
            return;
        }
        assert(before.slots[idx as int] == conn_view(self.slots@[idx as int]));
        if self.slots[idx].is_none() {
            return;
        }
        match closed {
            Some(reason) => {
                self.close_conn(idx, reason.as_str());
            },
            None => {},
        }
    }

    // -- the socket -------------------------------------------------------------

    /// Datagrams were read off a connection's socket, until an error if there
    /// was one.
    pub fn received(&mut self, idx: usize, got: bool, failed: Option<String>, now: Nanos)
        requires
            old(self).wf(),
            old(self)@.op is Nothing,
        ensures
            final(self).wf(),
            final(self)@ == old(self)@.received(idx, got, conn::text_view(failed), now),
    {
        let ghost before = self@;
        proof {
            laws::lemma_received(before, idx, got, conn::text_view(failed), now);
        }
        if idx >= self.slots.len() {
            return;
        }
        assert(before.slots[idx as int] == conn_view(self.slots@[idx as int]));
        match &mut self.slots[idx] {
            Some(c) => {
                match &failed {
                    Some(e) => {
                        let mut text = "recv: ".to_owned();
                        text.append(e.as_str());
                        c.socket_error = Some(text);
                    },
                    None => {},
                }
                if got {
                    c.last_active = now;
                }
            },
            None => {},
        }
        proof {
            let v = before.received(idx, got, conn::text_view(failed), now);
            assert(self@.slots =~= v.slots);
            assert(self@ =~= v);
        }
    }

    fn schedule(&mut self, idx: usize, timeout: Option<Nanos>)
        requires
            old(self).parts_wf(),
        ensures
            final(self).parts_wf(),
            final(self)@ == old(self)@.schedule(idx, timeout),
    {
        let ghost before = self@;
        if idx >= self.slots.len() {
            return;
        }
        assert(before.slots[idx as int] == conn_view(self.slots@[idx as int]));
        let mut set: Option<Nanos> = None;
        match &mut self.slots[idx] {
            Some(c) => {
                let due: Option<Nanos> = sooner(timeout, c.attempt_deadline);
                c.deadline = due;
                match due {
                    Some(d) => {
                        let needed: bool = match c.scheduled {
                            Some(s) => d < s,
                            None => true,
                        };
                        if needed {
                            c.scheduled = Some(d);
                            set = Some(d);
                        }
                    },
                    None => {},
                }
            },
            None => {},
        }
        match set {
            Some(d) => {
                self.timers.push(d, idx);
            },
            None => {},
        }
        proof {
            let v = before.schedule(idx, timeout);
            assert(self@.slots =~= v.slots);
            assert(self@ =~= v);
        }
    }

    /// A connection's datagrams were written to its socket, until it ended so;
    /// its transport wants to be looked at again at `timeout`. Says whether the
    /// connection has failed and is to be looked after.
    pub fn flushed(
        &mut self,
        idx: usize,
        sent: bool,
        end: FlushEnd,
        timeout: Option<Nanos>,
        now: Nanos,
    ) -> (failed: bool)
        requires
            old(self).wf(),
            old(self)@.op is Nothing,
            old(self)@.dropped < u64::MAX,
        ensures
            final(self).wf(),
            final(self)@ == old(self)@.flushed(idx, sent, end@, timeout, now),
            failed == (final(self)@.conn(idx as int) matches Some(c) && c.socket_error is Some),
    {
        let ghost before = self@;
        proof {
            laws::lemma_flushed(before, idx, sent, end@, timeout, now);
        }
        if idx >= self.slots.len() {
            return false;
        }
        assert(before.slots[idx as int] == conn_view(self.slots@[idx as int]));
        if self.slots[idx].is_none() {
            return false;
        }
        let mut failed = false;
        match &mut self.slots[idx] {
            Some(c) => {
                c.note_flush(sent, &end, now);
                failed = c.socket_error.is_some();
            },
            None => {},
        }
        let ghost d = self.slots@[idx as int]->Some_0@;
        proof {
            assert(self@.slots =~= before.slots.update(idx as int, Some(d)));
            assert(self@ =~= before.with_conn(idx as int, d));
        }
        self.schedule(idx, timeout);
        match end {
            FlushEnd::Full => {
                self.dropped += 1;
            },
            _ => {},
        }
        assert(self@ =~= before.flushed(idx, sent, end@, timeout, now));
        failed
    }

    /// A connection that owes a flush.
    pub fn next_dirty(&mut self) -> (r: Option<usize>)
        requires
            old(self).wf(),
        ensures
            final(self).wf(),
            final(self)@ == old(self)@.trim_dirty(),
            match r {
                Some(i) => final(self)@.owes_flush(i),
                None => forall|i: usize| !#[trigger] final(self)@.owes_flush(i),
            },
    {
        let ghost before = self@;
        proof {
            laws::lemma_trim_dirty(before);
        }
        while self.dirty.len() > 0
            invariant
                self.parts_wf(),
                before == old(self)@,
                self@ == (WorkerView { dirty: self.dirty@, ..before }),
                model::trimmed(before, self.dirty@) == model::trimmed(before, before.dirty),
                laws::inv(before.trim_dirty()),
            decreases self.dirty@.len(),
        {
            let i: usize = self.dirty[self.dirty.len() - 1];
            let mut owes = false;
            if i < self.slots.len() {
                assert(self@.slots[i as int] == conn_view(self.slots@[i as int]));
                match &self.slots[i] {
                    Some(c) => {
                        owes = c.dirty;
                    },
                    None => {},
                }
            }
            assert(owes == before.owes_flush(i));
            assert(i == self.dirty@.last());
            if owes {
                return Some(i);
            }
            let ghost was = self.dirty@;
            let _ = self.dirty.pop();
            proof {
                assert(self.dirty@ =~= was.drop_last());
                assert(self@ =~= (WorkerView { dirty: self.dirty@, ..before }));
            }
        }
        proof {
            assert(self@ == before.trim_dirty());
            assert forall|i: usize| !#[trigger] self@.owes_flush(i) by {
                if self@.owes_flush(i) {
                    assert(self@.slots[i as int] is Some);
                    assert(self@.dirty.contains(i));
                }
            }
        }
        None
    }

    // -- timers ----------------------------------------------------------------

    /// The slot whose timer has run out by now.
    pub fn timer_due(&mut self, now: Nanos) -> (r: Option<usize>)
        requires
            old(self).wf(),
        ensures
            final(self).wf(),
            final(self)@ == old(self)@.drop_stale(now),
            r == final(self)@.timer_due(now),
    {
        let ghost before = self@;
        proof {
            laws::lemma_drop_stale(before, now);
        }
        loop
            invariant
                self.parts_wf(),
                before == old(self)@,
                self@ == (WorkerView { timers: self.timers@, ..before }),
                model::fresh_timers(self.timers@, before.slots, now) == model::fresh_timers(
                    before.timers,
                    before.slots,
                    now,
                ),
                laws::inv(before.drop_stale(now)),
            decreases self.timers@.len(),
        {
            let next: Option<Timer> = self.timers.peek();
            match next {
                None => {
                    return None;
                },
                Some(t) => {
                    if t.0 > now {
                        return None;
                    }
                    let mut live = false;
                    if t.1 < self.slots.len() {
                        assert(self@.slots[t.1 as int] == conn_view(self.slots@[t.1 as int]));
                        match &self.slots[t.1] {
                            Some(c) => {
                                live = match c.scheduled {
                                    Some(s) => s == t.0,
                                    None => false,
                                };
                            },
                            None => {},
                        }
                    }
                    assert(live == model::current(before.slots, t));
                    if live {
                        return Some(t.1);
                    }
                    proof {
                        broadcast use vstd::multiset::group_multiset_axioms;

                        assert(self.timers@.remove(t).len() < self.timers@.len());
                    }
                    self.timers.pop();
                    assert(self@ =~= (WorkerView { timers: self.timers@, ..before }));
                },
            }
        }
    }

    /// Acts on the timer that has run out, given when the connection's transport
    /// wants to be looked at and whether its handshake is complete.
    pub fn fire_timer(&mut self, now: Nanos, timeout: Option<Nanos>, established: bool) -> (fired:
        Fired)
        requires
            old(self).wf(),
            old(self)@.op is Nothing,
            old(self)@.timer_due(now) is Some,
            old(self)@.room(),
            now <= clock::max_nanos(),
        ensures
            final(self).wf(),
            (final(self)@, fired) == old(self)@.fire_timer(now, timeout, established),
    {
        let ghost before = self@;
        proof {
            laws::lemma_fire_timer(before, now, timeout, established);
        }
        let next: Option<Timer> = self.timers.peek();
        let t: Timer = match next {
            Some(t) => t,
            None => (0, 0),
        };
        let idx: usize = t.1;
        assert(before.slots[idx as int] == conn_view(self.slots@[idx as int]));
        let (due, late): (bool, bool) = match &self.slots[idx] {
            Some(c) => (
                match c.deadline {
                    Some(d) => d <= now,
                    None => false,
                },
                c.state == State::Connecting && (match c.attempt_deadline {
                    Some(a) => a <= now,
                    None => false,
                }),
            ),
            None => (false, false),
        };
        if due && late {
            let reason: &str = if established {
                "timeout waiting for the first response"
            } else {
                "handshake timeout"
            };
            proof {
                assert(laws::conn_ok(idx as int, before.slots[idx as int]->Some_0));
                laws::lemma_taken_then_failed(before, t, reason@, now);
            }
            self.dial_failed(idx, reason.to_owned(), now);
            self.take_timer();
            return Fired::GaveUp;
        }
        self.take_timer();
        if !due {
            self.schedule(idx, timeout);
            Fired::NotDue
        } else {
            self.mark_dirty(idx);
            Fired::Expired
        }
    }

    fn take_timer(&mut self)
        requires
            old(self).parts_wf(),
            crate::timers::first(old(self)@.timers) is Some,
        ensures
            final(self).parts_wf(),
            final(self)@ == laws::timer_taken(
                old(self)@,
                crate::timers::first(old(self)@.timers)->Some_0,
            ),
    {
        let ghost before = self@;
        let next: Option<Timer> = self.timers.peek();
        match next {
            Some(t) => {
                self.timers.pop();
                if t.1 < self.slots.len() {
                    assert(before.slots[t.1 as int] == conn_view(self.slots@[t.1 as int]));
                    match &mut self.slots[t.1] {
                        Some(c) => {
                            c.scheduled = None;
                        },
                        None => {},
                    }
                }
                proof {
                    let v = laws::timer_taken(before, t);
                    assert(self@.slots =~= v.slots);
                    assert(self@ =~= v);
                }
            },
            None => {},
        }
    }
}

/// The same slots, to be taken from the front.
fn to_deque(v: &Vec<usize>) -> (d: VecDeque<usize>)
    ensures
        d@ == v@,
{
    let mut d: VecDeque<usize> = VecDeque::new();
    let mut i: usize = 0;
    while i < v.len()
        invariant
            i <= v@.len(),
            d@ == v@.take(i as int),
        decreases v@.len() - i,
    {
        d.push_back(v[i]);
        i += 1;
        assert(d@ =~= v@.take(i as int));
    }
    assert(v@.take(i as int) =~= v@);
    d
}

/// Whether a worker can run a command: a job has what it sends, and its times
/// and its batch are such that what is reckoned with them fits.
pub open spec fn runnable(cmd: Command) -> bool {
    match cmd {
        Command::Echo { job, concurrency } => job@.payloads.len() > 0,
        Command::Rate(job) => {
            &&& laws::job_fits(job@.batch, job@.tick)
            &&& job@.tick <= clock::max_nanos()
            &&& job@.duration <= clock::max_nanos()
        },
        _ => true,
    }
}

/// The length of the bodies that a command's requests have.
pub fn body_length(cmd: &Command) -> (r: Option<usize>)
    ensures
        r == (match *cmd {
            Command::Echo { job, concurrency } => Some(
                if job@.payloads.len() == 0 {
                    0
                } else {
                    job@.payloads[0].len() as usize
                },
            ),
            Command::Rate(job) => Some(job@.payload.len() as usize),
            _ => None,
        }),
{
    match cmd {
        Command::Echo { job, concurrency } => {
            if job.payloads.len() == 0 {
                Some(0)
            } else {
                assert(job@.payloads[0] == job.payloads@[0]@);
                Some(job.payloads[0].len())
            }
        },
        Command::Rate(job) => Some(job.payload.len()),
        _ => None,
    }
}

impl Worker {
    /// A worker without connections, which has nothing to do.
    pub fn new(limits: Limits, now: Nanos) -> (w: Self)
        requires
            limits_fit(limits),
            now <= clock::max_nanos(),
        ensures
            w.wf(),
            w@ == WorkerView::fresh(limits, now),
    {
        let w = Worker {
            limits,
            slots: Vec::new(),
            free: Vec::new(),
            timers: Timers::new(),
            retries: VecDeque::new(),
            dirty: Vec::new(),
            events: VecDeque::new(),
            op: Op::Nothing,
            phase: Phase::Idle,
            next_keepalive: now + 1_000_000_000,
            ready: 0,
            connected: 0,
            dropped: 0,
            notes: Vec::new(),
        };
        assert(w@ =~= WorkerView::fresh(limits, now));
        proof {
            laws::lemma_new(w@);
        }
        w
    }

    /// The slots that hold a connection.
    pub fn occupied(&self) -> (list: Vec<usize>)
        ensures
            list@ == self@.occupied(),
    {
        let ghost w = self@;
        let ghost f = |i: int| w.slots[i] is Some;
        let mut list: Vec<usize> = Vec::new();
        let mut i: usize = 0;
        while i < self.slots.len()
            invariant
                i <= self.slots@.len(),
                w == self@,
                f == (|i: int| w.slots[i] is Some),
                list@ == model::indices(i as nat, f),
            decreases self.slots@.len() - i,
        {
            assert(w.slots[i as int] == conn_view(self.slots@[i as int]));
            if self.slots[i].is_some() {
                list.push(i);
            }
            i += 1;
        }
        proof {
            laws::lemma_indices_same(w.slots.len(), f, |i: int| w.slots[i] is Some);
        }
        list
    }

    fn in_state(&self, s: State) -> (list: Vec<usize>)
        ensures
            list@ == self@.in_state(s),
    {
        let ghost w = self@;
        let ghost f = |i: int| w.slots[i] is Some && w.slots[i]->Some_0.state == s;
        let mut list: Vec<usize> = Vec::new();
        let mut i: usize = 0;
        while i < self.slots.len()
            invariant
                i <= self.slots@.len(),
                w == self@,
                f == (|i: int| w.slots[i] is Some && w.slots[i]->Some_0.state == s),
                list@ == model::indices(i as nat, f),
            decreases self.slots@.len() - i,
        {
            assert(w.slots[i as int] == conn_view(self.slots@[i as int]));
            match &self.slots[i] {
                Some(c) => {
                    if c.state == s {
                        list.push(i);
                    }
                },
                None => {},
            }
            i += 1;
        }
        proof {
            laws::lemma_indices_same(
                w.slots.len(),
                f,
                |i: int| w.slots[i] is Some && w.slots[i]->Some_0.state == s,
            );
        }
        list
    }

    /// Begins to run a command.
    pub fn start(&mut self, cmd: Command)
        requires
            old(self).wf(),
            old(self)@.op is Nothing,
            old(self)@.phase is Idle,
            runnable(cmd),
        ensures
            final(self).wf(),
            final(self)@ == (match cmd {
                Command::Dial { count, concurrency } => old(self)@.start_dial(count, concurrency),
                Command::Echo { job, concurrency } => old(self)@.start_echo(job@, concurrency),
                Command::Rate(job) => old(self)@.start_rate(job@),
                Command::Stop => old(self)@,
            }),
    {
        let ghost before = self@;
        match cmd {
            Command::Dial { count, concurrency } => {
                proof {
                    laws::lemma_start_dial(before, count, concurrency);
                }
                self.phase = Phase::Dial(
                    Dialing {
                        remaining: count,
                        active: 0,
                        concurrency,
                        round: None,
                        lat: Latencies::default(),
                    },
                );
                assert(self@ =~= before.start_dial(count, concurrency));
            },
            Command::Echo { job, concurrency } => {
                proof {
                    laws::lemma_start_echo(before, job@, concurrency);
                }
                let idle: VecDeque<usize> = to_deque(&self.occupied());
                let slots: usize = if concurrency < idle.len() {
                    concurrency
                } else {
                    idle.len()
                };
                let ghost j = job@;
                self.phase = Phase::Echo(
                    Echoing {
                        job,
                        slots,
                        in_flight: 0,
                        idle,
                        exhausted: slots == 0,
                        granted: false,
                        wait_until: None,
                        lat: Latencies::default(),
                    },
                );
                assert(self@ =~= before.start_echo(j, concurrency));
            },
            Command::Rate(job) => {
                proof {
                    laws::lemma_start_rate(before, job@);
                }
                let todo: VecDeque<usize> = to_deque(&self.in_state(State::Broken));
                let ghost j = job@;
                self.phase = Phase::RatePrep(
                    Preparing { job, redials: todo.len(), todo, begun: false },
                );
                assert(self@ =~= before.start_rate(j));
            },
            Command::Stop => {},
        }
    }

    // -- the benchmarks -----------------------------------------------------------

    fn drive_dial(&mut self, now: Nanos) -> (act: Act)
        requires
            old(self).wf(),
            old(self)@.op is Nothing,
            old(self)@.phase is Dial,
        ensures
            final(self).parts_wf(),
            (final(self)@, act@) == old(self)@.drive_dial(old(self)@.phase->Dial_0, now),
            act matches Act::Done(o) ==> o.wf(),
    {
        let ghost before = self@;
        let ghost d = before.phase->Dial_0;
        let (over, left): (bool, usize) = match &self.phase {
            Phase::Dial(d) => {
                let left: usize = match d.round {
                    Some(n) => n,
                    None => d.concurrency.saturating_sub(d.active),
                };
                (
                    d.round.is_none() && d.remaining == 0 && d.active == 0,
                    if d.remaining > 0 && d.active < d.concurrency {
                        left
                    } else {
                        0
                    },
                )
            },
            _ => (false, 0),
        };
        if over {
            let mut phase = Phase::Idle;
            std::mem::swap(&mut phase, &mut self.phase);
            assert(self@ =~= before.with_phase(PhaseView::Idle));
            return match phase {
                Phase::Dial(d) => Act::Done(Outcome::Dial(d.lat)),
                _ => Act::Rest,
            };
        }
        match &mut self.phase {
            Phase::Dial(d) => {
                if left > 0 {
                    d.remaining -= 1;
                    d.active += 1;
                    d.round = Some(left - 1);
                } else {
                    d.round = None;
                }
            },
            _ => {},
        }
        if left > 0 {
            self.op = Op::Dial(
                DialJob { start: now, attempt: 1, purpose: Purpose::New, slot: None },
            );
            assert(self@ =~= before.drive_dial(d, now).0);
            return Act::Open;
        }
        assert(self@ =~= before.drive_dial(d, now).0);
        Act::Rest
    }

    fn drive_echo(&mut self, now: Nanos) -> (act: Act)
        requires
            old(self).wf(),
            old(self)@.op is Nothing,
            old(self)@.phase is Echo,
        ensures
            final(self).parts_wf(),
            (final(self)@, act@) == old(self)@.drive_echo(old(self)@.phase->Echo_0, now),
            act matches Act::Done(o) ==> o.wf(),
    {
        let ghost before = self@;
        let ghost e = before.phase->Echo_0;
        let over: bool = match &self.phase {
            Phase::Echo(e) => e.exhausted && e.in_flight == 0,
            _ => false,
        };
        if over {
            let mut phase = Phase::Idle;
            std::mem::swap(&mut phase, &mut self.phase);
            assert(self@ =~= before.with_phase(PhaseView::Idle));
            return match phase {
                Phase::Echo(e) => Act::Done(Outcome::Echo(e.lat)),
                _ => Act::Rest,
            };
        }
        let mut act = Act::Rest;
        match &mut self.phase {
            Phase::Echo(e) => {
                let early: bool = match e.wait_until {
                    Some(t) => now < t,
                    None => false,
                };
                if !(e.exhausted || e.in_flight >= e.slots || early) {
                    e.wait_until = None;
                    if e.job.limited && !e.granted {
                        act = Act::Take(1);
                    } else if e.idle.len() == 0 {
                        e.granted = false;
                    } else {
                        act = Act::Number;
                    }
                }
            },
            _ => {},
        }
        assert(self@ =~= before.drive_echo(e, now).0);
        act
    }

    /// Whether the round trip with that number can be taken up: there are not so
    /// many, or the slot it would go to still holds a connection.
    pub fn can_issue(&self, n: u64) -> (r: bool)
        requires
            self.wf(),
            self@.op is Nothing,
            laws::wants_number(self@),
        ensures
            r == (n < self@.phase->Echo_0.job.times ==> laws::has_next(self@)),
    {
        proof {
            laws::lemma_first_idle(self@);
        }
        match &self.phase {
            Phase::Echo(e) => {
                if n >= e.job.times {
                    return true;
                }
                let idx: usize = e.idle[0];
                assert(self@.slots[idx as int] == conn_view(self.slots@[idx as int]));
                self.slots[idx].is_some()
            },
            _ => true,
        }
    }

    /// The round trip with that number is the next one, if there are so many.
    pub fn issue(&mut self, n: u64, now: Nanos)
        requires
            old(self).wf(),
            old(self)@.op is Nothing,
            laws::wants_number(old(self)@),
            n < old(self)@.phase->Echo_0.job.times ==> laws::has_next(old(self)@),
            old(self)@.room(),
            now <= clock::max_nanos(),
        ensures
            final(self).wf(),
            final(self)@ == old(self)@.issue(n, now),
    {
        let ghost before = self@;
        let ghost e = before.phase->Echo_0;
        proof {
            laws::lemma_issue(before, n, now);
            laws::lemma_first_idle(before);
            if n < e.job.times {
                laws::lemma_taken_up(before);
            }
        }
        let mut next: Option<(usize, Arc<Vec<u8>>)> = None;
        match &mut self.phase {
            Phase::Echo(e) => {
                e.granted = false;
                if n >= e.job.times {
                    e.exhausted = true;
                } else {
                    let count: u64 = e.job.payloads.len() as u64;
                    let at: usize = (n % count) as usize;
                    let body: Arc<Vec<u8>> = e.job.payloads[at].clone();
                    match e.idle.pop_front() {
                        Some(idx) => {
                            e.in_flight += 1;
                            next = Some((idx, body));
                        },
                        None => {},
                    }
                }
            },
            _ => {},
        }
        match next {
            None => {
                assert(self@ =~= before.issue(n, now));
            },
            Some((idx, body)) => {
                let ghost v = laws::taken_up(before);
                assert(self@ =~= v);
                assert(before.slots[idx as int] == conn_view(self.slots@[idx as int]));
                let broken: bool = match &self.slots[idx] {
                    Some(c) => c.state == State::Broken,
                    None => false,
                };
                if broken {
                    self.op = Op::Dial(
                        DialJob {
                            start: now,
                            attempt: 1,
                            purpose: Purpose::RedialEcho { start: now },
                            slot: Some(idx),
                        },
                    );
                    assert(self@ =~= before.issue(n, now));
                } else {
                    self.send_request(idx, ReqKind::Echo { start: now }, body, now);
                }
            },
        }
    }

    fn drive_prep(&mut self, now: Nanos) -> (act: Act)
        requires
            old(self).wf(),
            old(self)@.op is Nothing,
            old(self)@.phase is RatePrep,
            now <= clock::max_nanos(),
        ensures
            final(self).parts_wf(),
            (final(self)@, act@) == old(self)@.drive_prep(old(self)@.phase->RatePrep_0, now),
            act matches Act::Done(o) ==> o.wf(),
    {
        let ghost before = self@;
        let ghost p = before.phase->RatePrep_0;
        let mut next: Option<usize> = None;
        let mut job: Option<Arc<RateJob>> = None;
        match &mut self.phase {
            Phase::RatePrep(p) => {
                next = p.todo.pop_front();
                if next.is_none() {
                    p.begun = true;
                    if p.redials == 0 {
                        job = Some(p.job.clone());
                    }
                }
            },
            _ => {},
        }
        match next {
            Some(idx) => {
                self.op = Op::Dial(
                    DialJob {
                        start: now,
                        attempt: 1,
                        purpose: Purpose::RedialRate,
                        slot: Some(idx),
                    },
                );
                proof {
                    let v = before.drive_prep(p, now).0;
                    assert(self@.phase->RatePrep_0.todo =~= v.phase->RatePrep_0.todo);
                    assert(self@ =~= v);
                }
                Act::Open
            },
            None => {
                assert(self@ =~= before.with_phase(
                    PhaseView::RatePrep(PrepPhase { begun: true, ..p }),
                ));
                match job {
                    Some(j) => {
                        let conns: Vec<usize> = self.in_state(State::Ready);
                        self.clear_unanswered();
                        self.phase = Phase::Rate(
                            Rating {
                                deadline: now + j.duration,
                                next_tick: now + j.tick,
                                job: j,
                                conns,
                                grace_until: None,
                                counts: RateCounts {
                                    send_times: 0,
                                    send_bytes: 0,
                                    recv_times: 0,
                                    recv_bytes: 0,
                                    answered: 0,
                                },
                                tick: None,
                            },
                        );
                        proof {
                            let v = before.drive_prep(p, now).0;
                            assert(self@.slots =~= v.slots);
                            assert(self@ =~= v);
                        }
                    },
                    None => {},
                }
                Act::Rest
            },
        }
    }

    /// No request on a connection that is up is unanswered.
    fn clear_unanswered(&mut self)
        ensures
            old(self).parts_wf() ==> final(self).parts_wf(),
            final(self)@ == (WorkerView { slots: final(self)@.slots, ..old(self)@ }),
            final(self)@.slots.len() == old(self)@.slots.len(),
            forall|i: int|
                0 <= i < old(self)@.slots.len() ==> #[trigger] final(self)@.slots[i] == (if old(
                    self,
                )@.slots[i] is Some && old(self)@.slots[i]->Some_0.state == State::Ready {
                    Some((ConnView { in_flight: 0, ..old(self)@.slots[i]->Some_0 }))
                } else {
                    old(self)@.slots[i]
                }),
    {
        let ghost before = self@;
        let mut i: usize = 0;
        while i < self.slots.len()
            invariant
                i <= self.slots@.len(),
                before == old(self)@,
                old(self).parts_wf() ==> self.parts_wf(),
                self@ == (WorkerView { slots: self@.slots, ..before }),
                self@.slots.len() == before.slots.len(),
                forall|k: int|
                    0 <= k < i ==> #[trigger] self@.slots[k] == (if before.slots[k] is Some
                        && before.slots[k]->Some_0.state == State::Ready {
                        Some((ConnView { in_flight: 0, ..before.slots[k]->Some_0 }))
                    } else {
                        before.slots[k]
                    }),
                forall|k: int|
                    i <= k < before.slots.len() ==> #[trigger] self@.slots[k] == before.slots[k],
            decreases self.slots@.len() - i,
        {
            let ghost mid = self@;
            assert(self@.slots[i as int] == conn_view(self.slots@[i as int]));
            match &mut self.slots[i] {
                Some(c) => {
                    if c.state == State::Ready {
                        c.in_flight = 0;
                    }
                },
                None => {},
            }
            proof {
                assert forall|k: int| 0 <= k < self@.slots.len() && k != i implies #[trigger] self@.slots[k]
                    == mid.slots[k] by {}
                assert(self@ =~= (WorkerView { slots: self@.slots, ..before }));
            }
            i += 1;
        }
    }
}

impl Worker {
    /// Whether the connection at a place may be sent a batch.
    fn takes_batch(&self, r: &Rating, k: usize) -> (b: bool)
        requires
            k < r.conns@.len(),
        ensures
            b == self@.takes_batch(Phase::Rate(*r)@->Rate_0, k as int),
    {
        let idx: usize = r.conns[k];
        if idx >= self.slots.len() {
            return false;
        }
        assert(self@.slots[idx as int] == conn_view(self.slots@[idx as int]));
        match &self.slots[idx] {
            Some(c) => c.state == State::Ready && !c.goaway && c.in_flight as u128
                + r.job.batch as u128 <= r.job.batch as u128 * 4,
            None => false,
        }
    }

    /// The first place from `k` on of a connection that may be sent a batch.
    fn next_place(&self, k: usize) -> (at: usize)
        requires
            self@.phase is Rate,
            k <= self@.phase->Rate_0.conns.len(),
        ensures
            at == self@.next_place(self@.phase->Rate_0, k as nat),
            at <= self@.phase->Rate_0.conns.len(),
    {
        match &self.phase {
            Phase::Rate(r) => {
                let ghost rv = self@.phase->Rate_0;
                proof {
                    laws::lemma_next_place(self@, rv, k as nat);
                }
                let mut at: usize = k;
                while at < r.conns.len()
                    invariant
                        self.phase == Phase::Rate(*r),
                        rv == Phase::Rate(*r)@->Rate_0,
                        rv.conns == r.conns@,
                        k <= at <= r.conns@.len(),
                        self@.next_place(rv, k as nat) == self@.next_place(rv, at as nat),
                    decreases r.conns@.len() - at,
                {
                    if self.takes_batch(r, at) {
                        return at;
                    }
                    at += 1;
                }
                at
            },
            _ => k,
        }
    }

    fn tick_look(&mut self, k: usize) -> (act: Act)
        requires
            old(self).parts_wf(),
            old(self)@.phase is Rate,
            k <= old(self)@.phase->Rate_0.conns.len(),
        ensures
            final(self).parts_wf(),
            (final(self)@, act@) == old(self)@.tick_look(old(self)@.phase->Rate_0, k as nat),
            !(act is Done),
    {
        let ghost before = self@;
        let ghost rv = before.phase->Rate_0;
        let at: usize = self.next_place(k);
        let mut act = Act::Rest;
        match &mut self.phase {
            Phase::Rate(r) => {
                if at >= r.conns.len() {
                    r.tick = None;
                } else {
                    r.tick = Some(Tick::Streams(at));
                    act = Act::Streams(r.conns[at]);
                }
            },
            _ => {},
        }
        assert(self@ =~= before.tick_look(rv, k as nat).0);
        act
    }

    fn rate_tick(&mut self, tick: Tick) -> (act: Act)
        requires
            old(self).wf(),
            old(self)@.op is Nothing,
            old(self)@.phase is Rate,
            old(self)@.phase->Rate_0.tick == Some(tick),
        ensures
            final(self).parts_wf(),
            forall|now: Nanos|
                (final(self)@, act@) == #[trigger] old(self)@.rate_tick(
                    old(self)@.phase->Rate_0,
                    tick,
                    now,
                ),
            !(act is Done),
    {
        let ghost before = self@;
        let ghost rv = before.phase->Rate_0;
        match tick {
            Tick::Look(k) => self.tick_look(k),
            Tick::Streams(at) => match &self.phase {
                Phase::Rate(r) => Act::Streams(r.conns[at]),
                _ => Act::Rest,
            },
            Tick::Tokens(at) => match &self.phase {
                Phase::Rate(r) => Act::Take(r.job.batch),
                _ => Act::Rest,
            },
            Tick::Sending { at, left } => {
                let next: Option<(usize, Arc<Vec<u8>>)> = match &self.phase {
                    Phase::Rate(r) => Some((r.conns[at], r.job.payload.clone())),
                    _ => None,
                };
                match next {
                    Some((idx, body)) => {
                        assert(rv.conns[at as int] < before.slots.len());
                        assert(before.slots[idx as int] == conn_view(self.slots@[idx as int]));
                        let h3: bool = match &self.slots[idx] {
                            Some(c) => c.h3,
                            None => false,
                        };
                        if h3 {
                            self.op = Op::Send { idx, kind: ReqKind::Rate, body, queued: false };
                            proof {
                                assert forall|now: Nanos| self@ == (#[trigger] before.rate_tick(
                                    rv,
                                    tick,
                                    now,
                                )).0 by {
                                    assert(self@ =~= before.rate_tick(rv, tick, now).0);
                                }
                            }
                            Act::Transmit
                        } else {
                            self.tick_look(at + 1)
                        }
                    },
                    None => Act::Rest,
                }
            },
        }
    }

    fn drive_rate(&mut self, now: Nanos) -> (act: Act)
        requires
            old(self).wf(),
            old(self)@.op is Nothing,
            old(self)@.phase is Rate,
            now <= clock::max_nanos(),
        ensures
            final(self).parts_wf(),
            (final(self)@, act@) == old(self)@.drive_rate(old(self)@.phase->Rate_0, now),
            act matches Act::Done(o) ==> o.wf(),
    {
        let ghost before = self@;
        let ghost rv = before.phase->Rate_0;
        let tick: Option<Tick> = match &self.phase {
            Phase::Rate(r) => r.tick,
            _ => None,
        };
        match tick {
            Some(t) => {
                return self.rate_tick(t);
            },
            None => {},
        }
        let mut done: Option<RateCounts> = None;
        let mut look = false;
        match &mut self.phase {
            Phase::Rate(r) => match r.grace_until {
                Some(grace) => {
                    // The last batch has had its tick to come back in, or has.
                    if r.counts.answered >= r.counts.send_times || now >= grace {
                        done = Some(r.counts);
                    }
                },
                None => {
                    if now >= r.deadline {
                        r.grace_until = Some(now + r.job.tick);
                    } else if now >= r.next_tick {
                        r.next_tick = next_tick(r.next_tick, r.job.tick, now);
                        look = true;
                    }
                },
            },
            _ => {},
        }
        match done {
            Some(counts) => {
                self.phase = Phase::Idle;
                assert(self@ =~= before.with_phase(PhaseView::Idle));
                Act::Done(Outcome::Rate(counts))
            },
            None => {
                if look {
                    let ghost s = RatePhase { next_tick: rv.tick_after(now), ..rv };
                    assert(self@ =~= before.with_phase(PhaseView::Rate(s)));
                    let act = self.tick_look(0);
                    proof {
                        laws::lemma_look_anywhere(before, PhaseView::Rate(s), s, 0);
                        assert(before.with_phase(PhaseView::Rate(s)).tick_look(s, 0).0
                            =~= before.tick_look(s, 0).0);
                    }
                    act
                } else {
                    assert(self@ =~= before.drive_rate(rv, now).0);
                    Act::Rest
                }
            },
        }
    }

    /// What the worker wants next.
    pub fn drive(&mut self, now: Nanos) -> (act: Act)
        requires
            old(self).wf(),
            now <= clock::max_nanos(),
        ensures
            final(self).wf(),
            (final(self)@, act@) == old(self)@.drive(now),
            act matches Act::Done(o) ==> o.wf(),
    {
        proof {
            laws::lemma_drive(self@, now);
        }
        match &self.op {
            Op::Dial(_) => {
                return Act::Open;
            },
            Op::Send { .. } => {
                return Act::Transmit;
            },
            Op::Nothing => {},
        }
        match &self.phase {
            Phase::Idle => Act::Rest,
            Phase::Dial(_) => self.drive_dial(now),
            Phase::Echo(_) => self.drive_echo(now),
            Phase::RatePrep(_) => self.drive_prep(now),
            Phase::Rate(_) => self.drive_rate(now),
        }
    }

    /// The limiter let what was asked for through, or said how long it will be.
    pub fn tokens(&mut self, wait: Option<Nanos>, now: Nanos)
        requires
            old(self).wf(),
            old(self)@.op is Nothing,
            now <= clock::max_nanos(),
            wait matches Some(t) ==> now + t <= u128::MAX,
        ensures
            final(self).wf(),
            final(self)@ == old(self)@.tokens(wait, now),
    {
        let ghost before = self@;
        proof {
            laws::lemma_tokens(before, wait, now);
        }
        match &mut self.phase {
            Phase::Echo(e) => match wait {
                None => {
                    e.granted = true;
                },
                Some(t) => {
                    e.wait_until = Some(now + t);
                },
            },
            Phase::Rate(r) => match r.tick {
                Some(Tick::Tokens(at)) => {
                    if wait.is_none() {
                        r.send_at(at);
                    } else {
                        r.skip();
                    }
                },
                _ => {},
            },
            _ => {},
        }
        assert(self@ =~= before.tokens(wait, now));
    }

    /// The server leaves the connection that many streams.
    pub fn streams_left(&mut self, n: u64)
        requires
            old(self).wf(),
            old(self)@.op is Nothing,
        ensures
            final(self).wf(),
            final(self)@ == old(self)@.streams_left(n),
    {
        let ghost before = self@;
        proof {
            laws::lemma_streams_left(before, n);
        }
        match &mut self.phase {
            Phase::Rate(r) => match r.tick {
                Some(Tick::Streams(at)) => {
                    if n < r.job.batch as u64 {
                        r.skip();
                    } else if r.job.limited {
                        r.tick = Some(Tick::Tokens(at));
                    } else {
                        r.send_at(at);
                    }
                },
                _ => {},
            },
            _ => {},
        }
        assert(self@ =~= before.streams_left(n));
    }

    /// When the worker must look again at the latest.
    pub fn next_wakeup(&self) -> (t: Nanos)
        requires
            self.wf(),
        ensures
            t == self@.next_wakeup(),
    {
        let timer: Option<Nanos> = match self.timers.peek() {
            Some(e) => Some(e.0),
            None => None,
        };
        let retry: Option<Nanos> = if self.retries.len() > 0 {
            Some(self.retries[0].0)
        } else {
            None
        };
        let phase: Option<Nanos> = match &self.phase {
            Phase::Echo(e) => e.wait_until,
            Phase::Rate(r) => Some(
                match r.grace_until {
                    Some(g) => g,
                    None => if r.next_tick < r.deadline {
                        r.next_tick
                    } else {
                        r.deadline
                    },
                },
            ),
            _ => None,
        };
        let t: Option<Nanos> = sooner(
            sooner(sooner(Some(self.next_keepalive), timer), retry),
            phase,
        );
        match t {
            Some(t) => t,
            None => self.next_keepalive,
        }
    }

    /// The connections to send a PING to, once a second: those that have been
    /// quiet for a quarter of the idle timeout.
    pub fn keepalive(&mut self, now: Nanos) -> (list: Vec<usize>)
        requires
            old(self).wf(),
            old(self)@.op is Nothing,
            now <= clock::max_nanos(),
        ensures
            final(self).wf(),
            final(self)@ == old(self)@.keepalive(now),
            list@ == old(self)@.to_ping(now),
    {
        let ghost before = self@;
        proof {
            laws::lemma_keepalive(before, now);
        }
        let mut list: Vec<usize> = Vec::new();
        if now < self.next_keepalive {
            assert(list@ =~= before.to_ping(now));
            return list;
        }
        self.next_keepalive = now + 1_000_000_000;
        let keepalive: Nanos = self.limits.keepalive;
        let ghost quiet = |i: int| before.quiet(i, now);
        let ghost fresh = |i: int| before.quiet(i, now) && !before.slots[i]->Some_0.dirty;
        let mut i: usize = 0;
        assert(self@ =~= (WorkerView {
            next_keepalive: (now + 1_000_000_000) as Nanos,
            slots: self@.slots,
            dirty: self.dirty@,
            ..before
        }));
        assert(before.dirty + model::indices(0, fresh) =~= before.dirty);
        while i < self.slots.len()
            invariant
                i <= self.slots@.len(),
                before == old(self)@,
                keepalive == before.limits.keepalive,
                quiet == (|i: int| before.quiet(i, now)),
                fresh == (|i: int| before.quiet(i, now) && !before.slots[i]->Some_0.dirty),
                self.parts_wf(),
                self@ == (WorkerView {
                    next_keepalive: (now + 1_000_000_000) as Nanos,
                    slots: self@.slots,
                    dirty: self.dirty@,
                    ..before
                }),
                self@.slots.len() == before.slots.len(),
                list@ == model::indices(i as nat, quiet),
                self.dirty@ == before.dirty + model::indices(i as nat, fresh),
                forall|k: int|
                    0 <= k < i ==> #[trigger] self@.slots[k] == (if before.quiet(k, now) {
                        Some((ConnView { dirty: true, ..before.slots[k]->Some_0 }))
                    } else {
                        before.slots[k]
                    }),
                forall|k: int|
                    i <= k < before.slots.len() ==> #[trigger] self@.slots[k] == before.slots[k],
            decreases self.slots@.len() - i,
        {
            let ghost mid = self@;
            assert(self@.slots[i as int] == conn_view(self.slots@[i as int]));
            let mut ping = false;
            let mut marked = false;
            match &mut self.slots[i] {
                Some(c) => {
                    let still: Nanos = if now > c.last_active {
                        now - c.last_active
                    } else {
                        0
                    };
                    if c.state == State::Ready && c.streams.len() == 0 && still >= keepalive {
                        ping = true;
                        if !c.dirty {
                            c.dirty = true;
                            marked = true;
                        }
                    }
                },
                None => {},
            }
            assert(ping == before.quiet(i as int, now));
            if ping {
                list.push(i);
            }
            if marked {
                self.dirty.push(i);
            }
            proof {
                assert(quiet(i as int) == ping);
                assert(fresh(i as int) == marked);
                assert(self.dirty@ =~= before.dirty + model::indices((i + 1) as nat, fresh));
                assert forall|k: int| 0 <= k < self@.slots.len() && k != i implies #[trigger] self@.slots[k]
                    == mid.slots[k] by {}
                assert(self@ =~= (WorkerView {
                    next_keepalive: (now + 1_000_000_000) as Nanos,
                    slots: self@.slots,
                    dirty: self.dirty@,
                    ..before
                }));
            }
            i += 1;
        }
        proof {
            laws::lemma_indices_same(before.slots.len(), quiet, |i: int| before.quiet(i, now));
            laws::lemma_indices_same(
                before.slots.len(),
                fresh,
                |i: int| before.quiet(i, now) && !before.slots[i]->Some_0.dirty,
            );
            let v = before.keepalive(now);
            assert(self@.slots =~= v.slots);
            assert(self@ =~= v);
        }
        list
    }

    // -- how it stands ------------------------------------------------------------

    /// How many connections are up and serving.
    pub fn ready(&self) -> (n: usize)
        ensures
            n == self@.ready,
    {
        self.ready
    }

    /// How many connections of the Connections benchmark came up.
    pub fn connected(&self) -> (n: u64)
        ensures
            n == self@.connected,
    {
        self.connected
    }

    /// How many datagrams a full socket buffer dropped.
    pub fn dropped(&self) -> (n: u64)
        ensures
            n == self@.dropped,
    {
        self.dropped
    }

    /// How many slots there are.
    pub fn slot_count(&self) -> (n: usize)
        ensures
            n == self@.slots.len(),
    {
        self.slots.len()
    }

    /// Whether a slot holds a connection.
    pub fn is_taken(&self, idx: usize) -> (r: bool)
        ensures
            r == laws::is_occupied(self@, idx as int),
    {
        if idx >= self.slots.len() {
            return false;
        }
        assert(self@.slots[idx as int] == conn_view(self.slots@[idx as int]));
        self.slots[idx].is_some()
    }

    /// Whether the worker runs nothing and waits for nothing.
    pub fn is_idle(&self) -> (r: bool)
        ensures
            r == (self@.phase is Idle && self@.op is Nothing),
    {
        let idle: bool = match &self.phase {
            Phase::Idle => true,
            _ => false,
        };
        let waits: bool = match &self.op {
            Op::Nothing => false,
            _ => true,
        };
        idle && !waits
    }

    /// Takes the reasons why redials before BenchMultiplex were given up.
    pub fn take_notes(&mut self) -> (notes: Vec<String>)
        requires
            old(self).wf(),
        ensures
            final(self).wf(),
            crate::text::texts(notes@) == old(self)@.notes,
            final(self)@ == (WorkerView { notes: Seq::empty(), ..old(self)@ }),
    {
        let ghost before = self@;
        let mut notes: Vec<String> = Vec::new();
        std::mem::swap(&mut notes, &mut self.notes);
        proof {
            assert(self@.notes =~= Seq::<Seq<char>>::empty());
            assert(self@ =~= (WorkerView { notes: Seq::empty(), ..before }));
            laws::lemma_notes(before, Seq::empty());
        }
        notes
    }

    /// Whether what may happen next can still be counted.
    pub fn has_room(&self) -> (r: bool)
        ensures
            r == self@.room(),
    {
        let counts: bool = match &self.phase {
            Phase::Dial(d) => d.lat.success < i64::MAX && d.lat.failed < i64::MAX,
            Phase::Echo(e) => e.lat.success < i64::MAX && e.lat.failed < i64::MAX,
            Phase::Rate(r) => r.counts.send_times < u64::MAX && r.job.payload.len() as u64
                <= u64::MAX - r.counts.send_bytes && r.counts.answered < u64::MAX
                && r.counts.recv_times < u64::MAX,
            _ => true,
        };
        self.connected < u64::MAX && self.dropped < u64::MAX && counts
    }

    /// Whether the report that came first can be.
    pub fn has_room_for_report(&self) -> (r: bool)
        ensures
            r == self@.room_for_report(),
    {
        match &self.phase {
            Phase::Rate(r) => {
                if self.events.len() == 0 {
                    return true;
                }
                assert(self@.events[0].1 == self.events@[0].1@);
                match &self.events[0].1 {
                    ConnEvent::Response { kind: ReqKind::Rate, result: Ok(n) } => *n as u64
                        <= u64::MAX - r.counts.recv_bytes,
                    _ => true,
                }
            },
            _ => true,
        }
    }
}

/// The first of the moments after now that come every `tick` from `at` on.
fn next_tick(at: Nanos, tick: Nanos, now: Nanos) -> (t: Nanos)
    requires
        at <= now <= clock::max_nanos(),
        0 < tick <= clock::max_nanos(),
    ensures
        t == at + ((now - at) / (tick as int) + 1) * tick,
        now < t <= now + tick,
{
    let gone: Nanos = now - at;
    let q: Nanos = gone / tick;
    proof {
        let whole = q * tick;
        assert(whole <= gone < whole + tick) by (nonlinear_arith)
            requires
                q == gone / tick,
                tick > 0,
                whole == q * tick,
        ;
        assert((q + 1) * tick == whole + tick) by (nonlinear_arith)
            requires
                whole == q * tick,
        ;
    }
    at + (q + 1) * tick
}

impl Rating {
    fn one_sent(&mut self)
        requires
            old(self).counts.send_times < u64::MAX,
            old(self).counts.send_bytes + old(self).job.payload@.len() <= u64::MAX,
            old(self).tick matches Some(t) ==> !(t is Look) ==> model::place(t) < usize::MAX,
        ensures
            Phase::Rate(*final(self))@ == PhaseView::Rate(
                Phase::Rate(*old(self))@->Rate_0.one_sent(),
            ),
            final(self).job == old(self).job,
    {
        self.counts.send_times += 1;
        self.counts.send_bytes += self.job.payload.len() as u64;
        match self.tick {
            Some(Tick::Sending { at, left }) => {
                if left <= 1 {
                    self.tick = Some(Tick::Look(at + 1));
                } else {
                    self.tick = Some(Tick::Sending { at, left: left - 1 });
                }
            },
            _ => {},
        }
    }
}

impl Rating {
    fn send_at(&mut self, at: usize)
        requires
            at < usize::MAX,
        ensures
            Phase::Rate(*final(self))@ == PhaseView::Rate(
                Phase::Rate(*old(self))@->Rate_0.send_at(at),
            ),
            final(self).job == old(self).job,
    {
        if self.job.batch == 0 {
            self.tick = Some(Tick::Look(at + 1));
        } else {
            self.tick = Some(Tick::Sending { at, left: self.job.batch });
        }
    }

    fn skip(&mut self)
        requires
            old(self).tick matches Some(t) ==> !(t is Look) ==> model::place(t) < usize::MAX,
        ensures
            Phase::Rate(*final(self))@ == PhaseView::Rate(Phase::Rate(*old(self))@->Rate_0.skip()),
            final(self).job == old(self).job,
    {
        match self.tick {
            Some(Tick::Streams(at)) => {
                self.tick = Some(Tick::Look(at + 1));
            },
            Some(Tick::Tokens(at)) => {
                self.tick = Some(Tick::Look(at + 1));
            },
            Some(Tick::Sending { at, left }) => {
                self.tick = Some(Tick::Look(at + 1));
            },
            _ => {},
        }
    }
}

impl Conn {
    fn give_up(&mut self)
        ensures
            final(self)@ == old(self)@.given_up(),
    {
        self.clear();
        self.state = State::Broken;
        self.dial = None;
        self.attempt_deadline = None;
    }

    fn queue_back(&mut self, kind: ReqKind, body: Arc<Vec<u8>>)
        ensures
            final(self)@ == old(self)@.with_queued(
                old(self)@.queued.push((conn::QueuedView { kind, body: body@ })),
            ),
    {
        let ghost before = self@;
        self.queued.push_back(Queued { kind, body });
        assert(self@.queued =~= before.queued.push((conn::QueuedView { kind, body: body@ })));
    }

    fn note_sent(&mut self, kind: ReqKind, body: Arc<Vec<u8>>, stream: u64, off: usize)
        requires
            kind is Rate ==> old(self)@.in_flight < u64::MAX,
        ensures
            final(self)@ == old(self)@.with_sent(kind, body@, stream, off),
    {
        let ghost before = self@;
        let ghost b = body@;
        if off < body.len() {
            self.pending.push(PendingBody { stream, body: body.clone(), off });
        }
        let expect: Arc<Vec<u8>> = match kind {
            ReqKind::Dial => Arc::new(Vec::new()),
            _ => body,
        };
        let at: usize = self.find(stream);
        let req = Req { stream, kind, expect, status: 0, got: 0, mismatch: false };
        let ghost r = req@;
        if at < self.streams.len() {
            self.streams.set(at, req);
        } else {
            self.streams.push(req);
        }
        assert(self@.streams =~= conn::noted(before.streams, r));
        match kind {
            ReqKind::Rate => {
                self.in_flight += 1;
            },
            _ => {},
        }
        proof {
            let after = before.with_sent(kind, b, stream, off);
            assert(self@.streams =~= after.streams);
            assert(self@.pending =~= after.pending);
            assert(self@ =~= after);
        }
    }

    fn note_flush(&mut self, sent: bool, end: &FlushEnd, now: Nanos)
        ensures
            final(self)@ == (ConnView {
                dirty: false,
                last_active: if sent {
                    now
                } else {
                    old(self)@.last_active
                },
                socket_error: match end@ {
                    FlushView::SocketFailed(e) => Some("send: "@ + e),
                    FlushView::TransportFailed(e) => Some("quiche send: "@ + e),
                    _ => old(self)@.socket_error,
                },
                ..old(self)@
            }),
    {
        self.dirty = false;
        if sent {
            self.last_active = now;
        }
        match end {
            FlushEnd::SocketFailed(e) => {
                let mut text = "send: ".to_owned();
                text.append(e.as_str());
                self.socket_error = Some(text);
            },
            FlushEnd::TransportFailed(e) => {
                let mut text = "quiche send: ".to_owned();
                text.append(e.as_str());
                self.socket_error = Some(text);
            },
            _ => {},
        }
    }

    fn queue_front(&mut self, kind: ReqKind, body: Arc<Vec<u8>>)
        ensures
            final(self)@ == old(self)@.with_queued(
                seq![(conn::QueuedView { kind, body: body@ })] + old(self)@.queued,
            ),
    {
        let ghost before = self@;
        self.queued.push_front(Queued { kind, body });
        assert(self@.queued =~= seq![(conn::QueuedView { kind, body: body@ })] + before.queued);
    }
}

} // verus!
