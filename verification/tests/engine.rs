use http3bench::config::Address;
use http3bench::engine::conn::{close_reason, BodySent, CloseError, H3Event, RawHeader, ReqKind};
use http3bench::engine::gather::{latencies_fit, merge_counts, merge_latencies, Gather};
use http3bench::engine::limiter::Limiter;
use http3bench::engine::model::{Fired, Limits, Look, RateCounts};
use http3bench::engine::setup::{
    bind_address, new_quiche_config, request_headers, EngineConfig, OpenError,
};
use http3bench::engine::worker::{
    body_length, Act, Command, EchoJob, FlushEnd, Outcome, RateJob, Sent, Worker,
};
use http3bench::stats::Latencies;
use std::sync::Arc;
use std::time::Duration;

const SECOND: u128 = 1_000_000_000;

fn limits() -> Limits {
    Limits {
        dial_timeout: 5 * SECOND,
        dial_retries: 2,
        dial_retry_interval: SECOND / 10,
        keepalive: 30 * SECOND,
        check: true,
    }
}

fn status(code: &str) -> RawHeader {
    RawHeader { name: b":status".to_vec(), value: code.as_bytes().to_vec() }
}

/// A request that went out.
struct Out {
    idx: usize,
    stream: u64,
    kind: ReqKind,
    body: Arc<Vec<u8>>,
}

/// A worker, and servers that do what a test says.
struct Sim {
    w: Worker,
    now: u128,
    stream: u64,
    number: u64,
    streams_left: u64,
    limiter: Option<Limiter>,
    refuse: bool,
    unpolled: bool,
    opened: Vec<usize>,
    out: Vec<Out>,
}

impl Sim {
    fn new() -> Sim {
        Sim {
            w: Worker::new(limits(), 0),
            now: 0,
            stream: 0,
            number: 0,
            streams_left: 100,
            limiter: None,
            refuse: false,
            unpolled: false,
            opened: Vec::new(),
            out: Vec::new(),
        }
    }

    fn transmit(&mut self) {
        while let Some((idx, kind, body)) = self.w.outgoing() {
            let stream = self.stream;
            self.stream += 4;
            self.w.transmitted(Sent::Out { stream, off: body.len() }, self.now);
            self.out.push(Out { idx, stream, kind, body });
        }
    }

    fn open(&mut self) {
        if self.refuse {
            self.w.not_opened(&OpenError::Bind("no".to_string()), self.now);
        } else if self.unpolled {
            self.w.not_opened(&OpenError::Register("full".to_string()), self.now);
        } else {
            let slot = self.w.dial_slot();
            let idx = self.w.dial_opened(self.now);
            assert!(slot.is_none() || slot == Some(idx));
            self.opened.push(idx);
        }
    }

    fn drive(&mut self) -> Option<Outcome> {
        loop {
            match self.w.drive(self.now) {
                Act::Rest => return None,
                Act::Open => self.open(),
                Act::Transmit => self.transmit(),
                Act::Take(n) => match self.limiter.as_mut().unwrap().take(self.now, n) {
                    Ok(()) => self.w.tokens(None, self.now),
                    Err(wait) => self.w.tokens(Some(wait), self.now),
                },
                Act::Number => {
                    assert!(self.w.can_issue(self.number));
                    self.w.issue(self.number, self.now);
                    self.number += 1;
                }
                Act::Streams(_) => self.w.streams_left(self.streams_left),
                Act::Done(o) => return Some(o),
            }
        }
    }

    fn reports(&mut self, idx: usize) {
        while self.w.next_event(self.now) {
            self.transmit();
        }
        self.w.send_queued(idx, self.now);
        self.transmit();
    }

    fn handshake(&mut self, idx: usize) {
        assert!(matches!(self.w.begin(idx, None, true), Look::Setup));
        self.w.set_up(idx, None);
        self.w.read_out(idx, None);
        self.reports(idx);
    }

    fn answer(&mut self, o: &Out, code: &str, body: &[u8]) {
        assert!(matches!(self.w.begin(o.idx, None, true), Look::Poll));
        self.w.polled(o.idx, &H3Event::Headers { stream: o.stream, list: vec![status(code)] });
        for piece in body.chunks(3) {
            let ev = H3Event::Data { stream: o.stream, bytes: piece.to_vec() };
            assert!(self.w.can_count(o.idx, &ev));
            self.w.polled(o.idx, &ev);
        }
        self.w.polled(o.idx, &H3Event::Finished { stream: o.stream });
        self.w.read_out(o.idx, None);
        self.reports(o.idx);
    }

    fn close(&mut self, idx: usize, why: &str) {
        assert!(matches!(self.w.begin(idx, Some(why.to_string()), true), Look::Handle));
        self.reports(idx);
    }

    fn echo_all(&mut self) {
        for o in std::mem::take(&mut self.out) {
            let body = o.body.clone();
            self.answer(&o, "200", &body);
        }
    }

    fn dial(&mut self, count: usize) {
        self.w.start(Command::Dial { count, concurrency: count });
        assert!(self.drive().is_none());
        for idx in std::mem::take(&mut self.opened) {
            self.handshake(idx);
        }
        for o in std::mem::take(&mut self.out) {
            assert!(o.kind == ReqKind::Dial && o.body.is_empty());
            self.answer(&o, "200", b"");
        }
        match self.drive() {
            Some(Outcome::Dial(l)) => assert_eq!((l.success, l.failed), (count as i64, 0)),
            _ => panic!("not done"),
        }
        assert_eq!((self.w.ready(), self.w.connected() as usize), (count, count));
        assert!(self.w.is_idle());
    }
}

fn echo(times: u64, limited: bool) -> Arc<EchoJob> {
    let payloads = vec![Arc::new(b"hello world".to_vec()), Arc::new(b"echo".to_vec())];
    Arc::new(EchoJob { times, payloads, measure: true, limited })
}

fn rate(batch: usize) -> Arc<RateJob> {
    Arc::new(RateJob {
        duration: SECOND,
        batch,
        tick: SECOND / 10,
        payload: Arc::new(b"0123456789".to_vec()),
        limited: false,
    })
}

#[test]
fn dialing_keeps_to_its_concurrency() {
    let mut s = Sim::new();
    s.w.start(Command::Dial { count: 5, concurrency: 2 });
    let mut done = 0;
    loop {
        if let Some(o) = s.drive() {
            match o {
                Outcome::Dial(l) => assert_eq!((l.success, l.failed), (5, 0)),
                _ => panic!("not a dial"),
            }
            break;
        }
        let opened = std::mem::take(&mut s.opened);
        assert!(!opened.is_empty() && opened.len() <= 2);
        for idx in opened {
            s.handshake(idx);
            let o = s.out.pop().unwrap();
            s.now += 1_000;
            s.answer(&o, "200", b"");
            done += 1;
        }
    }
    assert_eq!((done, s.w.ready(), s.w.occupied()), (5, 5, vec![0, 1, 2, 3, 4]));
    assert!(s.w.is_taken(4) && !s.w.is_taken(5));
}

#[test]
fn a_dial_is_tried_again_and_then_fails() {
    let mut s = Sim::new();
    s.refuse = true;
    s.w.start(Command::Dial { count: 1, concurrency: 1 });
    assert!(s.drive().is_none());
    assert_eq!(s.w.next_wakeup(), SECOND / 10);
    assert!(!s.w.fire_retry(s.now));
    s.now = SECOND / 10;
    assert!(s.w.fire_retry(s.now));
    match s.drive() {
        Some(Outcome::Dial(l)) => {
            assert_eq!((l.success, l.failed, l.errors.count("bind: no")), (0, 1, 1));
        }
        _ => panic!("not done"),
    }
    assert_eq!(s.w.slot_count(), 0);
}

#[test]
fn a_dial_without_retries_is_made_once() {
    for dial_retries in [0, 1] {
        let mut s = Sim::new();
        s.w = Worker::new(Limits { dial_retries, ..limits() }, 0);
        s.refuse = true;
        s.w.start(Command::Dial { count: 3, concurrency: 2 });
        assert!(s.drive().is_none());
        assert!(s.drive().is_none());
        match s.drive() {
            Some(Outcome::Dial(l)) => assert_eq!((l.success, l.failed), (0, 3)),
            _ => panic!("not done"),
        }
        assert!(!s.w.fire_retry(SECOND));
    }
}

#[test]
fn a_first_answer_other_than_200_fails_the_dial() {
    let mut s = Sim::new();
    s.w.start(Command::Dial { count: 1, concurrency: 1 });
    for attempt in 0..2 {
        assert!(s.drive().is_none());
        let idx = s.opened.pop().unwrap();
        s.handshake(idx);
        let o = s.out.pop().unwrap();
        s.answer(&o, "503", b"");
        assert!(s.w.occupied().is_empty());
        s.now += SECOND / 10;
        assert_eq!(s.w.fire_retry(s.now), attempt == 0);
    }
    match s.drive() {
        Some(Outcome::Dial(l)) => assert_eq!(l.errors.count("status 503"), 1),
        _ => panic!("not done"),
    }
}

#[test]
fn a_handshake_times_out() {
    let mut s = Sim::new();
    s.w.start(Command::Dial { count: 1, concurrency: 1 });
    assert!(s.drive().is_none());
    assert!(!s.w.flushed(0, true, FlushEnd::Empty, Some(10 * SECOND), 0));
    assert_eq!(s.w.next_wakeup(), SECOND);
    s.w.keepalive(5 * SECOND);
    s.now = 5 * SECOND - 1;
    assert_eq!(s.w.timer_due(s.now), None);
    s.now = 5 * SECOND;
    assert_eq!(s.w.timer_due(s.now), Some(0));
    assert!(matches!(s.w.fire_timer(s.now, Some(10 * SECOND), false), Fired::GaveUp));
    assert!(s.w.occupied().is_empty());
    s.now += SECOND / 10;
    assert!(s.w.fire_retry(s.now));
    s.refuse = true;
    match s.drive() {
        Some(Outcome::Dial(l)) => assert_eq!((l.failed, l.errors.count("bind: no")), (1, 1)),
        _ => panic!("not done"),
    }
}

#[test]
fn round_trips_one_per_connection() {
    let mut s = Sim::new();
    s.dial(3);
    s.w.start(Command::Echo { job: echo(7, false), concurrency: 2 });
    let mut sent = 0;
    let outcome = loop {
        if let Some(o) = s.drive() {
            break o;
        }
        assert!(s.out.len() <= 2);
        let mut used: Vec<usize> = s.out.iter().map(|o| o.idx).collect();
        used.dedup();
        assert_eq!(used.len(), s.out.len());
        sent += s.out.len();
        s.now += 500;
        s.echo_all();
    };
    match outcome {
        Outcome::Echo(l) => {
            assert_eq!((sent, l.success, l.failed), (7, 7, 0));
            assert!(l.costs.iter().all(|&c| c == 500));
        }
        _ => panic!("not an echo"),
    }
    assert!(s.number > 7);
}

#[test]
fn the_workers_share_the_round_trips() {
    for measure in [true, false] {
        let job = |j: Arc<EchoJob>| Arc::new(EchoJob {
            times: j.times,
            payloads: j.payloads.clone(),
            measure,
            limited: false,
        });
        let mut sims = [Sim::new(), Sim::new(), Sim::new()];
        let mut left = sims.len();
        let (mut number, mut begun, mut ended) = (0, 0, 0);
        for (k, s) in sims.iter_mut().enumerate() {
            s.dial(k + 1);
            s.w.start(Command::Echo { job: job(echo(23, false)), concurrency: k });
        }
        while left > 0 {
            for s in sims.iter_mut().filter(|s| !s.w.is_idle()) {
                s.number = number;
                if let Some(Outcome::Echo(l)) = s.drive() {
                    left -= 1;
                    ended += l.success + l.failed;
                    assert!(measure || (l.costs.is_empty() && l.errors.is_empty()));
                }
                number = s.number;
                begun += s.out.len();
                s.echo_all();
            }
        }
        assert_eq!((begun, ended), (23, if measure { 23 } else { 0 }));
    }
}

#[test]
fn a_tick_counts_what_it_sends() {
    let mut s = Sim::new();
    s.dial(3);
    s.w.start(Command::Rate(rate(3)));
    assert!(s.drive().is_none());
    s.now += SECOND / 10;
    assert!(s.drive().is_none());
    let out = std::mem::take(&mut s.out);
    for idx in 0..3 {
        assert_eq!(out.iter().filter(|o| o.idx == idx).count(), 3);
    }
    s.close(1, "gone");
    assert!(matches!(s.w.begin(2, None, true), Look::Poll));
    s.w.polled(2, &H3Event::GoAway);
    s.w.read_out(2, None);
    s.now += SECOND / 10;
    assert!(s.drive().is_none());
    assert!(s.out.len() == 3 && s.out.iter().all(|o| o.idx == 0));
    s.streams_left = 2;
    s.now += SECOND / 10;
    assert!(s.drive().is_none());
    assert_eq!(s.out.len(), 3);
    s.now += SECOND;
    assert!(s.drive().is_none());
    s.now += SECOND / 10;
    match s.drive() {
        Some(Outcome::Rate(c)) => assert_eq!((c.send_times, c.send_bytes), (12, 120)),
        _ => panic!("not done"),
    }
}

#[test]
fn wrong_answers_are_failures() {
    let mut s = Sim::new();
    s.dial(1);
    s.w.start(Command::Echo { job: echo(4, false), concurrency: 1 });
    let answers: [(&str, &[u8]); 4] =
        [("200", b"hello worlD"), ("200", b"ech"), ("500", b""), ("200", b"echo")];
    for (code, body) in answers {
        assert!(s.drive().is_none());
        let o = s.out.pop().unwrap();
        s.answer(&o, code, body);
    }
    match s.drive() {
        Some(Outcome::Echo(l)) => {
            assert_eq!((l.success, l.failed), (1, 3));
            assert_eq!(l.errors.count("response body is not equal to the request's"), 1);
            assert_eq!(l.errors.count("response body is 3 bytes, want 4"), 1);
            assert_eq!(l.errors.count("status 500"), 1);
        }
        _ => panic!("not done"),
    }
}

#[test]
fn a_stream_carries_one_request() {
    let mut s = Sim::new();
    s.dial(1);
    s.w.start(Command::Rate(rate(2)));
    assert!(s.drive().is_none());
    s.now += SECOND / 10;
    assert!(s.drive().is_none());
    let out = std::mem::take(&mut s.out);
    assert_eq!(out.len(), 2);
    assert!(s.w.carries(0, out[0].stream) && s.w.carries(0, out[1].stream));
    assert!(!s.w.carries(0, out[1].stream + 4) && !s.w.carries(1, out[0].stream));
    s.answer(&out[0], "200", b"0123456789");
    assert!(!s.w.carries(0, out[0].stream) && s.w.carries(0, out[1].stream));
    // A request on a stream that carries another takes its place.
    s.stream = out[1].stream;
    s.now += SECOND / 10;
    assert!(s.drive().is_none());
    let again = std::mem::take(&mut s.out);
    assert_eq!(again[0].stream, out[1].stream);
    assert!(matches!(s.w.begin(0, None, true), Look::Poll));
    s.w.polled(0, &H3Event::Finished { stream: again[0].stream });
    assert!(!s.w.carries(0, again[0].stream) && s.w.carries(0, again[1].stream));
}

#[test]
fn a_reset_stream_is_a_failure() {
    let mut s = Sim::new();
    s.dial(1);
    s.w.start(Command::Echo { job: echo(1, false), concurrency: 1 });
    assert!(s.drive().is_none());
    let o = s.out.pop().unwrap();
    s.w.polled(o.idx, &H3Event::Reset { stream: o.stream, code: 0x10c });
    s.reports(o.idx);
    match s.drive() {
        Some(Outcome::Echo(l)) => assert_eq!(l.errors.count("stream reset: 0x10c"), 1),
        _ => panic!("not done"),
    }
}

#[test]
fn a_broken_connection_is_dialed_again() {
    let mut s = Sim::new();
    s.dial(1);
    s.w.start(Command::Echo { job: echo(2, false), concurrency: 1 });
    assert!(s.drive().is_none());
    s.out.clear();
    s.close(0, "idle timeout");
    assert_eq!(s.w.ready(), 0);
    assert!(s.drive().is_none());
    assert_eq!(s.opened, vec![0]);
    s.handshake(0);
    let o = s.out.pop().unwrap();
    s.answer(&o, "200", b"");
    assert_eq!(s.w.ready(), 1);
    s.echo_all();
    match s.drive() {
        Some(Outcome::Echo(l)) => {
            assert_eq!((l.success, l.failed), (1, 1));
            assert_eq!(l.errors.count("connection closed: idle timeout"), 1);
        }
        _ => panic!("not done"),
    }
    assert_eq!(s.w.connected(), 1);
}

#[test]
fn a_request_without_room_waits() {
    let mut s = Sim::new();
    s.dial(1);
    s.w.start(Command::Echo { job: echo(1, false), concurrency: 1 });
    assert!(matches!(s.w.drive(0), Act::Number));
    s.w.issue(0, 0);
    assert!(matches!(s.w.drive(0), Act::Transmit));
    s.w.transmitted(Sent::Blocked, 0);
    assert!(s.w.outgoing().is_none());
    s.w.send_queued(0, 0);
    let (idx, _, body) = s.w.outgoing().unwrap();
    assert_eq!((idx, body.as_slice()), (0, b"hello world".as_slice()));
    s.w.transmitted(Sent::Out { stream: 4, off: 5 }, 0);
    let (stream, rest, from) = s.w.waiting_body(0, 0).unwrap();
    assert_eq!((stream, &rest[from..]), (4, b" world".as_slice()));
    assert_eq!(s.w.body_sent(0, 0, BodySent::Sent(2)), 1);
    assert_eq!(s.w.body_sent(0, 0, BodySent::NoRoom), 1);
    assert_eq!(s.w.waiting_body(0, 0).unwrap().2, 7);
    assert_eq!(s.w.body_sent(0, 0, BodySent::Sent(4)), 0);
    assert!(s.w.waiting_body(0, 0).is_none());
    let o = Out { idx: 0, stream: 4, kind: ReqKind::Rate, body };
    s.answer(&o, "200", b"hello world");
    s.number = 1;
    assert!(matches!(s.drive(), Some(Outcome::Echo(l)) if l.success == 1));
}

#[test]
fn requests_that_cannot_be_sent_fail() {
    for (sent, want) in [
        (Sent::HeadersFailed("x".to_string()), "send request: x"),
        (Sent::BodyFailed("y".to_string()), "send body: y"),
    ] {
        let mut s = Sim::new();
        s.dial(1);
        s.w.start(Command::Echo { job: echo(1, false), concurrency: 1 });
        assert!(matches!(s.w.drive(0), Act::Number));
        s.w.issue(0, 0);
        s.w.transmitted(sent, 0);
        s.number = 1;
        match s.drive() {
            Some(Outcome::Echo(l)) => {
                assert_eq!((l.failed, l.errors.count(want)), (1, 1));
            }
            _ => panic!("not done"),
        }
    }
}

#[test]
fn a_limited_benchmark_waits_for_its_tokens() {
    let mut s = Sim::new();
    s.dial(2);
    s.limiter = Some(Limiter::new(1, 0));
    s.w.start(Command::Echo { job: echo(2, true), concurrency: 2 });
    assert!(s.drive().is_none());
    assert_eq!(s.out.len(), 1);
    s.w.keepalive(SECOND / 2);
    assert_eq!(s.w.next_wakeup(), SECOND / 2 + SECOND / 2);
    s.now = SECOND - 1;
    assert!(s.drive().is_none());
    assert_eq!(s.out.len(), 1);
    s.now = SECOND;
    assert!(s.drive().is_none());
    assert_eq!(s.out.len(), 2);
    s.echo_all();
    s.now = 2 * SECOND;
    assert!(matches!(s.drive(), Some(Outcome::Echo(l)) if l.success == 2));
}

#[test]
fn four_batches_wait_at_most() {
    let mut s = Sim::new();
    s.dial(2);
    s.w.start(Command::Rate(rate(3)));
    assert!(s.drive().is_none());
    for tick in 1..=6u128 {
        s.now = tick * SECOND / 10;
        assert!(s.drive().is_none());
        assert_eq!(s.out.len() as u128, 2 * 3 * tick.min(4));
    }
    s.echo_all();
    s.now = 7 * SECOND / 10;
    assert!(s.drive().is_none());
    assert_eq!(s.out.len(), 6);
    s.echo_all();
    s.now = SECOND;
    assert!(s.drive().is_none());
    match s.drive() {
        Some(Outcome::Rate(c)) => {
            assert_eq!((c.send_times, c.send_bytes), (30, 300));
            assert_eq!((c.recv_times, c.recv_bytes, c.answered), (30, 300, 30));
        }
        _ => panic!("not done"),
    }
}

#[test]
fn a_connection_without_streams_is_left_out_of_a_tick() {
    let mut s = Sim::new();
    s.dial(1);
    s.streams_left = 2;
    s.w.start(Command::Rate(rate(3)));
    assert!(s.drive().is_none());
    s.now = SECOND / 10;
    assert!(s.drive().is_none());
    assert!(s.out.is_empty());
    s.streams_left = 3;
    s.now = SECOND / 5;
    assert!(s.drive().is_none());
    assert_eq!(s.out.len(), 3);
    s.out.truncate(2);
    s.echo_all();
    s.now = SECOND;
    assert!(s.drive().is_none());
    s.now = SECOND + SECOND / 10 - 1;
    assert!(s.drive().is_none());
    s.now = SECOND + SECOND / 10;
    match s.drive() {
        Some(Outcome::Rate(c)) => assert_eq!((c.send_times, c.recv_times, c.answered), (3, 2, 2)),
        _ => panic!("not done"),
    }
}

#[test]
fn a_redial_that_fails_is_left_out() {
    let mut s = Sim::new();
    s.dial(2);
    s.close(0, "closed");
    s.refuse = true;
    s.w.start(Command::Rate(rate(1)));
    assert!(s.drive().is_none());
    s.now = SECOND / 10;
    assert!(s.w.fire_retry(s.now));
    assert!(s.drive().is_none());
    assert_eq!(s.w.take_notes(), vec!["bind: no".to_string()]);
    s.now = SECOND / 5;
    assert!(s.drive().is_none());
    s.now = 3 * SECOND / 10;
    assert!(s.drive().is_none());
    assert!(!s.out.is_empty() && s.out.iter().all(|o| o.idx == 1));
}

#[test]
fn a_redial_given_up_before_all_were_made_is_not_counted_off() {
    for dial_retries in [0, 1] {
        let mut s = Sim::new();
        s.w = Worker::new(Limits { dial_retries, ..limits() }, 0);
        s.dial(2);
        s.close(0, "closed");
        s.refuse = true;
        s.w.start(Command::Rate(rate(1)));
        for k in 0..40 {
            s.now = k * SECOND / 10;
            assert!(s.drive().is_none());
            assert!(!s.w.fire_retry(s.now));
        }
        assert_eq!(s.w.take_notes(), vec!["bind: no".to_string()]);
        assert!(s.out.is_empty() && !s.w.is_idle());
    }
}

#[test]
fn a_redial_given_up_once_all_were_made_is_counted_off() {
    let mut s = Sim::new();
    s.w = Worker::new(Limits { dial_retries: 1, ..limits() }, 0);
    s.dial(2);
    s.close(0, "closed");
    s.w.start(Command::Rate(rate(1)));
    assert!(s.drive().is_none());
    assert_eq!(s.opened, vec![0]);
    s.close(0, "gone");
    assert_eq!(s.w.take_notes(), vec!["gone".to_string()]);
    assert!(s.drive().is_none());
    s.now = SECOND / 10;
    assert!(s.drive().is_none());
    assert!(!s.out.is_empty() && s.out.iter().all(|o| o.idx == 1));
}

#[test]
fn a_connection_that_cannot_be_polled_costs_a_slot() {
    let mut s = Sim::new();
    s.unpolled = true;
    s.w.start(Command::Dial { count: 1, concurrency: 1 });
    assert!(s.drive().is_none());
    assert_eq!((s.w.slot_count(), s.w.is_taken(0)), (1, false));
    s.now = SECOND / 10;
    s.unpolled = false;
    assert!(s.w.fire_retry(s.now));
    assert!(s.drive().is_none());
    assert_eq!(s.opened, vec![1]);
    // A slot that was given back is taken first, and is as lost.
    s.close(1, "gone");
    s.opened.clear();
    match s.drive() {
        Some(Outcome::Dial(l)) => assert_eq!((l.success, l.failed), (0, 1)),
        _ => panic!("not done"),
    }
    s.unpolled = true;
    s.w.start(Command::Dial { count: 1, concurrency: 1 });
    assert!(s.drive().is_none());
    assert_eq!(s.w.slot_count(), 2);
    s.now = SECOND / 5;
    s.unpolled = false;
    assert!(s.w.fire_retry(s.now));
    assert!(s.drive().is_none());
    assert_eq!((s.opened.clone(), s.w.slot_count()), (vec![2], 3));
}

#[test]
fn a_connection_that_cannot_be_opened_costs_no_slot() {
    let mut s = Sim::new();
    s.dial(2);
    s.close(0, "closed");
    s.refuse = true;
    s.w.start(Command::Dial { count: 1, concurrency: 1 });
    assert!(s.drive().is_none());
    assert_eq!((s.w.slot_count(), s.w.is_taken(0), s.w.is_taken(1)), (2, true, true));
}

#[test]
fn a_redial_that_cannot_be_polled_empties_its_slot() {
    let mut s = Sim::new();
    s.w = Worker::new(Limits { dial_retries: 1, ..limits() }, 0);
    s.dial(2);
    s.close(0, "closed");
    assert!(s.w.is_taken(0));
    s.unpolled = true;
    s.w.start(Command::Echo { job: echo(5, false), concurrency: 2 });
    let mut n = 0;
    loop {
        match s.w.drive(s.now) {
            Act::Open => s.open(),
            Act::Transmit => s.transmit(),
            Act::Number => {
                if !s.w.can_issue(n) {
                    break;
                }
                s.w.issue(n, s.now);
                n += 1;
            }
            _ => panic!("unexpected"),
        }
    }
    // The third round trip would go to the slot that was lost.
    assert_eq!((n, s.w.is_taken(0), s.w.is_taken(1)), (2, false, true));
    assert!(s.w.can_issue(5));
    s.w.issue(5, s.now);
    s.echo_all();
    match s.drive() {
        Some(Outcome::Echo(l)) => {
            assert_eq!((l.success, l.failed), (1, 1));
            assert_eq!(l.errors.count("redial: register: full"), 1);
        }
        _ => panic!("not done"),
    }
}

#[test]
fn a_redial_is_made_again_into_the_slot_it_emptied() {
    let mut s = Sim::new();
    s.dial(1);
    s.close(0, "closed");
    s.unpolled = true;
    s.w.start(Command::Echo { job: echo(1, false), concurrency: 1 });
    assert!(s.drive().is_none());
    assert!(!s.w.is_taken(0));
    s.unpolled = false;
    s.now = SECOND / 10;
    assert!(s.w.fire_retry(s.now));
    assert!(s.drive().is_none());
    assert_eq!((s.opened.clone(), s.w.is_taken(0)), (vec![0], true));
}

#[test]
fn quiet_connections_are_pinged() {
    let mut s = Sim::new();
    s.dial(2);
    assert!(s.w.keepalive(SECOND - 1).is_empty());
    assert!(s.w.keepalive(SECOND).is_empty());
    s.w.received(1, true, None, 20 * SECOND);
    assert_eq!(s.w.keepalive(30 * SECOND), vec![0]);
    assert!(s.w.keepalive(30 * SECOND + 1).is_empty());
    assert_eq!(s.w.keepalive(50 * SECOND), vec![0, 1]);
    assert!(s.w.next_dirty().is_some());
}

#[test]
fn a_full_buffer_drops_and_a_failed_socket_closes() {
    let mut s = Sim::new();
    s.dial(1);
    assert!(!s.w.flushed(0, true, FlushEnd::Full, None, 1));
    assert_eq!(s.w.dropped(), 1);
    assert!(s.w.flushed(0, false, FlushEnd::SocketFailed("x".to_string()), None, 1));
    assert!(matches!(s.w.begin(0, None, true), Look::Close));
    s.reports(0);
    assert_eq!(s.w.ready(), 0);
    assert!(matches!(s.w.begin(9, None, true), Look::Rest));
}

#[test]
fn a_limiter_lets_its_rate_through() {
    let mut l = Limiter::new(10, 0);
    for _ in 0..10 {
        assert_eq!(l.take(0, 1), Ok(()));
    }
    assert_eq!(l.take(0, 1), Err(SECOND / 10));
    assert_eq!(l.take(SECOND / 10 - 1, 1), Err(1));
    assert_eq!(l.take(SECOND / 10, 1), Ok(()));
    assert_eq!(l.take(100 * SECOND, 10), Ok(()));
    assert_eq!(l.take(100 * SECOND, 20), Err(2 * SECOND));
    assert_eq!(l.take(102 * SECOND, 20), Ok(()));
    let mut l = Limiter::new(3, 0);
    assert_eq!(l.take(0, 3), Ok(()));
    assert_eq!(l.take(0, 1), Err(333_333_334));
    assert_eq!(l.take(333_333_334, 1), Ok(()));
}

#[test]
fn outcomes_are_gathered_in_order() {
    let lat = |n: u64| {
        let mut l = Latencies::default();
        l.ok(Duration::from_nanos(n));
        l
    };
    let mut g = Gather::new(2);
    assert!(!g.is_done());
    g.put(1, Outcome::Echo(lat(2)));
    assert!(g.has(1) && !g.has(0) && !g.has(2) && !g.is_done());
    g.put(0, Outcome::Echo(lat(1)));
    assert!(g.is_done());
    let all = g.into_outcomes();
    assert!(latencies_fit(&all));
    let l = merge_latencies(all);
    assert_eq!((l.costs, l.success), (vec![1, 2], 2));

    let c = RateCounts { send_times: 1, send_bytes: 2, recv_times: 3, recv_bytes: 4, answered: 5 };
    let mut g = Gather::new(2);
    g.put(0, Outcome::Rate(c));
    g.put(1, Outcome::Rate(c));
    let n = merge_counts(&g.into_outcomes()).unwrap();
    assert_eq!((n.send_times, n.send_bytes, n.recv_times, n.recv_bytes), (2, 4, 6, 8));
    let big = RateCounts { send_times: u64::MAX, ..c };
    assert!(merge_counts(&vec![Some(Outcome::Rate(big)), Some(Outcome::Rate(c))]).is_none());
}

#[test]
fn close_reasons() {
    let e = |code: u64, reason: &[u8]| Some(CloseError { code, reason: reason.to_vec() });
    assert_eq!(close_reason(true, &e(1, b"x"), &None), "idle timeout");
    assert_eq!(close_reason(false, &e(0x10c, b"bye"), &e(1, b"")), "closed by the server: code 0x10c bye");
    assert_eq!(close_reason(false, &None, &e(0x101, b"h\xff")), "closed here: code 0x101 h\u{fffd}");
    assert_eq!(close_reason(false, &None, &None), "closed");
}

#[test]
fn how_a_client_is_set_up() {
    let mut cfg = EngineConfig {
        addrs: (1..=3).map(|p| Address { ip: "::1".to_string(), port: p }).collect(),
        authority: "host".to_string(),
        dial_timeout: Duration::from_secs(5),
        dial_retries: 4,
        dial_retry_interval: Duration::from_millis(100),
        idle_timeout: Duration::from_secs(120),
        check: true,
    };
    let l = cfg.limits();
    assert_eq!((l.dial_timeout, l.dial_retries, l.dial_retry_interval), (5 * SECOND, 4, SECOND / 10));
    assert_eq!((l.keepalive, l.check), (30 * SECOND, true));
    cfg.idle_timeout = Duration::from_millis(10);
    assert_eq!(cfg.limits().keepalive, SECOND);
    let order: Vec<u16> = (0..7).map(|n| cfg.address(n).port).collect();
    for n in 0..20 {
        let to = |a: &Address| (0..n).filter(|k| cfg.address(*k).port == a.port).count();
        let counts: Vec<usize> = cfg.addrs.iter().map(to).collect();
        assert!(counts.iter().max().unwrap() - counts.iter().min().unwrap() <= 1);
    }
    assert_eq!(order, vec![1, 2, 3, 1, 2, 3, 1]);
    assert_eq!(cfg.server_name(false).unwrap(), "host");
    assert!(cfg.server_name(true).is_none());
    cfg.authority = "[::1]".to_string();
    assert!(cfg.server_name(false).is_none());

    let pairs = |len| -> Vec<(String, String)> {
        request_headers("POST", "a", len).into_iter().map(|h| (h.name, h.value)).collect()
    };
    let get = pairs(None);
    assert_eq!(get.len(), 4);
    assert_eq!(get[3], (":path".to_string(), "/echo".to_string()));
    let post = pairs(Some(1024));
    assert_eq!(post.len(), 6);
    assert_eq!(post[5], ("content-length".to_string(), "1024".to_string()));

    let t = new_quiche_config(Duration::from_secs(120));
    assert_eq!((t.max_idle_millis, t.initial_max_streams_bidi, t.verify_peer), (120_000, 16, false));
    assert_eq!((bind_address(true), bind_address(false)), ("0.0.0.0:0", "[::]:0"));
    let x = || "x".to_string();
    assert_eq!(OpenError::Bind(x()).text(), "bind: x");
    assert_eq!(OpenError::Connect { peer: "p".to_string(), error: x() }.text(), "connect p: x");
    assert_eq!(OpenError::Local(x()).text(), "x");
    assert_eq!(OpenError::Transport(x()).text(), "quiche connect: x");
    assert_eq!(OpenError::Register(x()).text(), "register: x");
    assert_eq!(body_length(&Command::Echo { job: echo(1, false), concurrency: 1 }), Some(11));
    assert_eq!(body_length(&Command::Rate(rate(1))), Some(10));
    assert_eq!(body_length(&Command::Stop), None);
}
