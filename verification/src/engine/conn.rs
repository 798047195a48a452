//! One connection of a worker, and what its HTTP/3 side says of its requests.

use std::collections::VecDeque;
use std::sync::Arc;
use vstd::prelude::*;

use crate::text::{hex_text, latin_string, parse_u16, same, u64_text, usize_text};

verus! {

/// A moment, in nanoseconds since the worker began.
pub type Nanos = u128;

#[derive(Clone, Copy, PartialEq, Eq, Structural)]
pub enum State {
    /// Handshaking, or waiting for the answer to its first request.
    Connecting,
    Ready,
    /// Closed or failed; it is dialed again before it is used again.
    Broken,
}

#[derive(Clone, Copy, PartialEq, Eq, Structural)]
pub enum Purpose {
    /// A connection of the Connections benchmark.
    New,
    /// A broken connection dialed again for a BenchEcho round trip that
    /// started at start.
    RedialEcho { start: Nanos },
    /// A broken connection dialed again before BenchMultiplex starts.
    RedialRate,
}

#[derive(Clone, Copy)]
pub struct DialJob {
    pub start: Nanos,
    pub attempt: usize,
    pub purpose: Purpose,
    /// The slot the connection is dialed into again, for a redial.
    pub slot: Option<usize>,
}

#[derive(Clone, Copy, PartialEq, Eq, Structural)]
pub enum ReqKind {
    Dial,
    Echo { start: Nanos },
    Rate,
}

/// A request that is out on a stream.
pub struct Req {
    pub stream: u64,
    pub kind: ReqKind,
    pub expect: Arc<Vec<u8>>,
    pub status: u16,
    pub got: usize,
    pub mismatch: bool,
}

pub struct ReqView {
    pub stream: u64,
    pub kind: ReqKind,
    pub expect: Seq<u8>,
    pub status: u16,
    pub got: usize,
    pub mismatch: bool,
}

impl View for Req {
    type V = ReqView;

    open spec fn view(&self) -> ReqView {
        ReqView {
            stream: self.stream,
            kind: self.kind,
            expect: self.expect@,
            status: self.status,
            got: self.got,
            mismatch: self.mismatch,
        }
    }
}

/// What of a request's body did not fit in the stream's window.
pub struct PendingBody {
    pub stream: u64,
    pub body: Arc<Vec<u8>>,
    pub off: usize,
}

pub struct PendingView {
    pub stream: u64,
    pub body: Seq<u8>,
    pub off: usize,
}

impl View for PendingBody {
    type V = PendingView;

    open spec fn view(&self) -> PendingView {
        PendingView { stream: self.stream, body: self.body@, off: self.off }
    }
}

/// A request that the connection had no room for yet.
pub struct Queued {
    pub kind: ReqKind,
    pub body: Arc<Vec<u8>>,
}

pub struct QueuedView {
    pub kind: ReqKind,
    pub body: Seq<u8>,
}

impl View for Queued {
    type V = QueuedView;

    open spec fn view(&self) -> QueuedView {
        QueuedView { kind: self.kind, body: self.body@ }
    }
}

pub struct Conn {
    pub state: State,
    /// Whether its HTTP/3 side is set up.
    pub h3: bool,
    pub dial: Option<DialJob>,
    pub attempt_deadline: Option<Nanos>,
    pub streams: Vec<Req>,
    pub pending: Vec<PendingBody>,
    pub queued: VecDeque<Queued>,
    pub deadline: Option<Nanos>,
    pub scheduled: Option<Nanos>,
    pub last_active: Nanos,
    pub dirty: bool,
    pub in_flight: u64,
    pub goaway: bool,
    /// A send or receive failed at the socket, which on a connected UDP
    /// socket means the port answered with ICMP unreachable.
    pub socket_error: Option<String>,
}

#[verifier::ext_equal]
pub struct ConnView {
    pub state: State,
    pub h3: bool,
    pub dial: Option<DialJob>,
    pub attempt_deadline: Option<Nanos>,
    pub streams: Seq<ReqView>,
    pub pending: Seq<PendingView>,
    pub queued: Seq<QueuedView>,
    pub deadline: Option<Nanos>,
    pub scheduled: Option<Nanos>,
    pub last_active: Nanos,
    pub dirty: bool,
    pub in_flight: u64,
    pub goaway: bool,
    pub socket_error: Option<Seq<char>>,
}

pub open spec fn text_view(s: Option<String>) -> Option<Seq<char>> {
    match s {
        Some(t) => Some(t@),
        None => None,
    }
}

impl View for Conn {
    type V = ConnView;

    open spec fn view(&self) -> ConnView {
        ConnView {
            state: self.state,
            h3: self.h3,
            dial: self.dial,
            attempt_deadline: self.attempt_deadline,
            streams: self.streams@.map_values(|r: Req| r@),
            pending: self.pending@.map_values(|p: PendingBody| p@),
            queued: self.queued@.map_values(|q: Queued| q@),
            deadline: self.deadline,
            scheduled: self.scheduled,
            last_active: self.last_active,
            dirty: self.dirty,
            in_flight: self.in_flight,
            goaway: self.goaway,
            socket_error: text_view(self.socket_error),
        }
    }
}

/// What a connection has for the worker to act on.
pub enum ConnEvent {
    Established,
    Response { kind: ReqKind, result: Result<usize, String> },
    Closed(String),
}

pub enum EventView {
    Established,
    Response { kind: ReqKind, result: Result<usize, Seq<char>> },
    Closed(Seq<char>),
}

pub open spec fn result_view(r: Result<usize, String>) -> Result<usize, Seq<char>> {
    match r {
        Ok(n) => Ok(n),
        Err(e) => Err(e@),
    }
}

impl View for ConnEvent {
    type V = EventView;

    open spec fn view(&self) -> EventView {
        match *self {
            ConnEvent::Established => EventView::Established,
            ConnEvent::Response { kind, result } => EventView::Response {
                kind,
                result: result_view(result),
            },
            ConnEvent::Closed(reason) => EventView::Closed(reason@),
        }
    }
}

/// Reports of the connections in slots.
pub open spec fn report_views(s: Seq<(usize, ConnEvent)>) -> Seq<(usize, EventView)> {
    s.map_values(|e: (usize, ConnEvent)| (e.0, e.1@))
}

/// Reports of the connection in one slot.
pub open spec fn tagged(idx: usize, s: Seq<EventView>) -> Seq<(usize, EventView)> {
    s.map_values(|e: EventView| (idx, e))
}

pub open spec fn event_view(e: Option<ConnEvent>) -> Option<EventView> {
    match e {
        Some(x) => Some(x@),
        None => None,
    }
}

// ---------------------------------------------------------------------------
// A connection that has just been opened.

impl ConnView {
    pub open spec fn fresh(job: DialJob, now: Nanos, give_up: Nanos) -> ConnView {
        ConnView {
            state: State::Connecting,
            h3: false,
            dial: Some(job),
            attempt_deadline: Some(give_up),
            streams: Seq::empty(),
            pending: Seq::empty(),
            queued: Seq::empty(),
            deadline: None,
            scheduled: None,
            last_active: now,
            dirty: false,
            in_flight: 0,
            goaway: false,
            socket_error: None,
        }
    }
}

impl Conn {
    /// A connection that handshakes for `job` and is given up at `give_up`.
    pub fn fresh(job: DialJob, now: Nanos, give_up: Nanos) -> (c: Self)
        ensures
            c@ == ConnView::fresh(job, now, give_up),
    {
        let c = Conn {
            state: State::Connecting,
            h3: false,
            dial: Some(job),
            attempt_deadline: Some(give_up),
            streams: Vec::new(),
            pending: Vec::new(),
            queued: VecDeque::new(),
            deadline: None,
            scheduled: None,
            last_active: now,
            dirty: false,
            in_flight: 0,
            goaway: false,
            socket_error: None,
        };
        assert(c@ =~= ConnView::fresh(job, now, give_up));
        c
    }
}

// ---------------------------------------------------------------------------
// Its requests.

/// Where the request on a stream stands among `s`, or how many there are.
pub open spec fn place_of(s: Seq<ReqView>, stream: u64) -> nat
    decreases s.len(),
{
    if s.len() == 0 || s[0].stream == stream {
        0
    } else {
        1 + place_of(s.skip(1), stream)
    }
}

proof fn lemma_place_is(s: Seq<ReqView>, stream: u64, k: int)
    requires
        0 <= k <= s.len(),
        k < s.len() ==> s[k].stream == stream,
        forall|i: int| 0 <= i < k ==> (#[trigger] s[i]).stream != stream,
    ensures
        place_of(s, stream) == k,
    decreases s.len(),
{
    if s.len() > 0 && k > 0 {
        assert(s[0].stream != stream);
        assert forall|i: int| 0 <= i < k - 1 implies (#[trigger] s.skip(1)[i]).stream != stream by {
            assert(s[i + 1].stream != stream);
        }
        lemma_place_is(s.skip(1), stream, k - 1);
    }
}

pub proof fn lemma_place(s: Seq<ReqView>, stream: u64)
    ensures
        place_of(s, stream) <= s.len(),
        place_of(s, stream) < s.len() ==> s[place_of(s, stream) as int].stream == stream,
        forall|i: int| 0 <= i < place_of(s, stream) ==> (#[trigger] s[i]).stream != stream,
    decreases s.len(),
{
    if s.len() > 0 && s[0].stream != stream {
        lemma_place(s.skip(1), stream);
        assert forall|i: int| 0 <= i < place_of(s, stream) implies (#[trigger] s[i]).stream
            != stream by {
            if i > 0 {
                assert(s.skip(1)[i - 1].stream != stream);
            }
        }
    }
}

/// Whether no stream carries two requests.
pub open spec fn tracks_once(s: Seq<ReqView>) -> bool {
    forall|i: int, j: int| 0 <= i < j < s.len() ==> (#[trigger] s[i]).stream != (#[trigger] s[j]).stream
}

/// The requests with one more, or with that one in the place of the one that its
/// stream carried.
pub open spec fn noted(s: Seq<ReqView>, r: ReqView) -> Seq<ReqView> {
    if place_of(s, r.stream) < s.len() {
        s.update(place_of(s, r.stream) as int, r)
    } else {
        s.push(r)
    }
}

pub proof fn lemma_noted(s: Seq<ReqView>, r: ReqView)
    requires
        tracks_once(s),
    ensures
        tracks_once(noted(s, r)),
{
    lemma_place(s, r.stream);
}

/// Without the request on a stream, the stream carries none.
pub proof fn lemma_forgotten(s: Seq<ReqView>, stream: u64)
    requires
        tracks_once(s),
        place_of(s, stream) < s.len(),
    ensures
        tracks_once(s.remove(place_of(s, stream) as int)),
        place_of(s.remove(place_of(s, stream) as int), stream) == s.len() - 1,
{
    lemma_place(s, stream);
    let p = place_of(s, stream) as int;
    let rest = s.remove(p);
    assert forall|i: int| 0 <= i < rest.len() implies (#[trigger] rest[i]).stream != stream by {
        if i < p {
            assert(rest[i] == s[i]);
        } else {
            assert(rest[i] == s[i + 1]);
            assert(s[p].stream == stream);
        }
    }
    lemma_place_is(rest, stream, rest.len() as int);
}

pub open spec fn closed_error(reason: Seq<char>) -> Seq<char> {
    "connection closed: "@ + reason
}

pub open spec fn failed_response(kind: ReqKind, e: Seq<char>) -> EventView {
    EventView::Response { kind, result: Err(e) }
}

impl ConnView {
    pub open spec fn has(self, stream: u64) -> bool {
        place_of(self.streams, stream) < self.streams.len()
    }

    pub open spec fn req(self, stream: u64) -> ReqView {
        self.streams[place_of(self.streams, stream) as int]
    }

    pub open spec fn with_req(self, stream: u64, r: ReqView) -> ConnView {
        ConnView {
            streams: self.streams.update(place_of(self.streams, stream) as int, r),
            ..self
        }
    }

    pub open spec fn without_req(self, stream: u64) -> ConnView {
        ConnView { streams: self.streams.remove(place_of(self.streams, stream) as int), ..self }
    }

    /// Every request fails with the connection: those queued, then those out.
    pub open spec fn failures(self, reason: Seq<char>) -> Seq<EventView> {
        self.queued.map_values(|q: QueuedView| failed_response(q.kind, closed_error(reason)))
            + self.streams.map_values(|r: ReqView| failed_response(r.kind, closed_error(reason)))
    }

    pub open spec fn cleared(self) -> ConnView {
        ConnView {
            streams: Seq::empty(),
            pending: Seq::empty(),
            queued: Seq::empty(),
            ..self
        }
    }
}

impl Conn {
    /// Where the request on a stream stands, or how many there are if it carries
    /// none.
    pub(crate) fn find(&self, stream: u64) -> (k: usize)
        ensures
            k == place_of(self@.streams, stream),
            k <= self.streams@.len(),
    {
        let mut k: usize = 0;
        while k < self.streams.len()
            invariant
                k <= self.streams@.len(),
                forall|i: int| 0 <= i < k ==> (#[trigger] self@.streams[i]).stream != stream,
            decreases self.streams@.len() - k,
        {
            if self.streams[k].stream == stream {
                assert(self@.streams[k as int].stream == stream);
                proof {
                    lemma_place_is(self@.streams, stream, k as int);
                }
                return k;
            }
            assert(self@.streams[k as int].stream != stream);
            k += 1;
        }
        proof {
            lemma_place_is(self@.streams, stream, k as int);
        }
        k
    }

    pub fn clear(&mut self)
        ensures
            final(self)@ == old(self)@.cleared(),
    {
        self.streams = Vec::new();
        self.pending = Vec::new();
        self.queued = VecDeque::new();
        assert(self@ =~= old(self)@.cleared());
    }

    /// Takes every request off the connection and reports that it failed.
    pub fn fail_streams(&mut self, reason: &str, idx: usize, events: &mut VecDeque<(usize, ConnEvent)>)
        ensures
            final(self)@ == old(self)@.cleared(),
            report_views(final(events)@) == report_views(old(events)@) + tagged(
                idx,
                old(self)@.failures(reason@),
            ),
    {
        let ghost want = tagged(idx, self@.failures(reason@));
        let ghost start = report_views(events@);
        let mut error = "connection closed: ".to_owned();
        error.append(reason);
        let mut i: usize = 0;
        assert(start + want.take(0) =~= start);
        while i < self.queued.len()
            invariant
                i <= self.queued@.len(),
                *self == *old(self),
                error@ == closed_error(reason@),
                want == tagged(idx, self@.failures(reason@)),
                report_views(events@) == start + want.take(i as int),
            decreases self.queued@.len() - i,
        {
            let ghost before = events@;
            let kind: ReqKind = self.queued[i].kind;
            events.push_back(
                (idx, ConnEvent::Response { kind, result: Err(error.as_str().to_owned()) }),
            );
            proof {
                assert(self@.queued[i as int].kind == kind);
                assert(events@.last().1@ == want[i as int].1);
                assert(report_views(events@) =~= report_views(before).push(want[i as int]));
                assert(want.take(i + 1) =~= want.take(i as int).push(want[i as int]));
                assert(report_views(events@) =~= start + want.take(i + 1));
            }
            i += 1;
        }
        let ghost q = self.queued@.len();
        let mut i: usize = 0;
        while i < self.streams.len()
            invariant
                i <= self.streams@.len(),
                *self == *old(self),
                q == self.queued@.len(),
                error@ == closed_error(reason@),
                want == tagged(idx, self@.failures(reason@)),
                report_views(events@) == start + want.take((q + i) as int),
            decreases self.streams@.len() - i,
        {
            let ghost before = events@;
            let kind: ReqKind = self.streams[i].kind;
            events.push_back(
                (idx, ConnEvent::Response { kind, result: Err(error.as_str().to_owned()) }),
            );
            proof {
                let n = q + i;
                assert(self@.streams[i as int].kind == kind);
                assert(events@.last().1@ == want[n].1);
                assert(report_views(events@) =~= report_views(before).push(want[n]));
                assert(want.take(n + 1) =~= want.take(n).push(want[n]));
                assert(report_views(events@) =~= start + want.take(n + 1));
            }
            i += 1;
        }
        assert(want.take((q + i) as int) =~= want);
        self.clear();
    }
}

// ---------------------------------------------------------------------------
// What the HTTP/3 side reports.

pub struct RawHeader {
    pub name: Vec<u8>,
    pub value: Vec<u8>,
}

pub struct RawHeaderView {
    pub name: Seq<u8>,
    pub value: Seq<u8>,
}

impl View for RawHeader {
    type V = RawHeaderView;

    open spec fn view(&self) -> RawHeaderView {
        RawHeaderView { name: self.name@, value: self.value@ }
    }
}

pub enum H3Event {
    Headers { stream: u64, list: Vec<RawHeader> },
    /// A piece of a response's body.
    Data { stream: u64, bytes: Vec<u8> },
    Finished { stream: u64 },
    Reset { stream: u64, code: u64 },
    GoAway,
    PriorityUpdate,
}

pub enum H3View {
    Headers { stream: u64, list: Seq<RawHeaderView> },
    Data { stream: u64, bytes: Seq<u8> },
    Finished { stream: u64 },
    Reset { stream: u64, code: u64 },
    GoAway,
    PriorityUpdate,
}

impl View for H3Event {
    type V = H3View;

    open spec fn view(&self) -> H3View {
        match *self {
            H3Event::Headers { stream, list } => H3View::Headers {
                stream,
                list: list@.map_values(|h: RawHeader| h@),
            },
            H3Event::Data { stream, bytes } => H3View::Data { stream, bytes: bytes@ },
            H3Event::Finished { stream } => H3View::Finished { stream },
            H3Event::Reset { stream, code } => H3View::Reset { stream, code },
            H3Event::GoAway => H3View::GoAway,
            H3Event::PriorityUpdate => H3View::PriorityUpdate,
        }
    }
}

/// A status by its digits, or 0 where it is none.
pub open spec fn status_value(value: Seq<u8>) -> u16 {
    match crate::text::unsigned_number(crate::text::latin(value), u16::MAX as nat) {
        Some(n) => n as u16,
        None => 0,
    }
}

/// A request's status once the headers are in: the last one they give, or
/// what it was before.
pub open spec fn status_after(list: Seq<RawHeaderView>, before: u16) -> u16
    decreases list.len(),
{
    if list.len() == 0 {
        before
    } else if crate::text::latin(list.last().name) == ":status"@ {
        status_value(list.last().value)
    } else {
        status_after(list.drop_last(), before)
    }
}

fn read_status(list: &Vec<RawHeader>, before: u16) -> (r: u16)
    ensures
        r == status_after(list@.map_values(|h: RawHeader| h@), before),
{
    let ghost all = list@.map_values(|h: RawHeader| h@);
    let mut r: u16 = before;
    let mut i: usize = 0;
    while i < list.len()
        invariant
            i <= list@.len(),
            all == list@.map_values(|h: RawHeader| h@),
            r == status_after(all.take(i as int), before),
        decreases list@.len() - i,
    {
        assert(all.take(i + 1).drop_last() =~= all.take(i as int));
        assert(all.take(i + 1).last() == list@[i as int]@);
        if same(latin_string(list[i].name.as_slice()).as_str(), ":status") {
            r = match parse_u16(latin_string(list[i].value.as_slice()).as_str()) {
                Some(n) => n,
                None => 0,
            };
        }
        i += 1;
    }
    assert(all.take(i as int) =~= all);
    r
}

impl ReqView {
    /// Takes in a piece of the response's body; with `check`, holds it against
    /// what was sent.
    pub open spec fn take_in(self, bytes: Seq<u8>, check: bool) -> ReqView {
        let end = self.got + bytes.len();
        ReqView {
            mismatch: self.mismatch || (check && (end > self.expect.len() || self.expect.subrange(
                self.got as int,
                end,
            ) != bytes)),
            got: end as usize,
            ..self
        }
    }

    /// What a finished response comes to.
    pub open spec fn result(self) -> Result<usize, Seq<char>> {
        if self.status != 200 {
            Err("status "@ + crate::text::decimal(self.status as nat))
        } else if self.got != self.expect.len() {
            Err(
                "response body is "@ + crate::text::decimal(self.got as nat) + " bytes, want "@
                    + crate::text::decimal(self.expect.len()),
            )
        } else if self.mismatch {
            Err("response body is not equal to the request's"@)
        } else {
            Ok(self.got)
        }
    }
}

fn starts_with(whole: &Vec<u8>, from: usize, part: &Vec<u8>) -> (r: bool)
    requires
        from + part@.len() <= whole@.len(),
    ensures
        r == (whole@.subrange(from as int, from + part@.len()) == part@),
{
    let mut i: usize = 0;
    while i < part.len()
        invariant
            i <= part@.len(),
            from + part@.len() <= whole@.len(),
            forall|k: int| 0 <= k < i ==> whole@[from + k] == part@[k],
        decreases part@.len() - i,
    {
        assert(from + i < whole.len());
        if whole[from + i] != part[i] {
            assert(whole@.subrange(from as int, from + part@.len())[i as int] != part@[i as int]);
            return false;
        }
        i += 1;
    }
    assert(whole@.subrange(from as int, from + part@.len()) =~= part@);
    true
}

impl Req {
    fn take_in(&mut self, bytes: &Vec<u8>, check: bool)
        requires
            old(self).got + bytes@.len() <= usize::MAX,
        ensures
            final(self)@ == old(self)@.take_in(bytes@, check),
    {
        let end: usize = self.got + bytes.len();
        if check && !self.mismatch {
            if end > self.expect.len() || !starts_with(&self.expect, self.got, bytes) {
                self.mismatch = true;
            }
        }
        self.got = end;
    }

    fn result(&self) -> (r: Result<usize, String>)
        ensures
            result_view(r) == self@.result(),
    {
        if self.status != 200 {
            let mut e = "status ".to_owned();
            e.append(u64_text(self.status as u64).as_str());
            Err(e)
        } else if self.got != self.expect.len() {
            let mut e = "response body is ".to_owned();
            e.append(usize_text(self.got).as_str());
            e.append(" bytes, want ");
            e.append(usize_text(self.expect.len()).as_str());
            Err(e)
        } else if self.mismatch {
            Err("response body is not equal to the request's".to_owned())
        } else {
            Ok(self.got)
        }
    }
}

/// A response after one piece of its body after another.
pub open spec fn taken_in(r: ReqView, pieces: Seq<Seq<u8>>, check: bool) -> ReqView
    decreases pieces.len(),
{
    if pieces.len() == 0 {
        r
    } else {
        taken_in(r, pieces.drop_last(), check).take_in(pieces.last(), check)
    }
}

proof fn lemma_taken_in(r: ReqView, pieces: Seq<Seq<u8>>, check: bool)
    requires
        r.got == 0,
        !r.mismatch,
        pieces.flatten().len() <= usize::MAX,
    ensures
        ({
            let t = taken_in(r, pieces, check);
            let all = pieces.flatten();
            &&& t.got == all.len()
            &&& t.expect == r.expect
            &&& t.status == r.status
            &&& t.stream == r.stream
            &&& t.kind == r.kind
            &&& t.mismatch <==> check && !(all.len() <= r.expect.len() && r.expect.take(
                all.len() as int,
            ) == all)
        }),
    decreases pieces.len(),
{
    if pieces.len() == 0 {
        assert(r.expect.take(0) =~= Seq::<u8>::empty());
        assert(pieces.flatten() =~= Seq::<u8>::empty());
    } else {
        let less = pieces.drop_last();
        let last = pieces.last();
        pieces.lemma_flatten_and_flatten_alt_are_equivalent();
        less.lemma_flatten_and_flatten_alt_are_equivalent();
        let all = pieces.flatten();
        let before = less.flatten();
        assert(all == before + last);
        lemma_taken_in(r, less, check);
        let n = before.len() as int;
        let m = all.len() as int;
        let e = r.expect;
        if m <= e.len() {
            assert(e.take(m) =~= e.take(n) + e.subrange(n, m));
            assert(e.take(n) =~= e.take(m).take(n));
            assert(e.subrange(n, m) =~= e.take(m).skip(n));
            assert(all.take(n) =~= before);
            assert(all.skip(n) =~= last);
        }
    }
}

/// With checking on, a response comes out well exactly if its status is 200 and
/// its body is the request's, in whatever pieces it came.
pub proof fn a_checked_response_is_the_request(r: ReqView, pieces: Seq<Seq<u8>>)
    requires
        r.got == 0,
        !r.mismatch,
        pieces.flatten().len() <= usize::MAX,
    ensures
        taken_in(r, pieces, true).result() is Ok <==> r.status == 200 && pieces.flatten() == r.expect,
        taken_in(r, pieces, true).result() matches Ok(n) ==> n == r.expect.len(),
{
    lemma_taken_in(r, pieces, true);
    let all = pieces.flatten();
    if all.len() == r.expect.len() {
        assert(r.expect.take(all.len() as int) =~= r.expect);
    }
}

/// Without checking, a response comes out well exactly if its status is 200 and the
/// pieces of its body are as long together as what was sent.
pub proof fn an_unchecked_response_is_as_long_as_the_request(r: ReqView, pieces: Seq<Seq<u8>>)
    requires
        r.got == 0,
        !r.mismatch,
        pieces.flatten().len() <= usize::MAX,
    ensures
        taken_in(r, pieces, false).result() is Ok <==> r.status == 200 && pieces.flatten().len()
            == r.expect.len(),
        taken_in(r, pieces, false).result() matches Ok(n) ==> n == r.expect.len(),
{
    lemma_taken_in(r, pieces, false);
}

/// A response that does not come out well says why: its status if that is not 200,
/// else how long its body is and should be if it has not the length, else that it
/// is not what was sent.
pub proof fn a_failed_response_says_why(r: ReqView, pieces: Seq<Seq<u8>>, check: bool)
    requires
        r.got == 0,
        !r.mismatch,
        pieces.flatten().len() <= usize::MAX,
    ensures
        ({
            let said = taken_in(r, pieces, check).result();
            let got = pieces.flatten();
            &&& r.status != 200 ==> said == Err::<usize, Seq<char>>(
                "status "@ + crate::text::decimal(r.status as nat),
            )
            &&& r.status == 200 && got.len() != r.expect.len() ==> said == Err::<usize, Seq<char>>(
                "response body is "@ + crate::text::decimal(got.len()) + " bytes, want "@
                    + crate::text::decimal(r.expect.len()),
            )
            &&& r.status == 200 && got.len() == r.expect.len() && check && got != r.expect ==> said
                == Err::<usize, Seq<char>>("response body is not equal to the request's"@)
        }),
{
    lemma_taken_in(r, pieces, check);
    let got = pieces.flatten();
    if got.len() == r.expect.len() {
        assert(r.expect.take(got.len() as int) =~= r.expect);
    }
}

/// The bodies that wait on other streams.
pub open spec fn elsewhere(s: Seq<PendingView>, stream: u64) -> Seq<PendingView>
    decreases s.len(),
{
    if s.len() == 0 {
        s
    } else if s.last().stream == stream {
        elsewhere(s.drop_last(), stream)
    } else {
        elsewhere(s.drop_last(), stream).push(s.last())
    }
}

pub open spec fn reset_error(code: u64) -> Seq<char> {
    "stream reset: "@ + ("0x"@ + crate::text::hex(code as nat))
}

/// What an event of the HTTP/3 side leaves of the connection, and what it has
/// for the worker.
pub open spec fn h3_step(c: ConnView, ev: H3View, check: bool) -> (ConnView, Option<EventView>) {
    match ev {
        H3View::Headers { stream, list } => if c.has(stream) {
            let r = c.req(stream);
            (
                c.with_req(stream, ReqView { status: status_after(list, r.status), ..r }),
                None,
            )
        } else {
            (c, None)
        },
        H3View::Data { stream, bytes } => if c.has(stream) {
            (c.with_req(stream, c.req(stream).take_in(bytes, check)), None)
        } else {
            (c, None)
        },
        H3View::Finished { stream } => if c.has(stream) {
            (
                c.without_req(stream),
                Some(
                    EventView::Response {
                        kind: c.req(stream).kind,
                        result: c.req(stream).result(),
                    },
                ),
            )
        } else {
            (c, None)
        },
        H3View::Reset { stream, code } => {
            let kept = ConnView { pending: elsewhere(c.pending, stream), ..c };
            if c.has(stream) {
                (
                    kept.without_req(stream),
                    Some(failed_response(c.req(stream).kind, reset_error(code))),
                )
            } else {
                (kept, None)
            }
        },
        H3View::GoAway => (ConnView { goaway: true, ..c }, None),
        H3View::PriorityUpdate => (c, None),
    }
}

/// Whether a response can still be counted in bytes with this event.
pub open spec fn countable(c: ConnView, ev: H3View) -> bool {
    ev matches H3View::Data { stream, bytes } ==> c.has(stream) ==> c.req(stream).got + bytes.len()
        <= usize::MAX
}

impl Conn {
    /// Whether a piece of that length can still be counted.
    pub fn can_count(&self, ev: &H3Event) -> (r: bool)
        ensures
            r == countable(self@, ev@),
    {
        match ev {
            H3Event::Data { stream, bytes } => {
                let k: usize = self.find(*stream);
                if k < self.streams.len() {
                    assert(self@.streams[k as int] == self.streams@[k as int]@);
                    bytes.len() <= usize::MAX - self.streams[k].got
                } else {
                    true
                }
            },
            _ => true,
        }
    }

    fn drop_pending(&mut self, stream: u64)
        ensures
            final(self)@ == (ConnView { pending: elsewhere(old(self)@.pending, stream), ..old(
                self,
            )@ }),
    {
        let ghost all = self@.pending;
        let mut kept: Vec<PendingBody> = Vec::new();
        let mut i: usize = 0;
        while i < self.pending.len()
            invariant
                i <= self.pending@.len(),
                *self == *old(self),
                all == self@.pending,
                kept@.map_values(|p: PendingBody| p@) == elsewhere(all.take(i as int), stream),
            decreases self.pending@.len() - i,
        {
            assert(all.take(i + 1).drop_last() =~= all.take(i as int));
            assert(all.take(i + 1).last() == self.pending@[i as int]@);
            let ghost before = kept@;
            if self.pending[i].stream != stream {
                let p = PendingBody {
                    stream: self.pending[i].stream,
                    body: self.pending[i].body.clone(),
                    off: self.pending[i].off,
                };
                kept.push(p);
                assert(kept@.map_values(|p: PendingBody| p@) =~= before.map_values(
                    |p: PendingBody| p@,
                ).push(p@));
            }
            i += 1;
        }
        assert(all.take(i as int) =~= all);
        self.pending = kept;
        assert(self@ =~= (ConnView { pending: elsewhere(all, stream), ..old(self)@ }));
    }

    /// Takes in an event of the HTTP/3 side.
    pub fn h3_event(&mut self, ev: &H3Event, check: bool) -> (r: Option<ConnEvent>)
        requires
            countable(old(self)@, ev@),
        ensures
            (final(self)@, event_view(r)) == h3_step(old(self)@, ev@, check),
    {
        let ghost before = self@;
        match ev {
            H3Event::Headers { stream, list } => {
                let k: usize = self.find(*stream);
                if k < self.streams.len() {
                    assert(before.streams[k as int] == self.streams@[k as int]@);
                    let status: u16 = read_status(list, self.streams[k].status);
                    let r: &mut Req = &mut self.streams[k];
                    r.status = status;
                    assert(self@ =~= h3_step(before, ev@, check).0);
                }
                None
            },
            H3Event::Data { stream, bytes } => {
                let k: usize = self.find(*stream);
                if k < self.streams.len() {
                    assert(before.streams[k as int] == self.streams@[k as int]@);
                    let r: &mut Req = &mut self.streams[k];
                    r.take_in(bytes, check);
                    assert(self@ =~= h3_step(before, ev@, check).0);
                }
                None
            },
            H3Event::Finished { stream } => {
                let k: usize = self.find(*stream);
                if k < self.streams.len() {
                    assert(before.streams[k as int] == self.streams@[k as int]@);
                    let r: Req = self.streams.remove(k);
                    assert(self@ =~= before.without_req(*stream));
                    Some(ConnEvent::Response { kind: r.kind, result: r.result() })
                } else {
                    None
                }
            },
            H3Event::Reset { stream, code } => {
                self.drop_pending(*stream);
                let k: usize = self.find(*stream);
                if k < self.streams.len() {
                    assert(before.streams[k as int] == self.streams@[k as int]@);
                    let r: Req = self.streams.remove(k);
                    assert(self@ =~= h3_step(before, ev@, check).0);
                    let mut e = "stream reset: ".to_owned();
                    e.append(hex_text(*code).as_str());
                    Some(ConnEvent::Response { kind: r.kind, result: Err(e) })
                } else {
                    None
                }
            },
            H3Event::GoAway => {
                self.goaway = true;
                None
            },
            H3Event::PriorityUpdate => None,
        }
    }
}

/// A connection after the pieces of a response's body.
pub open spec fn fed(c: ConnView, stream: u64, pieces: Seq<Seq<u8>>, check: bool) -> ConnView
    decreases pieces.len(),
{
    if pieces.len() == 0 {
        c
    } else {
        h3_step(
            fed(c, stream, pieces.drop_last(), check),
            H3View::Data { stream, bytes: pieces.last() },
            check,
        ).0
    }
}

proof fn lemma_fed(c: ConnView, stream: u64, pieces: Seq<Seq<u8>>, check: bool)
    requires
        c.has(stream),
    ensures
        fed(c, stream, pieces, check).has(stream),
        fed(c, stream, pieces, check).req(stream) == taken_in(c.req(stream), pieces, check),
        place_of(fed(c, stream, pieces, check).streams, stream) == place_of(c.streams, stream),
    decreases pieces.len(),
{
    lemma_place(c.streams, stream);
    if pieces.len() > 0 {
        let less = pieces.drop_last();
        let v = fed(c, stream, less, check);
        lemma_fed(c, stream, less, check);
        lemma_place(v.streams, stream);
        let r = v.req(stream).take_in(pieces.last(), check);
        let k = place_of(v.streams, stream) as int;
        let u = v.with_req(stream, r);
        assert(u.streams[k] == r);
        lemma_place_is(u.streams, stream, k);
    }
}

proof fn lemma_status(list: Seq<RawHeaderView>, k: int, before: u16)
    requires
        0 <= k < list.len(),
        crate::text::latin(list[k].name) == ":status"@,
        forall|j: int| k < j < list.len() ==> crate::text::latin((#[trigger] list[j]).name)
            != ":status"@,
    ensures
        status_after(list, before) == status_value(list[k].value),
    decreases list.len(),
{
    if k < list.len() - 1 {
        assert(crate::text::latin(list[list.len() - 1].name) != ":status"@);
        assert forall|j: int| k < j < list.drop_last().len() implies crate::text::latin(
            (#[trigger] list.drop_last()[j]).name,
        ) != ":status"@ by {
            assert(list.drop_last()[j] == list[j]);
        }
        lemma_status(list.drop_last(), k, before);
    }
}

/// A request that is out is answered by what comes on its stream: headers, pieces of
/// a body, and the end. It reports a success exactly if the last status that the
/// headers give is 200 and the body is what was sent, or, where bodies are not
/// checked, as long; the success is of as many bytes as were sent. The request it
/// reports is the one that went out there, and after that the stream carries none.
pub proof fn a_request_is_answered_on_its_stream(
    c: ConnView,
    stream: u64,
    list: Seq<RawHeaderView>,
    k: int,
    pieces: Seq<Seq<u8>>,
    check: bool,
)
    requires
        tracks_once(c.streams),
        c.has(stream),
        c.req(stream).got == 0,
        !c.req(stream).mismatch,
        pieces.flatten().len() <= usize::MAX,
        0 <= k < list.len(),
        crate::text::spells(list[k].name, ":status"@),
        forall|j: int|
            k < j < list.len() ==> !crate::text::spells((#[trigger] list[j]).name, ":status"@),
    ensures
        ({
            let headed = h3_step(c, H3View::Headers { stream, list }, check);
            let whole = fed(headed.0, stream, pieces, check);
            let end = h3_step(whole, H3View::Finished { stream }, check);
            let good = crate::text::unsigned_number(
                crate::text::latin(list[k].value),
                u16::MAX as nat,
            ) == Some(200nat) && (if check {
                pieces.flatten() == c.req(stream).expect
            } else {
                pieces.flatten().len() == c.req(stream).expect.len()
            });
            &&& headed.1 is None
            &&& end.1 matches Some(EventView::Response { kind, result })
            &&& kind == c.req(stream).kind
            &&& result is Ok <==> good
            &&& result matches Ok(n) ==> n == c.req(stream).expect.len()
        }),
{
    crate::text::reads_what_is_spelled(list[k].name, ":status"@);
    assert forall|j: int| k < j < list.len() implies crate::text::latin((#[trigger] list[j]).name)
        != ":status"@ by {
        crate::text::reads_what_is_spelled(list[j].name, ":status"@);
    }
    let r = c.req(stream);
    lemma_status(list, k, r.status);
    let h = ReqView { status: status_after(list, r.status), ..r };
    let headed = c.with_req(stream, h);
    let p = place_of(c.streams, stream) as int;
    lemma_place(c.streams, stream);
    assert(headed.streams[p] == h);
    lemma_place_is(headed.streams, stream, p);
    lemma_fed(headed, stream, pieces, check);
    lemma_taken_in(h, pieces, check);
    if check {
        a_checked_response_is_the_request(h, pieces);
    } else {
        an_unchecked_response_is_as_long_as_the_request(h, pieces);
    }
}

/// What comes on one stream leaves the requests on the others as they are, and what
/// of their bodies waits.
pub proof fn streams_do_not_disturb_each_other(c: ConnView, ev: H3View, check: bool, other: u64)
    requires
        tracks_once(c.streams),
        match ev {
            H3View::Headers { stream, list } => stream != other,
            H3View::Data { stream, bytes } => stream != other,
            H3View::Finished { stream } => stream != other,
            H3View::Reset { stream, code } => stream != other,
            _ => true,
        },
    ensures
        ({
            let v = h3_step(c, ev, check).0;
            &&& v.has(other) <==> c.has(other)
            &&& c.has(other) ==> v.req(other) == c.req(other)
            &&& forall|p: PendingView|
                p.stream == other && c.pending.contains(p) ==> #[trigger] v.pending.contains(p)
        }),
{
    let v = h3_step(c, ev, check).0;
    let at = place_of(c.streams, other) as int;
    lemma_place(c.streams, other);
    match ev {
        H3View::Headers { stream, list } => {
            lemma_place(c.streams, stream);
            lemma_place_is(v.streams, other, at);
        },
        H3View::Data { stream, bytes } => {
            lemma_place(c.streams, stream);
            lemma_place_is(v.streams, other, at);
        },
        H3View::Finished { stream } => {
            if c.has(stream) {
                lemma_removed(c.streams, stream, other);
            }
        },
        H3View::Reset { stream, code } => {
            if c.has(stream) {
                lemma_removed(c.streams, stream, other);
            }
            assert forall|p: PendingView|
                p.stream == other && c.pending.contains(p) implies #[trigger] v.pending.contains(
                p,
            ) by {
                lemma_elsewhere(c.pending, stream, p);
            }
        },
        _ => {},
    }
}

proof fn lemma_removed(s: Seq<ReqView>, stream: u64, other: u64)
    requires
        stream != other,
        place_of(s, stream) < s.len(),
    ensures
        ({
            let t = s.remove(place_of(s, stream) as int);
            &&& place_of(t, other) < t.len() <==> place_of(s, other) < s.len()
            &&& place_of(s, other) < s.len() ==> t[place_of(t, other) as int] == s[place_of(
                s,
                other,
            ) as int]
        }),
{
    let p = place_of(s, stream) as int;
    let at = place_of(s, other) as int;
    let t = s.remove(p);
    lemma_place(s, stream);
    lemma_place(s, other);
    let to = if at > p {
        at - 1
    } else {
        at
    };
    assert forall|i: int| 0 <= i < to implies (#[trigger] t[i]).stream != other by {
        if i < p {
            assert(t[i] == s[i]);
        } else {
            assert(t[i] == s[i + 1]);
        }
    }
    lemma_place_is(t, other, to);
}

proof fn lemma_elsewhere(s: Seq<PendingView>, stream: u64, p: PendingView)
    ensures
        elsewhere(s, stream).contains(p) <==> s.contains(p) && p.stream != stream,
    decreases s.len(),
{
    if s.len() > 0 {
        let less = s.drop_last();
        let rest = elsewhere(less, stream);
        lemma_elsewhere(less, stream, p);
        assert(s =~= less.push(s.last()));
        assert(s.contains(p) <==> less.contains(p) || p == s.last()) by {
            if less.contains(p) {
                let i = choose|i: int| 0 <= i < less.len() && less[i] == p;
                assert(s[i] == p);
            }
            if s.contains(p) && p != s.last() {
                let i = choose|i: int| 0 <= i < s.len() && s[i] == p;
                assert(less[i] == p);
            }
            assert(s[s.len() - 1] == s.last());
        }
        if s.last().stream != stream {
            let all = rest.push(s.last());
            assert(all.contains(p) <==> rest.contains(p) || p == s.last()) by {
                if rest.contains(p) {
                    let i = choose|i: int| 0 <= i < rest.len() && rest[i] == p;
                    assert(all[i] == p);
                }
                if all.contains(p) && p != s.last() {
                    let i = choose|i: int| 0 <= i < all.len() && all[i] == p;
                    assert(rest[i] == p);
                }
                assert(all[rest.len() as int] == s.last());
            }
        }
    }
}

/// A stream that is reset reports that its request failed, with the code in
/// hexadecimal, and nothing more of its body is sent.
pub proof fn a_reset_stream_fails_its_request(c: ConnView, stream: u64, code: u64, check: bool)
    requires
        tracks_once(c.streams),
    ensures
        ({
            let (v, said) = h3_step(c, H3View::Reset { stream, code }, check);
            &&& said is Some <==> c.has(stream)
            &&& c.has(stream) ==> said == Some(
                EventView::Response {
                    kind: c.req(stream).kind,
                    result: Err::<usize, Seq<char>>(
                        "stream reset: 0x"@ + crate::text::hex(code as nat),
                    ),
                },
            )
            &&& !v.has(stream)
            &&& forall|i: int| 0 <= i < v.pending.len() ==> (#[trigger] v.pending[i]).stream != stream
        }),
{
    let v = h3_step(c, H3View::Reset { stream, code }, check).0;
    reveal_strlit("stream reset: ");
    reveal_strlit("0x");
    reveal_strlit("stream reset: 0x");
    assert("stream reset: "@ + ("0x"@ + crate::text::hex(code as nat)) =~= "stream reset: 0x"@
        + crate::text::hex(code as nat));
    if c.has(stream) {
        lemma_forgotten(c.streams, stream);
    }
    assert forall|i: int| 0 <= i < v.pending.len() implies (#[trigger] v.pending[i]).stream
        != stream by {
        lemma_elsewhere(c.pending, stream, v.pending[i]);
        assert(elsewhere(c.pending, stream).contains(v.pending[i]));
    }
}

/// A connection that closes fails each of its requests once, those that wait for
/// room and then those that are out, in their order and for that reason.
pub proof fn a_closed_connection_fails_its_requests(c: ConnView, reason: Seq<char>, i: int)
    ensures
        c.failures(reason).len() == c.queued.len() + c.streams.len(),
        0 <= i < c.queued.len() ==> c.failures(reason)[i] == (EventView::Response {
            kind: c.queued[i].kind,
            result: Err::<usize, Seq<char>>("connection closed: "@ + reason),
        }),
        0 <= i < c.streams.len() ==> c.failures(reason)[c.queued.len() + i]
            == (EventView::Response {
            kind: c.streams[i].kind,
            result: Err::<usize, Seq<char>>("connection closed: "@ + reason),
        }),
{
}

// ---------------------------------------------------------------------------
// Bodies that did not fit in the stream's window when they were sent.

/// What came of sending the rest of a body.
pub enum BodySent {
    Sent(usize),
    /// The stream has no room.
    NoRoom,
    Failed,
}

/// Whether some of a body still waits.
pub open spec fn body_waits(p: PendingView, sent: BodySent) -> bool {
    match sent {
        BodySent::Sent(n) => p.off + n < p.body.len(),
        BodySent::NoRoom => true,
        BodySent::Failed => false,
    }
}

pub open spec fn body_step(c: ConnView, i: int, sent: BodySent) -> ConnView {
    let p = c.pending[i];
    if !body_waits(p, sent) {
        ConnView { pending: c.pending.remove(i), ..c }
    } else {
        match sent {
            BodySent::Sent(n) => ConnView {
                pending: c.pending.update(i, PendingView { off: (p.off + n) as usize, ..p }),
                ..c
            },
            _ => c,
        }
    }
}

impl Conn {
    /// Counts what of the `i`th waiting body went out. The next one to try is
    /// the one after it, which takes its place if nothing of it waits.
    pub fn body_sent(&mut self, i: usize, sent: BodySent) -> (next: usize)
        requires
            i < old(self)@.pending.len(),
            sent matches BodySent::Sent(n) ==> old(self)@.pending[i as int].off + n <= usize::MAX,
        ensures
            final(self)@ == body_step(old(self)@, i as int, sent),
            next == (if body_waits(old(self)@.pending[i as int], sent) {
                i + 1
            } else {
                i as int
            }),
    {
        let ghost before = self@;
        assert(before.pending[i as int] == self.pending@[i as int]@);
        assert(i < self.pending.len());
        match sent {
            BodySent::Sent(n) => {
                let off: usize = self.pending[i].off + n;
                if off < self.pending[i].body.len() {
                    let p: &mut PendingBody = &mut self.pending[i];
                    p.off = off;
                    assert(self@ =~= body_step(before, i as int, sent));
                    i + 1
                } else {
                    let _ = self.pending.remove(i);
                    assert(self@ =~= body_step(before, i as int, sent));
                    i
                }
            },
            BodySent::NoRoom => i + 1,
            BodySent::Failed => {
                let _ = self.pending.remove(i);
                assert(self@ =~= body_step(before, i as int, sent));
                i
            },
        }
    }
}

/// A body that waits is sent on from where it was left, and waits until all of it
/// is out; one that cannot be sent is given up. The other bodies that wait are left
/// as they are.
pub proof fn a_body_waits_until_it_is_out(c: ConnView, i: int, sent: BodySent, j: int)
    requires
        0 <= i < c.pending.len(),
        0 <= j < c.pending.len(),
        sent matches BodySent::Sent(n) ==> c.pending[i].off + n <= usize::MAX,
    ensures
        ({
            let v = body_step(c, i, sent);
            let p = c.pending[i];
            let gone = v.pending.len() + 1 == c.pending.len();
            &&& gone || v.pending.len() == c.pending.len()
            &&& gone <==> sent is Failed || (sent matches BodySent::Sent(n) && p.off + n
                >= p.body.len())
            &&& !gone ==> v.pending[i].stream == p.stream && v.pending[i].body == p.body
                && v.pending[i].off == p.off + (match sent {
                BodySent::Sent(n) => n as int,
                _ => 0,
            })
            &&& j < i ==> v.pending[j] == c.pending[j]
            &&& j > i ==> v.pending[if gone {
                j - 1
            } else {
                j
            }] == c.pending[j]
        }),
{
}

// ---------------------------------------------------------------------------
// Why a connection closed.

/// What `String::from_utf8_lossy` reads of bytes that are not UTF-8.
pub uninterp spec fn lossy_text(b: Seq<u8>) -> Seq<char>;

/// Bytes read as text, with a replacement character for what is not UTF-8.
pub open spec fn lossy(b: Seq<u8>) -> Seq<char> {
    if vstd::utf8::valid_utf8(b) {
        vstd::utf8::decode_utf8(b)
    } else {
        lossy_text(b)
    }
}

/// `String::from_utf8_lossy` reads valid UTF-8 as the text that it is, and other
/// bytes with a replacement character for what is not. What it reads is a
/// function of the bytes alone; how it groups the invalid ones is not said here.
#[verifier::external_body]
pub(crate) fn lossy_string(b: &Vec<u8>) -> (s: String)
    ensures
        s@ == lossy(b@),
        !vstd::utf8::valid_utf8(b@) ==> s@ == lossy_text(b@),
{
    String::from_utf8_lossy(b).into_owned()
}

/// An error a connection was closed with.
pub struct CloseError {
    pub code: u64,
    pub reason: Vec<u8>,
}

pub open spec fn code_text(code: u64, reason: Seq<char>) -> Seq<char> {
    ("0x"@ + crate::text::hex(code as nat)) + " "@ + reason
}

/// Why a connection is closed: it idled, the server closed it, it was closed
/// here, or none of these is known.
pub open spec fn close_text(
    timed_out: bool,
    peer: Option<(u64, Seq<char>)>,
    local: Option<(u64, Seq<char>)>,
) -> Seq<char> {
    if timed_out {
        "idle timeout"@
    } else if peer is Some {
        "closed by the server: code "@ + code_text(peer->Some_0.0, peer->Some_0.1)
    } else if local is Some {
        "closed here: code "@ + code_text(local->Some_0.0, local->Some_0.1)
    } else {
        "closed"@
    }
}

pub open spec fn close_view(e: Option<CloseError>) -> Option<(u64, Seq<char>)> {
    match e {
        Some(x) => Some((x.code, lossy(x.reason@))),
        None => None,
    }
}

fn code_string(start: &str, e: &CloseError) -> (s: String)
    ensures
        s@ == start@ + code_text(e.code, lossy(e.reason@)),
{
    let mut s = start.to_owned();
    s.append(hex_text(e.code).as_str());
    s.append(" ");
    s.append(lossy_string(&e.reason).as_str());
    assert(s@ =~= start@ + code_text(e.code, lossy(e.reason@)));
    s
}

pub fn close_reason(timed_out: bool, peer: &Option<CloseError>, local: &Option<CloseError>) -> (s:
    String)
    ensures
        s@ == close_text(timed_out, close_view(*peer), close_view(*local)),
{
    if timed_out {
        return "idle timeout".to_owned();
    }
    match peer {
        Some(e) => code_string("closed by the server: code ", e),
        None => match local {
            Some(e) => code_string("closed here: code ", e),
            None => "closed".to_owned(),
        },
    }
}

/// Why a connection closed is told by what ended it: that it idled, before the
/// server's code and reason, before those it was closed with here.
pub proof fn a_close_is_told_by_what_ended_it(
    peer: Option<(u64, Seq<char>)>,
    local: Option<(u64, Seq<char>)>,
    code: u64,
    reason: Seq<char>,
)
    ensures
        close_text(true, peer, local) == "idle timeout"@,
        close_text(false, Some((code, reason)), local) == "closed by the server: code 0x"@
            + crate::text::hex(code as nat) + " "@ + reason,
        close_text(false, None, Some((code, reason))) == "closed here: code 0x"@ + crate::text::hex(
            code as nat,
        ) + " "@ + reason,
        close_text(false, None, None) == "closed"@,
{
    reveal_strlit("closed by the server: code ");
    reveal_strlit("closed here: code ");
    reveal_strlit("closed by the server: code 0x");
    reveal_strlit("closed here: code 0x");
    reveal_strlit("0x");
    assert(close_text(false, Some((code, reason)), local) =~= "closed by the server: code 0x"@
        + crate::text::hex(code as nat) + " "@ + reason);
    assert(close_text(false, None, Some((code, reason))) =~= "closed here: code 0x"@
        + crate::text::hex(code as nat) + " "@ + reason);
}

/// A connection whose server says that it goes away is known to be going away from
/// then on, and goes on otherwise as it was; nothing else makes it so.
pub proof fn going_away_is_kept_in_mind(c: ConnView, ev: H3View, check: bool)
    ensures
        h3_step(c, H3View::GoAway, check).1 is None,
        h3_step(c, H3View::GoAway, check).0.goaway,
        h3_step(c, H3View::GoAway, check).0.streams == c.streams,
        h3_step(c, H3View::GoAway, check).0.pending == c.pending,
        h3_step(c, H3View::GoAway, check).0.state == c.state,
        h3_step(c, ev, check).0.goaway <==> c.goaway || ev is GoAway,
{
}

} // verus!
