//! What holds of a whole tick of BenchMultiplex.

use vstd::prelude::*;

use crate::engine::conn::{ConnView, Nanos, ReqKind, State};
use crate::engine::laws;
use crate::engine::model::{OpView, PhaseView, RatePhase, SentView, Tick, WorkerView};
use crate::engine::trace;
use crate::engine::trace::Input;

verus! {

/// Whether a tick is to begin.
pub open spec fn due(w: WorkerView, now: Nanos) -> bool {
    &&& w.op is Nothing
    &&& w.phase matches PhaseView::Rate(r) && r.tick is None && r.grace_until is None
        && r.next_tick <= now < r.deadline
}

/// Whether one is under way.
pub open spec fn in_tick(w: WorkerView) -> bool {
    w.phase matches PhaseView::Rate(r) && r.tick is Some
}

pub open spec fn is_of_tick(x: Input) -> bool {
    x is Drive || x is StreamsLeft || x is Tokens || x is Transmitted
}

/// Whether some inputs are a tick, from its beginning on and not past its end.
pub open spec fn is_tick(w: WorkerView, xs: Seq<Input>) -> bool
    decreases xs.len(),
{
    if xs.len() == 0 {
        false
    } else if xs.len() == 1 {
        xs[0] matches Input::Drive { now } && due(w, now)
    } else {
        let less = xs.drop_last();
        &&& is_tick(w, less)
        &&& in_tick(trace::run(w, less))
        &&& is_of_tick(xs.last())
        &&& trace::allowed(trace::run(w, less), xs.last())
    }
}

/// Whether a request goes out on the connection in a slot.
pub open spec fn goes_out_on(v: WorkerView, x: Input, idx: usize) -> bool {
    &&& x matches Input::Transmitted { request, now } && request is Out
    &&& v.op is Send
    &&& v.op->idx == idx
}

/// How many requests go out on the connection in a slot.
pub open spec fn sent_on(w: WorkerView, xs: Seq<Input>, idx: usize) -> nat
    decreases xs.len(),
{
    if xs.len() == 0 {
        0
    } else {
        sent_on(w, xs.drop_last(), idx) + (if goes_out_on(
            trace::run(w, xs.drop_last()),
            xs.last(),
            idx,
        ) {
            1nat
        } else {
            0nat
        })
    }
}

/// How many requests go out.
pub open spec fn sent(xs: Seq<Input>) -> nat
    decreases xs.len(),
{
    if xs.len() == 0 {
        0
    } else {
        sent(xs.drop_last()) + (if (xs.last() matches Input::Transmitted { request, now }
            && request is Out) {
            1nat
        } else {
            0nat
        })
    }
}

/// Whether the worker hears that the server leaves the connection in a slot the
/// streams for a batch.
pub open spec fn hears_of_streams(v: WorkerView, x: Input, idx: usize) -> bool {
    &&& v.phase matches PhaseView::Rate(r) && r.tick matches Some(Tick::Streams(at))
        && r.conns[at as int] == idx
    &&& x matches Input::StreamsLeft { n } && n >= v.phase->Rate_0.job.batch
}

pub open spec fn has_streams(w: WorkerView, xs: Seq<Input>, idx: usize) -> bool
    decreases xs.len(),
{
    xs.len() > 0 && (has_streams(w, xs.drop_last(), idx) || hears_of_streams(
        trace::run(w, xs.drop_last()),
        xs.last(),
        idx,
    ))
}

/// Whether the connection in a slot may be sent a batch: it is up, the server
/// takes requests on it, and four batches are not unanswered with it.
pub open spec fn may_be_sent(w: WorkerView, idx: usize) -> bool {
    match w.conn(idx as int) {
        Some(c) => c.state == State::Ready && !c.goaway && c.in_flight + w.phase->Rate_0.job.batch <= 4
            * w.phase->Rate_0.job.batch,
        None => false,
    }
}

/// A connection on which so many requests more are unanswered, and which is
/// otherwise as it was.
pub open spec fn with_more(a: Option<ConnView>, b: Option<ConnView>, more: nat) -> bool {
    match a {
        None => b is None,
        Some(c) => b matches Some(d) && d.state == c.state && d.goaway == c.goaway && d.queued
            == c.queued && d.h3 == c.h3 && d.dial == c.dial && d.in_flight == c.in_flight + more,
    }
}

/// The connection a tick is at.
spec fn at(r: RatePhase) -> Option<usize> {
    match r.tick {
        Some(Tick::Streams(at)) => Some(r.conns[at as int]),
        Some(Tick::Tokens(at)) => Some(r.conns[at as int]),
        Some(Tick::Sending { at, left }) => Some(r.conns[at as int]),
        _ => None,
    }
}

spec fn past_streams(r: RatePhase) -> bool {
    match r.tick {
        Some(Tick::Tokens(_)) => true,
        Some(Tick::Sending { .. }) => true,
        _ => false,
    }
}

/// What some of a tick leaves as it was, and what it counts.
spec fn phase_follows(a: RatePhase, b: RatePhase, n: nat) -> bool {
    &&& b.job == a.job
    &&& b.conns == a.conns
    &&& b.counts.send_times == a.counts.send_times + n
    &&& b.counts.send_bytes == a.counts.send_bytes + n * a.job.payload.len()
    &&& b.counts.recv_times == a.counts.recv_times
    &&& b.counts.recv_bytes == a.counts.recv_bytes
    &&& b.counts.answered == a.counts.answered
}

spec fn conns_follow(w: WorkerView, v: WorkerView, xs: Seq<Input>) -> bool {
    &&& v.slots.len() == w.slots.len()
    &&& forall|i: usize|
        i < w.slots.len() ==> with_more(
            w.slots[i as int],
            v.slots[i as int],
            #[trigger] sent_on(w, xs, i),
        )
}

spec fn only_to(w: WorkerView, r: RatePhase, xs: Seq<Input>) -> bool {
    &&& forall|i: usize| #[trigger] sent_on(w, xs, i) > 0 ==> may_be_sent(w, i) && has_streams(w, xs, i)
    &&& at(r) matches Some(i) ==> may_be_sent(w, i) && (past_streams(r) ==> has_streams(w, xs, i))
}

spec fn op_follows(v: WorkerView, r: RatePhase) -> bool {
    match v.op {
        OpView::Nothing => true,
        OpView::Send { idx, kind, body, queued } => kind == ReqKind::Rate && body == r.job.payload
            && r.tick is Some && r.tick->Some_0 is Sending && at(r) == Some(idx),
        _ => false,
    }
}

spec fn follows(w: WorkerView, v: WorkerView, xs: Seq<Input>) -> bool {
    &&& v.phase is Rate
    &&& phase_follows(w.phase->Rate_0, v.phase->Rate_0, sent(xs))
    &&& conns_follow(w, v, xs)
    &&& only_to(w, v.phase->Rate_0, xs)
    &&& op_follows(v, v.phase->Rate_0)
}

/// Nothing goes out but what is transmitted, and no streams are heard of but what
/// is said of them.
proof fn lemma_quiet(w: WorkerView, less: Seq<Input>, x: Input)
    requires
        !(x is Transmitted),
    ensures
        forall|i: usize| #[trigger] sent_on(w, less.push(x), i) == sent_on(w, less, i),
        sent(less.push(x)) == sent(less),
        forall|i: usize| has_streams(w, less, i) ==> #[trigger] has_streams(w, less.push(x), i),
{
    assert(less.push(x).drop_last() =~= less);
}

/// A connection that takes a batch now could when the tick began.
proof fn lemma_could(w: WorkerView, v: WorkerView, xs: Seq<Input>, k: int)
    requires
        w.phase is Rate,
        follows(w, v, xs),
        0 <= k < v.phase->Rate_0.conns.len(),
        v.phase->Rate_0.conns[k] < v.slots.len(),
        v.takes_batch(v.phase->Rate_0, k),
    ensures
        may_be_sent(w, v.phase->Rate_0.conns[k]),
{
    let i = v.phase->Rate_0.conns[k];
    assert(sent_on(w, xs, i) >= 0);
    assert(with_more(w.slots[i as int], v.slots[i as int], sent_on(w, xs, i)));
}

proof fn lemma_look(w: WorkerView, v: WorkerView, less: Seq<Input>, r: RatePhase, k: nat, x: Input)
    requires
        w.phase is Rate,
        laws::inv(v),
        follows(w, v, less),
        v.op is Nothing,
        !(x is Transmitted),
        r == (RatePhase { next_tick: r.next_tick, ..v.phase->Rate_0 }),
    ensures
        follows(w, v.tick_look(r, k).0, less.push(x)),
{
    lemma_quiet(w, less, x);
    if k <= r.conns.len() {
        laws::lemma_next_place(v, r, k);
    }
    let u = v.tick_look(r, k).0;
    let p = v.next_place(r, k);
    let q = v.phase->Rate_0;
    if p < r.conns.len() {
        assert(q.conns[p as int] < v.slots.len());
        assert(v.takes_batch(q, p as int) == v.takes_batch(r, p as int));
        lemma_could(w, v, less, p as int);
    }
    assert forall|i: usize| i < w.slots.len() implies with_more(
        w.slots[i as int],
        u.slots[i as int],
        #[trigger] sent_on(w, less.push(x), i),
    ) by {
        assert(sent_on(w, less.push(x), i) == sent_on(w, less, i));
    }
}

proof fn lemma_same(w: WorkerView, v: WorkerView, u: WorkerView, less: Seq<Input>, x: Input)
    requires
        follows(w, v, less),
        !(x is Transmitted),
        u.slots == v.slots,
        u.phase is Rate,
        phase_follows(v.phase->Rate_0, u.phase->Rate_0, 0),
        at(u.phase->Rate_0) matches Some(i) ==> at(v.phase->Rate_0) == Some(i) && (past_streams(
            u.phase->Rate_0,
        ) ==> past_streams(v.phase->Rate_0) || has_streams(w, less.push(x), i)),
        op_follows(u, u.phase->Rate_0),
    ensures
        follows(w, u, less.push(x)),
{
    lemma_quiet(w, less, x);
    assert forall|i: usize| i < w.slots.len() implies with_more(
        w.slots[i as int],
        u.slots[i as int],
        #[trigger] sent_on(w, less.push(x), i),
    ) by {
        assert(sent_on(w, less.push(x), i) == sent_on(w, less, i));
    }
}

proof fn lemma_tick_drive(w: WorkerView, v: WorkerView, less: Seq<Input>, now: Nanos)
    requires
        w.phase is Rate,
        laws::inv(v),
        follows(w, v, less),
        in_tick(v),
    ensures
        follows(w, v.drive(now).0, less.push(Input::Drive { now })),
{
    let x = Input::Drive { now };
    let r = v.phase->Rate_0;
    let u = v.drive(now).0;
    if v.op is Nothing {
        match r.tick->Some_0 {
            Tick::Look(k) => {
                lemma_look(w, v, less, r, k as nat, x);
            },
            Tick::Sending { at, left } => match v.conn(r.conns[at as int] as int) {
                Some(c) => if c.h3 {
                    lemma_same(w, v, u, less, x);
                } else {
                    lemma_look(w, v, less, r, (at + 1) as nat, x);
                },
                None => {
                    lemma_look(w, v, less, r, (at + 1) as nat, x);
                },
            },
            _ => {
                lemma_same(w, v, u, less, x);
            },
        }
    } else {
        lemma_same(w, v, u, less, x);
    }
}

proof fn lemma_tick_answers(w: WorkerView, v: WorkerView, less: Seq<Input>, x: Input)
    requires
        w.phase is Rate,
        v == trace::run(w, less),
        follows(w, v, less),
        v.op is Nothing,
        in_tick(v),
        x is StreamsLeft || x is Tokens,
    ensures
        follows(w, trace::step(v, x), less.push(x)),
{
    let u = trace::step(v, x);
    let r = v.phase->Rate_0;
    assert(less.push(x).drop_last() =~= less);
    match x {
        Input::StreamsLeft { n } => {
            if n >= r.job.batch && r.tick->Some_0 is Streams {
                assert(hears_of_streams(v, x, at(r)->Some_0));
                assert(has_streams(w, less.push(x), at(r)->Some_0));
            }
        },
        _ => {},
    }
    lemma_same(w, v, u, less, x);
}

proof fn lemma_tick_out(
    w: WorkerView,
    v: WorkerView,
    less: Seq<Input>,
    stream: u64,
    off: usize,
    now: Nanos,
)
    requires
        w.phase is Rate,
        laws::inv(v),
        v == trace::run(w, less),
        follows(w, v, less),
        in_tick(v),
        v.op is Send,
        v.phase->Rate_0.counts.send_times < u64::MAX,
        v.phase->Rate_0.counts.send_bytes + v.phase->Rate_0.job.payload.len() <= u64::MAX,
    ensures
        ({
            let request = SentView::Out { stream, off };
            follows(
                w,
                v.transmitted(request, now),
                less.push(Input::Transmitted { request, now }),
            )
        }),
{
    let request = SentView::Out { stream, off };
    let x = Input::Transmitted { request, now };
    let xs = less.push(x);
    let u = v.transmitted(request, now);
    let idx = v.op->idx;
    let r = v.phase->Rate_0;
    assert(xs.drop_last() =~= less);
    assert(xs.last() == x);
    laws::lemma_sending(v, idx);
    assert(goes_out_on(v, x, idx));
    assert(sent(xs) == sent(less) + 1);
    assert((sent(less) + 1) * r.job.payload.len() == sent(less) * r.job.payload.len()
        + r.job.payload.len()) by (nonlinear_arith);
    assert forall|i: usize| i < w.slots.len() implies with_more(
        w.slots[i as int],
        u.slots[i as int],
        #[trigger] sent_on(w, xs, i),
    ) by {
        assert(with_more(w.slots[i as int], v.slots[i as int], sent_on(w, less, i)));
        assert(sent_on(w, xs, i) == sent_on(w, less, i) + (if i == idx {
            1nat
        } else {
            0nat
        }));
    }
    assert(forall|i: usize| has_streams(w, less, i) ==> #[trigger] has_streams(w, xs, i));
    assert forall|i: usize| #[trigger] sent_on(w, xs, i) > 0 implies may_be_sent(w, i) && has_streams(
        w,
        xs,
        i,
    ) by {
        if i != idx {
            assert(sent_on(w, less, i) > 0);
        }
    }
}

proof fn lemma_tick_failed(
    w: WorkerView,
    v: WorkerView,
    less: Seq<Input>,
    request: SentView,
    now: Nanos,
)
    requires
        w.phase is Rate,
        laws::inv(v),
        v == trace::run(w, less),
        follows(w, v, less),
        in_tick(v),
        v.op is Send,
        !(request is Out),
    ensures
        follows(w, v.transmitted(request, now), less.push(Input::Transmitted { request, now })),
{
    let x = Input::Transmitted { request, now };
    let xs = less.push(x);
    let u = v.transmitted(request, now);
    assert(xs.drop_last() =~= less);
    assert(xs.last() == x);
    assert forall|i: usize| i < w.slots.len() implies with_more(
        w.slots[i as int],
        u.slots[i as int],
        #[trigger] sent_on(w, xs, i),
    ) by {
        assert(with_more(w.slots[i as int], v.slots[i as int], sent_on(w, less, i)));
        assert(sent_on(w, xs, i) == sent_on(w, less, i));
    }
    assert(forall|i: usize| has_streams(w, less, i) ==> #[trigger] has_streams(w, xs, i));
    assert forall|i: usize| #[trigger] sent_on(w, xs, i) > 0 implies may_be_sent(w, i) && has_streams(
        w,
        xs,
        i,
    ) by {
        assert(sent_on(w, less, i) > 0);
    }
}

proof fn lemma_begins(w: WorkerView, now: Nanos)
    requires
        laws::inv(w),
        due(w, now),
    ensures
        follows(w, w.drive(now).0, seq![Input::Drive { now }]),
{
    let x = Input::Drive { now };
    let none = Seq::<Input>::empty();
    let r = w.phase->Rate_0;
    assert(follows(w, w, none));
    assert(none.push(x) =~= seq![x]);
    lemma_look(w, w, none, RatePhase { next_tick: r.tick_after(now), ..r }, 0, x);
}

/// Whether what a tick may send can still be counted.
pub open spec fn countable(w: WorkerView, xs: Seq<Input>) -> bool {
    let r = w.phase->Rate_0;
    &&& r.counts.send_times + sent(xs) <= u64::MAX
    &&& r.counts.send_bytes + sent(xs) * r.job.payload.len() <= u64::MAX
}

proof fn lemma_tick(w: WorkerView, xs: Seq<Input>)
    requires
        laws::inv(w),
        w.phase is Rate,
        is_tick(w, xs),
        countable(w, xs),
    ensures
        laws::inv(trace::run(w, xs)),
        follows(w, trace::run(w, xs), xs),
    decreases xs.len(),
{
    let less = xs.drop_last();
    let v = trace::run(w, less);
    let x = xs.last();
    if xs.len() == 1 {
        match xs[0] {
            Input::Drive { now } => {
                assert(less =~= Seq::<Input>::empty());
                assert(xs =~= seq![x]);
                lemma_begins(w, now);
                laws::lemma_drive(w, now);
            },
            _ => {},
        }
    } else {
        assert(less.push(x) =~= xs);
        assert(sent(less) * w.phase->Rate_0.job.payload.len() <= sent(xs)
            * w.phase->Rate_0.job.payload.len()) by (nonlinear_arith)
            requires
                sent(less) <= sent(xs),
        ;
        lemma_tick(w, less);
        trace::lemma_step(v, x);
        match x {
            Input::Drive { now } => {
                lemma_tick_drive(w, v, less, now);
            },
            Input::Transmitted { request, now } => match request {
                SentView::Out { stream, off } => {
                    let len = w.phase->Rate_0.job.payload.len();
                    assert(sent(xs) * len == sent(less) * len + len) by (nonlinear_arith)
                        requires
                            sent(xs) == sent(less) + 1,
                    ;
                    lemma_tick_out(w, v, less, stream, off, now);
                },
                _ => {
                    lemma_tick_failed(w, v, less, request, now);
                },
            },
            _ => {
                lemma_tick_answers(w, v, less, x);
            },
        }
    }
}

/// In a tick of BenchMultiplex, from its beginning to its end, a connection is
/// sent nothing that is not up, on which the server takes no more requests, that
/// would have more than four batches unanswered, or that the server leaves fewer
/// streams than a batch has. No request is queued, what goes out on a connection
/// is unanswered there and no more than four batches are, and what goes out is
/// what is counted as sent.
pub proof fn a_tick_sends_what_it_may(w: WorkerView, xs: Seq<Input>, idx: usize)
    requires
        laws::inv(w),
        w.phase is Rate,
        is_tick(w, xs),
        countable(w, xs),
    ensures
        ({
            let v = trace::run(w, xs);
            let r = w.phase->Rate_0;
            let s = v.phase->Rate_0;
            &&& v.phase is Rate
            &&& !may_be_sent(w, idx) ==> sent_on(w, xs, idx) == 0
            &&& !has_streams(w, xs, idx) ==> sent_on(w, xs, idx) == 0
            &&& w.conn(idx as int) matches Some(c) ==> (v.conn(idx as int) matches Some(d)
                && d.queued == c.queued && d.in_flight == c.in_flight + sent_on(w, xs, idx))
            &&& forall|k: int|
                0 <= k < s.conns.len() ==> #[trigger] laws::unanswered(v, s, k) <= 4 * s.job.batch
            &&& s.job == r.job && s.conns == r.conns
            &&& s.counts.send_times == r.counts.send_times + sent(xs)
            &&& s.counts.send_bytes == r.counts.send_bytes + sent(xs) * r.job.payload.len()
        }),
{
    lemma_tick(w, xs);
    let v = trace::run(w, xs);
    let s = v.phase->Rate_0;
    assert(sent_on(w, xs, idx) >= 0);
    assert forall|k: int| 0 <= k < s.conns.len() implies #[trigger] laws::unanswered(v, s, k) <= 4
        * s.job.batch by {
        laws::four_batches_at_most(v, k);
    }
    if idx < w.slots.len() {
        assert(with_more(w.slots[idx as int], v.slots[idx as int], sent_on(w, xs, idx)));
    }
}

} // verus!
