//! What the workers hand back for a command.

use vstd::prelude::*;

use crate::engine::model::{OutcomeView, RateCounts};
use crate::engine::worker::Outcome;
use crate::stats::{Latencies, LatenciesView};

verus! {

/// The outcomes of a command that have come back, in worker order.
pub struct Gather {
    outcomes: Vec<Option<Outcome>>,
    pending: usize,
}

pub open spec fn outcome_view(o: Option<Outcome>) -> Option<OutcomeView> {
    match o {
        Some(x) => Some(x@),
        None => None,
    }
}

pub open spec fn outcome_views(s: Seq<Option<Outcome>>) -> Seq<Option<OutcomeView>> {
    s.map_values(|o: Option<Outcome>| outcome_view(o))
}

/// How many have not come back.
pub open spec fn missing(s: Seq<Option<OutcomeView>>) -> nat
    decreases s.len(),
{
    if s.len() == 0 {
        0
    } else {
        missing(s.drop_last()) + (if s.last() is None {
            1nat
        } else {
            0nat
        })
    }
}

proof fn lemma_missing_update(s: Seq<Option<OutcomeView>>, i: int, x: OutcomeView)
    requires
        0 <= i < s.len(),
        s[i] is None,
    ensures
        missing(s.update(i, Some(x))) + 1 == missing(s),
    decreases s.len(),
{
    if i == s.len() - 1 {
        assert(s.update(i, Some(x)).drop_last() =~= s.drop_last());
    } else {
        assert(s.update(i, Some(x)).drop_last() =~= s.drop_last().update(i, Some(x)));
        lemma_missing_update(s.drop_last(), i, x);
    }
}

proof fn lemma_none_missing(s: Seq<Option<OutcomeView>>)
    requires
        missing(s) == 0,
    ensures
        forall|i: int| 0 <= i < s.len() ==> (#[trigger] s[i]) is Some,
    decreases s.len(),
{
    if s.len() > 0 {
        lemma_none_missing(s.drop_last());
        assert forall|i: int| 0 <= i < s.len() implies (#[trigger] s[i]) is Some by {
            if i < s.len() - 1 {
                assert(s.drop_last()[i] is Some);
            }
        }
    }
}

impl View for Gather {
    type V = Seq<Option<OutcomeView>>;

    closed spec fn view(&self) -> Seq<Option<OutcomeView>> {
        outcome_views(self.outcomes@)
    }
}

impl Gather {
    /// Whether those that have not come back are counted right.
    pub closed spec fn wf(&self) -> bool {
        &&& self.pending == missing(self@)
        &&& forall|i: int|
            0 <= i < self.outcomes@.len() ==> (#[trigger] self.outcomes@[i] matches Some(o) ==> o.wf())
    }

    /// Nothing has come back from `workers` workers.
    pub fn new(workers: usize) -> (g: Self)
        ensures
            g.wf(),
            g@.len() == workers,
            forall|i: int| 0 <= i < workers ==> (#[trigger] g@[i]) is None,
    {
        let mut outcomes: Vec<Option<Outcome>> = Vec::new();
        let mut i: usize = 0;
        while i < workers
            invariant
                i <= workers,
                outcomes@.len() == i,
                missing(outcome_views(outcomes@)) == i,
                forall|k: int| 0 <= k < i ==> (#[trigger] outcomes@[k]) is None,
            decreases workers - i,
        {
            let ghost before = outcome_views(outcomes@);
            outcomes.push(None);
            assert(outcome_views(outcomes@).drop_last() =~= before);
            i += 1;
        }
        Gather { outcomes, pending: workers }
    }

    /// Whether all have come back.
    pub fn is_done(&self) -> (r: bool)
        requires
            self.wf(),
        ensures
            r ==> forall|i: int| 0 <= i < self@.len() ==> (#[trigger] self@[i]) is Some,
            !r ==> missing(self@) > 0,
    {
        proof {
            if self.pending == 0 {
                lemma_none_missing(self@);
            }
        }
        self.pending == 0
    }

    /// A worker's outcome came back.
    pub fn put(&mut self, id: usize, outcome: Outcome)
        requires
            old(self).wf(),
            id < old(self)@.len(),
            old(self)@[id as int] is None,
            outcome.wf(),
        ensures
            final(self).wf(),
            final(self)@ == old(self)@.update(id as int, Some(outcome@)),
    {
        let ghost before = self@;
        let ghost said = outcome@;
        proof {
            lemma_missing_update(before, id as int, said);
        }
        self.outcomes.set(id, Some(outcome));
        self.pending -= 1;
        assert(self@ =~= before.update(id as int, Some(said)));
    }

    /// Whether a worker's outcome has come back.
    pub fn has(&self, id: usize) -> (r: bool)
        ensures
            r == (id < self@.len() && self@[id as int] is Some),
    {
        if id >= self.outcomes.len() {
            return false;
        }
        assert(self@[id as int] == outcome_view(self.outcomes@[id as int]));
        self.outcomes[id].is_some()
    }

    /// The outcomes, in worker order.
    pub fn into_outcomes(self) -> (v: Vec<Option<Outcome>>)
        requires
            self.wf(),
        ensures
            outcome_views(v@) == self@,
            forall|i: int| 0 <= i < v@.len() ==> (#[trigger] v@[i] matches Some(o) ==> o.wf()),
    {
        self.outcomes
    }
}

// ---------------------------------------------------------------------------
// What they come to.

pub open spec fn latencies_of(o: Option<OutcomeView>) -> Option<LatenciesView> {
    match o {
        Some(OutcomeView::Dial(l)) => Some(l),
        Some(OutcomeView::Echo(l)) => Some(l),
        _ => None,
    }
}

/// The latencies of all workers, in worker order.
pub open spec fn all_latencies(s: Seq<Option<OutcomeView>>) -> LatenciesView
    decreases s.len(),
{
    if s.len() == 0 {
        LatenciesView::none()
    } else {
        match latencies_of(s.last()) {
            Some(l) => all_latencies(s.drop_last()).merge(l),
            None => all_latencies(s.drop_last()),
        }
    }
}

proof fn lemma_latencies_grow(s: Seq<Option<OutcomeView>>, k: int)
    requires
        0 <= k <= s.len(),
        forall|i: int|
            0 <= i < s.len() ==> (latencies_of(#[trigger] s[i]) matches Some(l) ==> l.success >= 0
                && l.failed >= 0),
    ensures
        0 <= all_latencies(s.take(k)).success <= all_latencies(s).success,
        0 <= all_latencies(s.take(k)).failed <= all_latencies(s).failed,
    decreases s.len(),
{
    if k == s.len() {
        assert(s.take(k) =~= s);
        if k > 0 {
            lemma_latencies_grow(s.drop_last(), k - 1);
        }
    } else {
        assert(s.take(k) =~= s.drop_last().take(k));
        assert forall|i: int| 0 <= i < s.drop_last().len() implies (latencies_of(
            #[trigger] s.drop_last()[i],
        ) matches Some(l) ==> l.success >= 0 && l.failed >= 0) by {
            assert(s.drop_last()[i] == s[i]);
        }
        lemma_latencies_grow(s.drop_last(), k);
        assert(latencies_of(s[s.len() - 1]) matches Some(l) ==> l.success >= 0 && l.failed >= 0);
    }
}

/// Merges the workers' latencies.
pub fn merge_latencies(outcomes: Vec<Option<Outcome>>) -> (lat: Latencies)
    requires
        forall|i: int|
            0 <= i < outcomes@.len() ==> (#[trigger] outcomes@[i] matches Some(o) ==> o.wf()),
        all_latencies(outcome_views(outcomes@)).success <= i64::MAX,
        all_latencies(outcome_views(outcomes@)).failed <= i64::MAX,
    ensures
        lat.wf(),
        lat@ == all_latencies(outcome_views(outcomes@)),
{
    let ghost all = outcome_views(outcomes@);
    proof {
        assert forall|i: int| 0 <= i < all.len() implies (latencies_of(#[trigger] all[i]) matches Some(
            l,
        ) ==> l.success >= 0 && l.failed >= 0) by {
            assert(all[i] == outcome_view(outcomes@[i]));
        }
    }
    let mut rest = outcomes;
    let mut later: Vec<Option<Outcome>> = Vec::new();
    // The outcomes are taken off the end, and put in order again.
    while rest.len() > 0
        invariant
            rest@.len() + later@.len() == all.len(),
            outcome_views(rest@) == all.take(rest@.len() as int),
            forall|i: int|
                0 <= i < later@.len() ==> outcome_view(#[trigger] later@[i]) == all[all.len() - 1 - i],
            forall|i: int| 0 <= i < rest@.len() ==> (#[trigger] rest@[i] matches Some(o) ==> o.wf()),
            forall|i: int| 0 <= i < later@.len() ==> (#[trigger] later@[i] matches Some(o) ==> o.wf()),
        decreases rest@.len(),
    {
        let ghost before = rest@;
        match rest.pop() {
            Some(o) => {
                proof {
                    assert(rest@ =~= before.drop_last());
                    assert(outcome_views(rest@) =~= outcome_views(before).drop_last());
                    assert(outcome_views(rest@) =~= all.take(rest@.len() as int));
                    assert(outcome_views(before)[before.len() - 1] == outcome_view(o));
                }
                later.push(o);
            },
            None => {},
        }
    }
    let mut lat = Latencies::default();
    assert(all.take(0) =~= Seq::empty());
    while later.len() > 0
        invariant
            later@.len() <= all.len(),
            lat.wf(),
            lat@ == all_latencies(all.take(all.len() - later@.len())),
            forall|i: int|
                0 <= i < later@.len() ==> outcome_view(#[trigger] later@[i]) == all[all.len() - 1 - i],
            forall|i: int| 0 <= i < later@.len() ==> (#[trigger] later@[i] matches Some(o) ==> o.wf()),
            forall|i: int|
                0 <= i < all.len() ==> (latencies_of(#[trigger] all[i]) matches Some(l) ==> l.success
                    >= 0 && l.failed >= 0),
            all_latencies(all).success <= i64::MAX,
            all_latencies(all).failed <= i64::MAX,
        decreases later@.len(),
    {
        let ghost before = later@;
        let ghost k = all.len() - before.len();
        match later.pop() {
            Some(o) => {
                proof {
                    assert(later@ =~= before.drop_last());
                    assert(before[before.len() - 1] == o);
                    assert(outcome_view(o) == all[k]);
                    assert(all.take(k + 1).drop_last() =~= all.take(k));
                    assert(all.take(k + 1).last() == all[k]);
                    lemma_latencies_grow(all, k + 1);
                }
                match o {
                    Some(Outcome::Dial(l)) => {
                        lat.merge(l);
                    },
                    Some(Outcome::Echo(l)) => {
                        lat.merge(l);
                    },
                    _ => {},
                }
            },
            None => {},
        }
    }
    assert(all.take(all.len() as int) =~= all);
    lat
}

/// Whether outcomes fit together in what they count.
pub fn latencies_fit(outcomes: &Vec<Option<Outcome>>) -> (r: bool)
    requires
        forall|i: int|
            0 <= i < outcomes@.len() ==> (#[trigger] outcomes@[i] matches Some(o) ==> o.wf()),
    ensures
        r == (all_latencies(outcome_views(outcomes@)).success <= i64::MAX && all_latencies(
            outcome_views(outcomes@),
        ).failed <= i64::MAX),
{
    let ghost all = outcome_views(outcomes@);
    proof {
        assert forall|i: int| 0 <= i < all.len() implies (latencies_of(#[trigger] all[i]) matches Some(
            l,
        ) ==> l.success >= 0 && l.failed >= 0) by {
            assert(all[i] == outcome_view(outcomes@[i]));
        }
        assert(all.take(0) =~= Seq::empty());
    }
    let mut success: i128 = 0;
    let mut failed: i128 = 0;
    let mut i: usize = 0;
    while i < outcomes.len()
        invariant
            i <= outcomes@.len(),
            all == outcome_views(outcomes@),
            success == all_latencies(all.take(i as int)).success,
            failed == all_latencies(all.take(i as int)).failed,
            0 <= success <= 0x7fff_ffff_ffff_ffff * i,
            0 <= failed <= 0x7fff_ffff_ffff_ffff * i,
            forall|i: int|
                0 <= i < all.len() ==> (latencies_of(#[trigger] all[i]) matches Some(l) ==> l.success
                    >= 0 && l.failed >= 0),
        decreases outcomes@.len() - i,
    {
        proof {
            assert(all.take(i + 1).drop_last() =~= all.take(i as int));
            assert(all[i as int] == outcome_view(outcomes@[i as int]));
            assert(latencies_of(all[i as int]) matches Some(l) ==> l.success >= 0 && l.failed >= 0);
        }
        match &outcomes[i] {
            Some(Outcome::Dial(l)) => {
                success += l.success as i128;
                failed += l.failed as i128;
            },
            Some(Outcome::Echo(l)) => {
                success += l.success as i128;
                failed += l.failed as i128;
            },
            _ => {},
        }
        i += 1;
    }
    assert(all.take(i as int) =~= all);
    success <= 0x7fff_ffff_ffff_ffff && failed <= 0x7fff_ffff_ffff_ffff
}

/// What BenchMultiplex counted over all workers.
pub struct Counted {
    pub send_times: nat,
    pub send_bytes: nat,
    pub recv_times: nat,
    pub recv_bytes: nat,
}

pub open spec fn all_counts(s: Seq<Option<OutcomeView>>) -> Counted
    decreases s.len(),
{
    if s.len() == 0 {
        Counted { send_times: 0, send_bytes: 0, recv_times: 0, recv_bytes: 0 }
    } else {
        let c = all_counts(s.drop_last());
        match s.last() {
            Some(OutcomeView::Rate(r)) => Counted {
                send_times: c.send_times + r.send_times as nat,
                send_bytes: c.send_bytes + r.send_bytes as nat,
                recv_times: c.recv_times + r.recv_times as nat,
                recv_bytes: c.recv_bytes + r.recv_bytes as nat,
            },
            _ => c,
        }
    }
}

/// Adds the workers' counts up, if the sums fit.
pub fn merge_counts(outcomes: &Vec<Option<Outcome>>) -> (r: Option<RateCounts>)
    ensures
        ({
            let c = all_counts(outcome_views(outcomes@));
            match r {
                Some(n) => n.send_times == c.send_times && n.send_bytes == c.send_bytes
                    && n.recv_times == c.recv_times && n.recv_bytes == c.recv_bytes && n.answered
                    == 0,
                None => c.send_times > u64::MAX || c.send_bytes > u64::MAX || c.recv_times
                    > u64::MAX || c.recv_bytes > u64::MAX,
            }
        }),
{
    let ghost all = outcome_views(outcomes@);
    let mut a: u128 = 0;
    let mut b: u128 = 0;
    let mut c: u128 = 0;
    let mut d: u128 = 0;
    let mut i: usize = 0;
    assert(all.take(0) =~= Seq::empty());
    while i < outcomes.len()
        invariant
            i <= outcomes@.len(),
            all == outcome_views(outcomes@),
            a == all_counts(all.take(i as int)).send_times,
            b == all_counts(all.take(i as int)).send_bytes,
            c == all_counts(all.take(i as int)).recv_times,
            d == all_counts(all.take(i as int)).recv_bytes,
            a <= 0xffff_ffff_ffff_ffff * i,
            b <= 0xffff_ffff_ffff_ffff * i,
            c <= 0xffff_ffff_ffff_ffff * i,
            d <= 0xffff_ffff_ffff_ffff * i,
        decreases outcomes@.len() - i,
    {
        proof {
            assert(all.take(i + 1).drop_last() =~= all.take(i as int));
            assert(all[i as int] == outcome_view(outcomes@[i as int]));
        }
        match &outcomes[i] {
            Some(Outcome::Rate(r)) => {
                a += r.send_times as u128;
                b += r.send_bytes as u128;
                c += r.recv_times as u128;
                d += r.recv_bytes as u128;
            },
            _ => {},
        }
        i += 1;
    }
    assert(all.take(i as int) =~= all);
    let max: u128 = u64::MAX as u128;
    if a <= max && b <= max && c <= max && d <= max {
        Some(
            RateCounts {
                send_times: a as u64,
                send_bytes: b as u64,
                recv_times: c as u64,
                recv_bytes: d as u64,
                answered: 0,
            },
        )
    } else {
        None
    }
}

proof fn lemma_together(a: LatenciesView)
    ensures
        a.merge(LatenciesView::none()) == a,
        LatenciesView::none().merge(a) == a,
{
    assert(a.merge(LatenciesView::none()).costs =~= a.costs);
    assert(a.merge(LatenciesView::none()).errors =~= a.errors);
    assert(LatenciesView::none().merge(a).costs =~= a.costs);
    assert(LatenciesView::none().merge(a).errors =~= a.errors);
}

/// What workers' latencies come to is those of some of them merged with those of the
/// rest; one worker's are its own, whether of Connections or of BenchEcho, and a
/// worker that has none adds nothing.
pub proof fn every_worker_is_merged_once(
    a: Seq<Option<OutcomeView>>,
    b: Seq<Option<OutcomeView>>,
    l: LatenciesView,
)
    ensures
        all_latencies(Seq::empty()) == LatenciesView::none(),
        all_latencies(seq![Some(OutcomeView::Dial(l))]) == l,
        all_latencies(seq![Some(OutcomeView::Echo(l))]) == l,
        all_latencies(seq![None]) == LatenciesView::none(),
        all_latencies(a + b) == all_latencies(a).merge(all_latencies(b)),
    decreases b.len(),
{
    let none = Seq::<Option<OutcomeView>>::empty();
    lemma_together(l);
    lemma_together(all_latencies(a));
    assert(seq![Some(OutcomeView::Dial(l))].drop_last() =~= none);
    assert(seq![Some(OutcomeView::Echo(l))].drop_last() =~= none);
    assert(seq![None::<OutcomeView>].drop_last() =~= none);
    assert(latencies_of(seq![None::<OutcomeView>].last()) is None);
    assert(all_latencies(none) == LatenciesView::none());
    if b.len() == 0 {
        assert(a + b =~= a);
    } else {
        let less = b.drop_last();
        every_worker_is_merged_once(a, less, l);
        assert((a + b).drop_last() =~= a + less);
        match latencies_of(b.last()) {
            Some(m) => {
                crate::stats::merging_is_associative(all_latencies(a), all_latencies(less), m);
            },
            None => {},
        }
    }
}

/// What workers' counts come to is those of some of them and those of the rest added
/// up; one worker's are its own, and a worker that has none adds nothing.
pub proof fn every_worker_is_counted_once(
    a: Seq<Option<OutcomeView>>,
    b: Seq<Option<OutcomeView>>,
    r: RateCounts,
)
    ensures
        ({
            let one = all_counts(seq![Some(OutcomeView::Rate(r))]);
            let x = all_counts(a);
            let y = all_counts(b);
            let all = all_counts(a + b);
            &&& one.send_times == r.send_times && one.send_bytes == r.send_bytes
            &&& one.recv_times == r.recv_times && one.recv_bytes == r.recv_bytes
            &&& all_counts(seq![None]).send_times == 0 && all_counts(seq![None]).recv_times == 0
            &&& all.send_times == x.send_times + y.send_times
            &&& all.send_bytes == x.send_bytes + y.send_bytes
            &&& all.recv_times == x.recv_times + y.recv_times
            &&& all.recv_bytes == x.recv_bytes + y.recv_bytes
        }),
    decreases b.len(),
{
    let none = Seq::<Option<OutcomeView>>::empty();
    assert(seq![Some(OutcomeView::Rate(r))].drop_last() =~= none);
    assert(seq![None::<OutcomeView>].drop_last() =~= none);
    assert(seq![None::<OutcomeView>].last() is None);
    assert(all_counts(none).send_times == 0);
    if b.len() == 0 {
        assert(a + b =~= a);
    } else {
        every_worker_is_counted_once(a, b.drop_last(), r);
        assert((a + b).drop_last() =~= a + b.drop_last());
    }
}

/// All have come back exactly if none is missing.
pub proof fn none_is_missing_when_all_came_back(s: Seq<Option<OutcomeView>>)
    ensures
        missing(s) == 0 <==> forall|i: int| 0 <= i < s.len() ==> (#[trigger] s[i]) is Some,
    decreases s.len(),
{
    if missing(s) == 0 {
        lemma_none_missing(s);
    }
    if s.len() > 0 && forall|i: int| 0 <= i < s.len() ==> (#[trigger] s[i]) is Some {
        let less = s.drop_last();
        assert forall|i: int| 0 <= i < less.len() implies (#[trigger] less[i]) is Some by {
            assert(less[i] == s[i]);
        }
        none_is_missing_when_all_came_back(less);
        assert(s[s.len() - 1] is Some);
    }
}

} // verus!
