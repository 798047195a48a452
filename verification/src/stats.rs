//! What a benchmark's latencies come to: TPS is successes per second of the
//! whole run, Avg is the mean of the successes, and TPn is the latency at index
//! floor(n/100 * successes) of the sorted successes.

use std::time::Duration;
use vstd::prelude::*;

use crate::fixed::fixed2_text;
use crate::text;
use crate::text::{i64_text, same};

verus! {

/// Errors by their texts, with how often each came.
pub struct ErrorCounts {
    texts: Vec<String>,
    counts: Vec<u64>,
}

/// How often each error came.
pub type ErrorMap = Map<Seq<char>, nat>;

pub open spec fn count_of(m: ErrorMap, e: Seq<char>) -> nat {
    if m.contains_key(e) {
        m[e]
    } else {
        0
    }
}

/// Counts an error `by` times more.
pub open spec fn counted(m: ErrorMap, e: Seq<char>, by: nat) -> ErrorMap {
    m.insert(e, count_of(m, e) + by)
}

/// Both maps' errors, the ones they share counted together.
pub open spec fn counted_together(a: ErrorMap, b: ErrorMap) -> ErrorMap {
    Map::new(
        |e: Seq<char>| a.contains_key(e) || b.contains_key(e),
        |e: Seq<char>| count_of(a, e) + count_of(b, e),
    )
}

/// How often errors came, all of them together.
pub open spec fn total_errors(m: ErrorMap) -> nat
    decreases m.dom().len(),
    when m.dom().finite()
{
    if m.dom().len() == 0 {
        0
    } else {
        let e = m.dom().choose();
        m[e] + total_errors(m.remove(e))
    }
}

/// The total is the same whichever error is counted first.
proof fn lemma_total_remove(m: ErrorMap, e: Seq<char>)
    requires
        m.dom().finite(),
        m.contains_key(e),
    ensures
        total_errors(m) == m[e] + total_errors(m.remove(e)),
    decreases m.dom().len(),
{
    let c = m.dom().choose();
    if c != e {
        lemma_total_remove(m.remove(c), e);
        lemma_total_remove(m.remove(e), c);
        assert(m.remove(c).remove(e) =~= m.remove(e).remove(c));
    }
}

proof fn lemma_count_in_total(m: ErrorMap, e: Seq<char>)
    requires
        m.dom().finite(),
    ensures
        count_of(m, e) <= total_errors(m),
{
    if m.contains_key(e) {
        lemma_total_remove(m, e);
    }
}

proof fn lemma_total_counted(m: ErrorMap, e: Seq<char>, by: nat)
    requires
        m.dom().finite(),
    ensures
        counted(m, e, by).dom().finite(),
        total_errors(counted(m, e, by)) == total_errors(m) + by,
{
    let n = counted(m, e, by);
    assert(n.dom() =~= m.dom().insert(e));
    lemma_total_remove(n, e);
    assert(n.remove(e) =~= m.remove(e));
    if m.contains_key(e) {
        lemma_total_remove(m, e);
    } else {
        assert(m.remove(e) =~= m);
    }
}

proof fn lemma_total_together(a: ErrorMap, b: ErrorMap)
    requires
        a.dom().finite(),
        b.dom().finite(),
    ensures
        counted_together(a, b).dom().finite(),
        total_errors(counted_together(a, b)) == total_errors(a) + total_errors(b),
    decreases b.dom().len(),
{
    if b.dom().len() == 0 {
        assert(counted_together(a, b) =~= a);
    } else {
        let e = b.dom().choose();
        let less = b.remove(e);
        lemma_total_together(a, less);
        lemma_total_counted(counted_together(a, less), e, b[e]);
        assert(counted_together(a, b) =~= counted(counted_together(a, less), e, b[e]));
    }
}

impl View for ErrorCounts {
    type V = ErrorMap;

    closed spec fn view(&self) -> ErrorMap {
        Map::new(
            |e: Seq<char>| exists|i: int| self.has(e, i),
            |e: Seq<char>| self.counts@[choose|i: int| self.has(e, i)] as nat,
        )
    }
}

impl ErrorCounts {
    spec fn has(&self, e: Seq<char>, i: int) -> bool {
        0 <= i < self.texts@.len() && self.texts@[i]@ == e
    }

    /// Whether each error stands here once.
    pub closed spec fn wf(&self) -> bool {
        &&& self.texts@.len() == self.counts@.len()
        &&& forall|i: int, j: int|
            0 <= i < j < self.texts@.len() ==> #[trigger] self.texts@[i]@ != #[trigger] self.texts@[j]@
    }

    proof fn lemma_at(&self, i: int)
        requires
            self.wf(),
            0 <= i < self.texts@.len(),
        ensures
            self@.contains_key(self.texts@[i]@),
            self@[self.texts@[i]@] == self.counts@[i],
    {
        let e = self.texts@[i]@;
        assert(self.has(e, i));
        let j = choose|j: int| self.has(e, j);
        assert(i == j);
    }

    pub fn new() -> (c: Self)
        ensures
            c.wf(),
            c@ == ErrorMap::empty(),
    {
        let c = ErrorCounts { texts: Vec::new(), counts: Vec::new() };
        assert(c@ =~= ErrorMap::empty());
        c
    }

    pub fn is_empty(&self) -> (r: bool)
        requires
            self.wf(),
        ensures
            r == (self@ == ErrorMap::empty()),
    {
        proof {
            if self.texts@.len() > 0 {
                self.lemma_at(0);
            } else {
                assert(self@ =~= ErrorMap::empty());
            }
        }
        self.texts.is_empty()
    }

    /// How often an error came.
    pub fn count(&self, e: &str) -> (n: u64)
        requires
            self.wf(),
        ensures
            n == count_of(self@, e@),
    {
        match self.find(e) {
            Some(i) => {
                proof {
                    self.lemma_at(i as int);
                }
                self.counts[i]
            },
            None => 0,
        }
    }

    /// Each error once, with how often it came.
    pub fn list(&self) -> (v: Vec<(String, u64)>)
        requires
            self.wf(),
        ensures
            forall|e: Seq<char>|
                self@.contains_key(e) <==> exists|i: int|
                    0 <= i < v@.len() && (#[trigger] v@[i]).0@ == e,
            forall|i: int|
                0 <= i < v@.len() ==> self@.contains_key((#[trigger] v@[i]).0@) && self@[v@[i].0@]
                    == v@[i].1,
            forall|i: int, j: int|
                0 <= i < j < v@.len() ==> (#[trigger] v@[i]).0@ != (#[trigger] v@[j]).0@,
    {
        let mut v: Vec<(String, u64)> = Vec::new();
        let mut i: usize = 0;
        while i < self.texts.len()
            invariant
                self.wf(),
                i <= self.texts@.len(),
                v@.len() == i,
                forall|k: int|
                    0 <= k < i ==> (#[trigger] v@[k]).0@ == self.texts@[k]@ && v@[k].1
                        == self.counts@[k],
            decreases self.texts@.len() - i,
        {
            v.push((self.texts[i].as_str().to_owned(), self.counts[i]));
            i += 1;
        }
        proof {
            assert forall|k: int| 0 <= k < v@.len() implies self@.contains_key(
                (#[trigger] v@[k]).0@,
            ) && self@[v@[k].0@] == v@[k].1 by {
                self.lemma_at(k);
            }
            assert forall|e: Seq<char>| self@.contains_key(e) implies exists|k: int|
                0 <= k < v@.len() && (#[trigger] v@[k]).0@ == e by {
                let k = choose|k: int| self.has(e, k);
                assert(v@[k].0@ == e);
            }
        }
        v
    }

    fn find(&self, e: &str) -> (r: Option<usize>)
        requires
            self.wf(),
        ensures
            match r {
                Some(i) => self.has(e@, i as int),
                None => !self@.contains_key(e@),
            },
    {
        let mut i: usize = 0;
        while i < self.texts.len()
            invariant
                i <= self.texts@.len(),
                forall|k: int| 0 <= k < i ==> self.texts@[k]@ != e@,
            decreases self.texts@.len() - i,
        {
            if same(self.texts[i].as_str(), e) {
                return Some(i);
            }
            i += 1;
        }
        None
    }

    /// Counts an error `by` times more.
    pub fn add_count(&mut self, e: &str, by: u64)
        requires
            old(self).wf(),
            count_of(old(self)@, e@) + by <= u64::MAX,
        ensures
            final(self).wf(),
            final(self)@ == counted(old(self)@, e@, by as nat),
    {
        let ghost before = *self;
        match self.find(e) {
            Some(i) => {
                proof {
                    self.lemma_at(i as int);
                }
                let n: u64 = self.counts[i];
                self.counts.set(i, n + by);
                proof {
                    assert(self.wf());
                    assert forall|x: Seq<char>| self@.contains_key(x) <==> counted(
                        before@,
                        e@,
                        by as nat,
                    ).contains_key(x) by {
                        assert(self.has(e@, i as int));
                        assert(forall|k: int| self.has(x, k) <==> #[trigger] before.has(x, k));
                        if self@.contains_key(x) {
                            let k = choose|k: int| self.has(x, k);
                            assert(before.has(x, k));
                        }
                    }
                    assert forall|x: Seq<char>| self@.contains_key(x) implies self@[x] == counted(
                        before@,
                        e@,
                        by as nat,
                    )[x] by {
                        let k = choose|k: int| self.has(x, k);
                        self.lemma_at(k);
                        before.lemma_at(k);
                    }
                    assert(self@ =~= counted(before@, e@, by as nat));
                }
            },
            None => {
                self.texts.push(e.to_owned());
                self.counts.push(by);
                proof {
                    let last = self.texts@.len() - 1;
                    assert(self.wf()) by {
                        assert forall|i: int, j: int|
                            0 <= i < j < self.texts@.len() implies #[trigger] self.texts@[i]@
                            != #[trigger] self.texts@[j]@ by {
                            if j == last {
                                if self.texts@[i]@ == e@ {
                                    assert(before.has(e@, i));
                                }
                            }
                        }
                    }
                    assert forall|x: Seq<char>| self@.contains_key(x) <==> counted(
                        before@,
                        e@,
                        by as nat,
                    ).contains_key(x) by {
                        assert(self.has(e@, last));
                        if before@.contains_key(x) {
                            let k = choose|k: int| before.has(x, k);
                            assert(self.has(x, k));
                        }
                        if self@.contains_key(x) {
                            let k = choose|k: int| self.has(x, k);
                            if k < last {
                                assert(before.has(x, k));
                            }
                        }
                    }
                    assert forall|x: Seq<char>| self@.contains_key(x) implies self@[x] == counted(
                        before@,
                        e@,
                        by as nat,
                    )[x] by {
                        let k = choose|k: int| self.has(x, k);
                        self.lemma_at(k);
                        if k < last {
                            before.lemma_at(k);
                        }
                    }
                    assert(self@ =~= counted(before@, e@, by as nat));
                }
            },
        }
    }

    /// Counts another's errors too.
    pub fn merge(&mut self, other: &ErrorCounts)
        requires
            old(self).wf(),
            other.wf(),
            forall|e: Seq<char>| count_of(old(self)@, e) + #[trigger] count_of(other@, e) <= u64::MAX,
        ensures
            final(self).wf(),
            final(self)@ == counted_together(old(self)@, other@),
    {
        let ghost before = *self;
        let mut i: usize = 0;
        while i < other.texts.len()
            invariant
                self.wf(),
                other.wf(),
                i <= other.texts@.len(),
                forall|e: Seq<char>|
                    count_of(before@, e) + #[trigger] count_of(other@, e) <= u64::MAX,
                forall|e: Seq<char>| #[trigger]
                    self@.contains_key(e) <==> before@.contains_key(e) || (exists|k: int|
                        k < i && #[trigger] other.has(e, k)),
                forall|e: Seq<char>| #[trigger]
                    count_of(self@, e) == count_of(before@, e) + (if exists|k: int|
                        k < i && #[trigger] other.has(e, k) {
                        count_of(other@, e)
                    } else {
                        0
                    }),
            decreases other.texts@.len() - i,
        {
            let ghost mid = *self;
            let ghost here = other.texts@[i as int]@;
            proof {
                other.lemma_at(i as int);
                assert(other.has(here, i as int));
                assert(!exists|k: int| k < i && #[trigger] other.has(here, k));
                assert(count_of(mid@, here) == count_of(before@, here));
                assert(count_of(before@, here) + count_of(other@, here) <= u64::MAX);
            }
            self.add_count(other.texts[i].as_str(), other.counts[i]);
            proof {
                assert forall|e: Seq<char>| #[trigger]
                    self@.contains_key(e) <==> before@.contains_key(e) || (exists|k: int|
                        k < i + 1 && #[trigger] other.has(e, k)) by {
                    assert(mid@.contains_key(e) <==> before@.contains_key(e) || (exists|k: int|
                        k < i && #[trigger] other.has(e, k)));
                }
                assert forall|e: Seq<char>| #[trigger]
                    count_of(self@, e) == count_of(before@, e) + (if exists|k: int|
                        k < i + 1 && #[trigger] other.has(e, k) {
                        count_of(other@, e)
                    } else {
                        0
                    }) by {
                    assert(count_of(mid@, e) == count_of(before@, e) + (if exists|k: int|
                        k < i && #[trigger] other.has(e, k) {
                        count_of(other@, e)
                    } else {
                        0
                    }));
                    if e == here {
                        assert(other.has(e, i as int));
                    }
                }
            }
            i += 1;
        }
        proof {
            assert forall|e: Seq<char>| self@.contains_key(e) <==> counted_together(
                before@,
                other@,
            ).contains_key(e) by {
                if other@.contains_key(e) {
                    let k = choose|k: int| other.has(e, k);
                    assert(k < i && other.has(e, k));
                }
            }
            assert forall|e: Seq<char>| self@.contains_key(e) implies self@[e] == counted_together(
                before@,
                other@,
            )[e] by {
                assert(self@[e] == count_of(self@, e));
                if other@.contains_key(e) {
                    let k = choose|k: int| other.has(e, k);
                    assert(k < i && other.has(e, k));
                } else {
                    assert(!exists|k: int| k < i && #[trigger] other.has(e, k));
                }
            }
            assert(self@ =~= counted_together(before@, other@));
        }
    }
}

/// The low 64 bits of a number, as a signed number.
pub open spec fn low_i64(n: nat) -> int {
    let m = n % 0x1_0000_0000_0000_0000;
    if m < 0x8000_0000_0000_0000 {
        m as int
    } else {
        m - 0x1_0000_0000_0000_0000
    }
}

pub fn low_bits(n: u128) -> (r: i64)
    ensures
        r == low_i64(n as nat),
{
    let m: u128 = n % 0x1_0000_0000_0000_0000;
    if m < 0x8000_0000_0000_0000 {
        m as i64
    } else {
        (m as i128 - 0x1_0000_0000_0000_0000) as i64
    }
}

/// A benchmark's outcomes.
pub struct Latencies {
    /// One entry per successful operation, in nanoseconds.
    pub costs: Vec<i64>,
    pub success: i64,
    pub failed: i64,
    pub errors: ErrorCounts,
}

#[verifier::ext_equal]
pub struct LatenciesView {
    pub costs: Seq<i64>,
    pub success: int,
    pub failed: int,
    pub errors: ErrorMap,
}

impl LatenciesView {
    pub open spec fn none() -> Self {
        LatenciesView { costs: Seq::empty(), success: 0, failed: 0, errors: ErrorMap::empty() }
    }

    /// One more success, which took `ns`.
    pub open spec fn ok(self, ns: nat) -> Self {
        LatenciesView {
            costs: self.costs.push(low_i64(ns) as i64),
            success: self.success + 1,
            ..self
        }
    }

    /// One more failure.
    pub open spec fn fail(self, e: Seq<char>) -> Self {
        LatenciesView { failed: self.failed + 1, errors: counted(self.errors, e, 1), ..self }
    }

    /// Whether every success has its cost, and every failure its error.
    pub open spec fn adds_up(self) -> bool {
        &&& self.success == self.costs.len()
        &&& self.errors.dom().finite()
        &&& self.failed == total_errors(self.errors)
    }

    /// The outcomes of both.
    pub open spec fn merge(self, other: Self) -> Self {
        LatenciesView {
            costs: self.costs + other.costs,
            success: self.success + other.success,
            failed: self.failed + other.failed,
            errors: counted_together(self.errors, other.errors),
        }
    }
}

impl View for Latencies {
    type V = LatenciesView;

    open spec fn view(&self) -> LatenciesView {
        LatenciesView {
            costs: self.costs@,
            success: self.success as int,
            failed: self.failed as int,
            errors: self.errors@,
        }
    }
}

impl Latencies {
    /// Whether every success has its cost, and every failure its error.
    pub open spec fn wf(&self) -> bool {
        &&& self.errors.wf()
        &&& self@.adds_up()
    }

    pub fn ok(&mut self, cost: Duration)
        requires
            old(self).wf(),
            old(self)@.success < i64::MAX,
        ensures
            final(self).wf(),
            final(self)@ == old(self)@.ok(crate::clock::duration_nanos(cost)),
    {
        self.costs.push(low_bits(cost.as_nanos()));
        self.success += 1;
    }

    pub fn fail(&mut self, err: &str)
        requires
            old(self).wf(),
            old(self)@.failed < i64::MAX,
        ensures
            final(self).wf(),
            final(self)@ == old(self)@.fail(err@),
    {
        proof {
            lemma_count_in_total(self.errors@, err@);
            lemma_total_counted(self.errors@, err@, 1);
        }
        self.failed += 1;
        self.errors.add_count(err, 1);
    }

    pub fn merge(&mut self, mut other: Latencies)
        requires
            old(self).wf(),
            other.wf(),
            old(self)@.success + other@.success <= i64::MAX,
            old(self)@.failed + other@.failed <= i64::MAX,
        ensures
            final(self).wf(),
            final(self)@ == old(self)@.merge(other@),
    {
        proof {
            lemma_total_together(self.errors@, other.errors@);
            assert forall|e: Seq<char>| count_of(self.errors@, e) + #[trigger] count_of(
                other.errors@,
                e,
            ) <= u64::MAX by {
                lemma_count_in_total(self.errors@, e);
                lemma_count_in_total(other.errors@, e);
            }
        }
        self.costs.append(&mut other.costs);
        self.success += other.success;
        self.failed += other.failed;
        self.errors.merge(&other.errors);
    }
}

impl Default for Latencies {
    fn default() -> (l: Self)
        ensures
            l.wf(),
            l@ == LatenciesView::none(),
    {
        Latencies { costs: Vec::new(), success: 0, failed: 0, errors: ErrorCounts::new() }
    }
}

/// However outcomes are recorded and merged, there are as many successes as costs
/// and as many failures as errors; and one more failure counts its own error once
/// more, and leaves the others and the successes as they were.
pub proof fn outcomes_add_up(a: LatenciesView, b: LatenciesView, ns: nat, e: Seq<char>)
    requires
        a.adds_up(),
        b.adds_up(),
    ensures
        LatenciesView::none().adds_up(),
        a.ok(ns).adds_up(),
        a.fail(e).adds_up(),
        a.merge(b).adds_up(),
        count_of(a.fail(e).errors, e) == count_of(a.errors, e) + 1,
        forall|x: Seq<char>|
            x != e ==> #[trigger] count_of(a.fail(e).errors, x) == count_of(a.errors, x),
        a.fail(e).costs == a.costs,
        a.fail(e).success == a.success,
{
    lemma_total_counted(a.errors, e, 1);
    lemma_total_together(a.errors, b.errors);
}

/// Merging two sets of outcomes one after the other is merging them together.
pub proof fn merging_is_associative(a: LatenciesView, b: LatenciesView, c: LatenciesView)
    ensures
        a.merge(b).merge(c) == a.merge(b.merge(c)),
{
    assert(a.merge(b).merge(c).costs =~= a.merge(b.merge(c)).costs);
    assert(a.merge(b).merge(c).errors =~= a.merge(b.merge(c)).errors);
}

/// Outcomes recorded elsewhere and merged in count as outcomes recorded here.
pub proof fn merging_records(a: LatenciesView, b: LatenciesView, ns: nat, e: Seq<char>)
    ensures
        a.merge(b.ok(ns)) == a.merge(b).ok(ns),
        a.merge(b.fail(e)) == a.merge(b).fail(e),
{
    assert(a.merge(b.ok(ns)).costs =~= a.merge(b).ok(ns).costs);
    assert(a.merge(b.fail(e)).errors =~= a.merge(b).fail(e).errors);
}

pub open spec fn at_most() -> spec_fn(i64, i64) -> bool {
    |a: i64, b: i64| a <= b
}

/// The costs from the smallest to the largest.
pub open spec fn sorted_costs(costs: Seq<i64>) -> Seq<i64> {
    costs.sort_by(at_most())
}

/// `slice::sort_unstable` puts the numbers in ascending order and keeps each
/// as often as it occurs.
#[verifier::external_body]
fn sort_numbers(v: &mut Vec<i64>)
    ensures
        forall|i: int, j: int| 0 <= i <= j < final(v)@.len() ==> final(v)@[i] <= final(v)@[j],
        final(v)@.to_multiset() == old(v)@.to_multiset(),
{
    v.sort_unstable();
}

fn sort_costs(v: &mut Vec<i64>)
    ensures
        final(v)@ == sorted_costs(old(v)@),
        final(v)@.len() == old(v)@.len(),
{
    let ghost before = v@;
    sort_numbers(v);
    proof {
        broadcast use vstd::seq_lib::group_to_multiset_ensures;

        assert(vstd::relations::total_ordering(at_most()));
        before.lemma_sort_by_ensures(at_most());
        assert(vstd::relations::sorted_by(v@, at_most()));
        vstd::seq_lib::lemma_sorted_unique(v@, sorted_costs(before), at_most());
        assert(v@.len() == v@.to_multiset().len());
        assert(before.len() == before.to_multiset().len());
    }
}

/// The sum of the costs.
pub open spec fn total(costs: Seq<i64>) -> int
    decreases costs.len(),
{
    if costs.len() == 0 {
        0
    } else {
        total(costs.drop_last()) + costs.last()
    }
}

/// The quotient rounded towards zero.
pub open spec fn quotient(a: int, n: nat) -> int {
    if a >= 0 {
        a / (n as int)
    } else {
        -((-a) / (n as int))
    }
}

pub open spec fn mean(costs: Seq<i64>) -> int {
    if costs.len() == 0 {
        0
    } else {
        quotient(total(costs), costs.len())
    }
}

/// The latency at index floor(p/100 * len) of the sorted costs.
pub open spec fn percentile(sorted: Seq<i64>, p: nat) -> int {
    if sorted.len() == 0 {
        0
    } else {
        sorted[(p * sorted.len() / 100) as int] as int
    }
}

/// Successes per second of a run of `used` nanoseconds, as far as they fit.
pub open spec fn per_second(success: int, used: nat) -> int {
    if used == 0 {
        0
    } else {
        let n = success * 1_000_000_000 / (used as int);
        if n > i64::MAX {
            i64::MAX as int
        } else {
            n
        }
    }
}

pub struct Summary {
    pub tps: i64,
    pub min: i64,
    pub avg: i64,
    pub max: i64,
    pub tp50: i64,
    pub tp75: i64,
    pub tp90: i64,
    pub tp95: i64,
    pub tp99: i64,
}

impl Summary {
    /// Whether this is what `sorted` costs of `success` operations in `used`
    /// nanoseconds come to.
    pub open spec fn sums_up(&self, sorted: Seq<i64>, success: int, used: nat) -> bool {
        &&& self.tps == per_second(success, used)
        &&& self.min == (if sorted.len() == 0 {
            0
        } else {
            sorted[0]
        })
        &&& self.max == (if sorted.len() == 0 {
            0
        } else {
            sorted.last()
        })
        &&& self.avg == mean(sorted)
        &&& self.tp50 == percentile(sorted, 50)
        &&& self.tp75 == percentile(sorted, 75)
        &&& self.tp90 == percentile(sorted, 90)
        &&& self.tp95 == percentile(sorted, 95)
        &&& self.tp99 == percentile(sorted, 99)
    }
}

fn mean_of(costs: &Vec<i64>) -> (r: i64)
    ensures
        r == mean(costs@),
{
    if costs.len() == 0 {
        return 0;
    }
    let mut sum: i128 = 0;
    let mut i: usize = 0;
    while i < costs.len()
        invariant
            i <= costs@.len(),
            sum == total(costs@.take(i as int)),
            -0x8000_0000_0000_0000 * i <= sum <= 0x7fff_ffff_ffff_ffff * i,
        decreases costs@.len() - i,
    {
        assert(costs@.take(i + 1).drop_last() =~= costs@.take(i as int));
        sum += costs[i] as i128;
        i += 1;
    }
    assert(costs@.take(i as int) =~= costs@);
    let n: i128 = costs.len() as i128;
    if sum >= 0 {
        assert(0 <= sum / n <= 0x7fff_ffff_ffff_ffff) by (nonlinear_arith)
            requires
                n > 0,
                0 <= sum <= 0x7fff_ffff_ffff_ffff * n,
        ;
        (sum / n) as i64
    } else {
        let up: i128 = -sum;
        assert(0 <= up / n <= 0x8000_0000_0000_0000) by (nonlinear_arith)
            requires
                n > 0,
                0 <= up <= 0x8000_0000_0000_0000 * n,
        ;
        (-(up / n)) as i64
    }
}

proof fn lemma_percentile_index(len: nat, p: nat)
    requires
        p < 100,
        len > 0,
    ensures
        0 <= p * len / 100 < len,
{
    assert(p * len <= 99 * len) by (nonlinear_arith)
        requires
            p < 100,
    ;
    assert(p * len >= 0) by (nonlinear_arith);
}

fn percentile_of(sorted: &Vec<i64>, p: u8) -> (r: i64)
    requires
        p < 100,
    ensures
        r == percentile(sorted@, p as nat),
{
    if sorted.len() == 0 {
        return 0;
    }
    proof {
        lemma_percentile_index(sorted@.len(), p as nat);
        assert(p * sorted@.len() <= 99 * sorted@.len()) by (nonlinear_arith)
            requires
                p < 100,
        ;
    }
    let at: u128 = p as u128 * sorted.len() as u128 / 100;
    sorted[at as usize]
}

fn rate_of(success: i64, used: u128) -> (r: i64)
    requires
        success >= 0,
    ensures
        r == per_second(success as int, used as nat),
{
    if used == 0 {
        return 0;
    }
    let n: u128 = success as u128 * 1_000_000_000 / used;
    if n > 0x7fff_ffff_ffff_ffff {
        i64::MAX
    } else {
        n as i64
    }
}

/// Sorts the costs and works out what they come to over a run of that length.
pub fn summarize(l: &mut Latencies, used: Duration) -> (s: Summary)
    requires
        old(l).wf(),
    ensures
        final(l).wf(),
        final(l)@ == (LatenciesView { costs: sorted_costs(old(l)@.costs), ..old(l)@ }),
        s.sums_up(final(l)@.costs, old(l)@.success, crate::clock::duration_nanos(used)),
{
    sort_costs(&mut l.costs);
    let (min, max): (i64, i64) = if l.costs.len() == 0 {
        (0, 0)
    } else {
        (l.costs[0], l.costs[l.costs.len() - 1])
    };
    Summary {
        tps: rate_of(l.success, used.as_nanos()),
        min,
        avg: mean_of(&l.costs),
        max,
        tp50: percentile_of(&l.costs, 50),
        tp75: percentile_of(&l.costs, 75),
        tp90: percentile_of(&l.costs, 90),
        tp95: percentile_of(&l.costs, 95),
        tp99: percentile_of(&l.costs, 99),
    }
}

proof fn lemma_sorted(costs: Seq<i64>)
    ensures
        sorted_costs(costs).len() == costs.len(),
        forall|i: int, j: int|
            0 <= i <= j < costs.len() ==> sorted_costs(costs)[i] <= sorted_costs(costs)[j],
{
    broadcast use vstd::seq_lib::group_to_multiset_ensures;

    assert(vstd::relations::total_ordering(at_most()));
    costs.lemma_sort_by_ensures(at_most());
    let s = sorted_costs(costs);
    assert(s.len() == s.to_multiset().len());
    assert(costs.len() == costs.to_multiset().len());
    assert forall|i: int, j: int| 0 <= i <= j < s.len() implies s[i] <= s[j] by {
        if i < j {
            assert(at_most()(s[i], s[j]));
        }
    }
}

proof fn lemma_total_bounds(s: Seq<i64>, low: int, high: int)
    requires
        forall|i: int| 0 <= i < s.len() ==> low <= #[trigger] s[i] <= high,
    ensures
        low * s.len() <= total(s) <= high * s.len(),
    decreases s.len(),
{
    if s.len() > 0 {
        assert forall|i: int| 0 <= i < s.drop_last().len() implies low <= #[trigger] s.drop_last()[i]
            <= high by {
            assert(s.drop_last()[i] == s[i]);
        }
        lemma_total_bounds(s.drop_last(), low, high);
        let n = s.drop_last().len();
        assert(low * (n + 1) == low * n + low) by (nonlinear_arith);
        assert(high * (n + 1) == high * n + high) by (nonlinear_arith);
    }
}

/// The columns of a summary are in order: the smallest latency, TP50 to TP99,
/// the largest, and the mean between the smallest and the largest.
pub proof fn columns_are_in_order(s: Summary, costs: Seq<i64>, success: int, used: nat)
    requires
        s.sums_up(sorted_costs(costs), success, used),
    ensures
        s.min <= s.tp50 <= s.tp75 <= s.tp90 <= s.tp95 <= s.tp99 <= s.max,
        s.min <= s.avg <= s.max,
{
    let v = sorted_costs(costs);
    lemma_sorted(costs);
    if v.len() > 0 {
        let n = v.len();
        lemma_percentile_index(n, 50);
        lemma_percentile_index(n, 75);
        lemma_percentile_index(n, 90);
        lemma_percentile_index(n, 95);
        lemma_percentile_index(n, 99);
        lemma_total_bounds(v, v[0] as int, v.last() as int);
        let t = total(v);
        let low = v[0] as int;
        let high = v.last() as int;
        if t >= 0 {
            assert(low <= t / (n as int) <= high) by (nonlinear_arith)
                requires
                    n > 0,
                    low * n <= t <= high * n,
            ;
        } else {
            let r = -t;
            assert(-high <= r / (n as int) <= -low) by (nonlinear_arith)
                requires
                    n > 0,
                    low * n <= -r <= high * n,
            ;
        }
    }
}

/// How much one number adds to a sum.
spec fn adding() -> spec_fn(int, i64) -> int {
    |t: int, c: i64| t + c
}

/// How much one number adds to how many there are of its like.
spec fn telling(f: spec_fn(i64) -> bool) -> spec_fn(int, i64) -> int {
    |t: int, c: i64|
        if f(c) {
            t + 1
        } else {
            t
        }
}

proof fn lemma_total_is_sum(s: Seq<i64>)
    ensures
        total(s) == s.fold_left(0int, adding()),
    decreases s.len(),
{
    reveal_with_fuel(Seq::fold_left, 2);
    if s.len() > 0 {
        lemma_total_is_sum(s.drop_last());
    }
}

proof fn lemma_filter_is_told(s: Seq<i64>, f: spec_fn(i64) -> bool)
    ensures
        s.filter(f).len() == s.fold_left(0int, telling(f)),
    decreases s.len(),
{
    reveal(Seq::filter);
    reveal_with_fuel(Seq::fold_left, 2);
    if s.len() > 0 {
        lemma_filter_is_told(s.drop_last(), f);
    }
}

/// As many of the costs are like that as of the sorted ones.
proof fn lemma_sorted_alike(costs: Seq<i64>, f: spec_fn(i64) -> bool)
    ensures
        sorted_costs(costs).filter(f).len() == costs.filter(f).len(),
        sorted_costs(costs).fold_left(0int, adding()) == costs.fold_left(0int, adding()),
{
    assert(vstd::relations::total_ordering(at_most()));
    costs.lemma_sort_by_ensures(at_most());
    lemma_filter_is_told(costs, f);
    lemma_filter_is_told(sorted_costs(costs), f);
    vstd::seq_lib::lemma_fold_left_permutation(sorted_costs(costs), costs, telling(f), 0int);
    vstd::seq_lib::lemma_fold_left_permutation(sorted_costs(costs), costs, adding(), 0int);
}

proof fn lemma_filter_all(s: Seq<i64>, f: spec_fn(i64) -> bool)
    requires
        forall|i: int| 0 <= i < s.len() ==> f(#[trigger] s[i]),
    ensures
        s.filter(f).len() == s.len(),
    decreases s.len(),
{
    reveal(Seq::filter);
    if s.len() > 0 {
        assert forall|i: int| 0 <= i < s.drop_last().len() implies f(#[trigger] s.drop_last()[i]) by {
            assert(s.drop_last()[i] == s[i]);
        }
        lemma_filter_all(s.drop_last(), f);
        assert(f(s[s.len() - 1]));
    }
}

proof fn lemma_filter_none(s: Seq<i64>, f: spec_fn(i64) -> bool)
    requires
        forall|i: int| 0 <= i < s.len() ==> !f(#[trigger] s[i]),
    ensures
        s.filter(f).len() == 0,
    decreases s.len(),
{
    reveal(Seq::filter);
    if s.len() > 0 {
        assert forall|i: int| 0 <= i < s.drop_last().len() implies !f(#[trigger] s.drop_last()[i]) by {
            assert(s.drop_last()[i] == s[i]);
        }
        lemma_filter_none(s.drop_last(), f);
        assert(!f(s[s.len() - 1]));
    }
}

/// Of numbers in order, no more are smaller than the `k`th than come before it, and
/// at least those and itself are no larger.
proof fn lemma_rank(s: Seq<i64>, k: int)
    requires
        0 <= k < s.len(),
        forall|i: int, j: int| 0 <= i <= j < s.len() ==> s[i] <= s[j],
    ensures
        s.filter(|c: i64| c < s[k]).len() <= k,
        s.filter(|c: i64| c <= s[k]).len() > k,
{
    broadcast use vstd::seq_lib::group_filter_ensures;

    let below = |c: i64| c < s[k];
    let to = |c: i64| c <= s[k];
    assert(s =~= s.take(k) + s.skip(k));
    Seq::filter_distributes_over_add(s.take(k), s.skip(k), below);
    assert forall|i: int| 0 <= i < s.skip(k).len() implies !below(#[trigger] s.skip(k)[i]) by {
        assert(s.skip(k)[i] == s[k + i]);
    }
    lemma_filter_none(s.skip(k), below);
    s.take(k).lemma_filter_len(below);
    assert(s =~= s.take(k + 1) + s.skip(k + 1));
    Seq::filter_distributes_over_add(s.take(k + 1), s.skip(k + 1), to);
    assert forall|i: int| 0 <= i < s.take(k + 1).len() implies to(#[trigger] s.take(k + 1)[i]) by {
        assert(s.take(k + 1)[i] == s[i]);
    }
    lemma_filter_all(s.take(k + 1), to);
}

proof fn lemma_is_percentile(costs: Seq<i64>, p: nat, t: i64)
    requires
        costs.len() > 0,
        p < 100,
        t == percentile(sorted_costs(costs), p),
    ensures
        100 * costs.filter(|c: i64| c < t).len() <= p * costs.len(),
        100 * costs.filter(|c: i64| c <= t).len() > p * costs.len(),
{
    let v = sorted_costs(costs);
    let k = (p * v.len() / 100) as int;
    lemma_sorted(costs);
    lemma_percentile_index(v.len(), p);
    lemma_rank(v, k);
    assert(v[k] == t);
    let below = |c: i64| c < t;
    let to = |c: i64| c <= t;
    assert(below =~= |c: i64| c < v[k]);
    assert(to =~= |c: i64| c <= v[k]);
    lemma_sorted_alike(costs, below);
    lemma_sorted_alike(costs, to);
}

/// TPn is the latency that at most n percent of the successes were faster than,
/// and more than n percent were no slower than.
pub proof fn percentiles_divide_the_costs(s: Summary, costs: Seq<i64>, success: int, used: nat)
    requires
        s.sums_up(sorted_costs(costs), success, used),
        costs.len() > 0,
    ensures
        100 * costs.filter(|c: i64| c < s.tp50).len() <= 50 * costs.len(),
        100 * costs.filter(|c: i64| c <= s.tp50).len() > 50 * costs.len(),
        100 * costs.filter(|c: i64| c < s.tp75).len() <= 75 * costs.len(),
        100 * costs.filter(|c: i64| c <= s.tp75).len() > 75 * costs.len(),
        100 * costs.filter(|c: i64| c < s.tp90).len() <= 90 * costs.len(),
        100 * costs.filter(|c: i64| c <= s.tp90).len() > 90 * costs.len(),
        100 * costs.filter(|c: i64| c < s.tp95).len() <= 95 * costs.len(),
        100 * costs.filter(|c: i64| c <= s.tp95).len() > 95 * costs.len(),
        100 * costs.filter(|c: i64| c < s.tp99).len() <= 99 * costs.len(),
        100 * costs.filter(|c: i64| c <= s.tp99).len() > 99 * costs.len(),
{
    lemma_is_percentile(costs, 50, s.tp50);
    lemma_is_percentile(costs, 75, s.tp75);
    lemma_is_percentile(costs, 90, s.tp90);
    lemma_is_percentile(costs, 95, s.tp95);
    lemma_is_percentile(costs, 99, s.tp99);
}

/// Min and Max are latencies of successes that no success was below or above.
pub proof fn min_and_max_are_costs(s: Summary, costs: Seq<i64>, success: int, used: nat)
    requires
        s.sums_up(sorted_costs(costs), success, used),
        costs.len() > 0,
    ensures
        costs.contains(s.min),
        costs.contains(s.max),
        forall|i: int| 0 <= i < costs.len() ==> s.min <= #[trigger] costs[i] <= s.max,
{
    broadcast use vstd::seq_lib::group_to_multiset_ensures;

    let v = sorted_costs(costs);
    lemma_sorted(costs);
    assert(vstd::relations::total_ordering(at_most()));
    costs.lemma_sort_by_ensures(at_most());
    assert(v.contains(v[0]));
    assert(v.contains(v[v.len() - 1]));
    assert forall|i: int| 0 <= i < costs.len() implies s.min <= #[trigger] costs[i] <= s.max by {
        assert(costs.to_multiset().count(costs[i]) > 0);
        assert(v.contains(costs[i]));
        let k = choose|k: int| 0 <= k < v.len() && v[k] == costs[i];
        assert(v[0] <= v[k] <= v[v.len() - 1]);
    }
}

/// Avg times the number of successes is the sum of their latencies, up to what a
/// division leaves over.
pub proof fn the_mean_is_the_sum_divided(s: Summary, costs: Seq<i64>, success: int, used: nat)
    requires
        s.sums_up(sorted_costs(costs), success, used),
        costs.len() > 0,
    ensures
        ({
            let sum = costs.fold_left(0int, |t: int, c: i64| t + c);
            let n = costs.len();
            &&& sum >= 0 ==> s.avg * n <= sum < (s.avg + 1) * n
            &&& sum <= 0 ==> (s.avg - 1) * n < sum <= s.avg * n
        }),
{
    let v = sorted_costs(costs);
    let n = costs.len() as int;
    let sum = total(v);
    let a = s.avg as int;
    lemma_sorted(costs);
    lemma_sorted_alike(costs, |c: i64| true);
    lemma_total_is_sum(v);
    assert(adding() =~= |t: int, c: i64| t + c);
    if sum >= 0 {
        assert(a * n <= sum < (a + 1) * n) by (nonlinear_arith)
            requires
                n > 0,
                sum >= 0,
                a == sum / n,
        ;
        if sum == 0 {
            assert(a == 0) by (nonlinear_arith)
                requires
                    n > 0,
                    a == 0int / n,
            ;
            assert((a - 1) * n < 0 && a * n == 0) by (nonlinear_arith)
                requires
                    a == 0,
                    n > 0,
            ;
        }
    } else {
        let up = -sum;
        assert((a - 1) * n < sum <= a * n) by (nonlinear_arith)
            requires
                n > 0,
                up == -sum,
                a == -(up / n),
        ;
    }
}

/// TPS is how many whole successes fit in each second of the run: where it fits, as
/// many a second for the run's length are no more than there were, and one more a
/// second would be too many.
pub proof fn tps_is_successes_per_second(s: Summary, sorted: Seq<i64>, success: int, used: nat)
    requires
        s.sums_up(sorted, success, used),
        success >= 0,
        used > 0,
    ensures
        s.tps * used <= success * 1_000_000_000,
        s.tps < i64::MAX ==> success * 1_000_000_000 < (s.tps + 1) * used,
{
    let a = success * 1_000_000_000;
    let u = used as int;
    let q = a / u;
    assert(q * u <= a < (q + 1) * u) by (nonlinear_arith)
        requires
            u > 0,
            q == a / u,
    ;
    let t = s.tps as int;
    assert(t * u <= q * u) by (nonlinear_arith)
        requires
            t <= q,
            u > 0,
    ;
}

/// A success that took less than three centuries is recorded with the nanoseconds
/// that it took, behind those recorded before.
pub proof fn a_success_is_recorded_as_it_was(l: LatenciesView, ns: nat)
    requires
        ns <= i64::MAX,
    ensures
        l.ok(ns).costs.len() == l.costs.len() + 1,
        l.ok(ns).costs.last() == ns,
        l.ok(ns).costs.drop_last() == l.costs,
        l.ok(ns).success == l.success + 1,
        l.ok(ns).failed == l.failed,
        l.ok(ns).errors == l.errors,
{
    assert(l.ok(ns).costs.drop_last() =~= l.costs);
}

/// Merged outcomes have the successes of both, with what each took, and every error
/// as often as both together.
pub proof fn merged_outcomes_are_of_both(a: LatenciesView, b: LatenciesView, c: i64, e: Seq<char>)
    ensures
        a.merge(b).success == a.success + b.success,
        a.merge(b).failed == a.failed + b.failed,
        a.merge(b).costs.to_multiset().count(c) == a.costs.to_multiset().count(c)
            + b.costs.to_multiset().count(c),
        a.merge(b).errors.contains_key(e) <==> a.errors.contains_key(e) || b.errors.contains_key(e),
        a.errors.contains_key(e) && b.errors.contains_key(e) ==> a.merge(b).errors[e] == a.errors[e]
            + b.errors[e],
        a.errors.contains_key(e) && !b.errors.contains_key(e) ==> a.merge(b).errors[e]
            == a.errors[e],
        !a.errors.contains_key(e) && b.errors.contains_key(e) ==> a.merge(b).errors[e]
            == b.errors[e],
{
    vstd::seq_lib::lemma_multiset_commutative(a.costs, b.costs);
}

/// How a duration is written, to two places of the largest unit it fills.
pub open spec fn time_text(ns: int) -> Seq<char> {
    if ns >= 1_000_000_000 {
        crate::fixed::fixed2(ns as nat, 1_000_000_000) + "s"@
    } else if ns >= 1_000_000 {
        crate::fixed::fixed2(ns as nat, 1_000_000) + "ms"@
    } else if ns >= 1_000 {
        crate::fixed::fixed2(ns as nat, 1_000) + "us"@
    } else {
        crate::text::signed_decimal(ns) + "ns"@
    }
}

/// "1.23s", "4.56ms", "7.89us" or "12ns".
pub fn time_string(ns: i64) -> (s: String)
    ensures
        s@ == time_text(ns as int),
{
    if ns >= 1_000_000_000 {
        let mut s = fixed2_text(ns as u64, 1_000_000_000);
        s.append("s");
        s
    } else if ns >= 1_000_000 {
        let mut s = fixed2_text(ns as u64, 1_000_000);
        s.append("ms");
        s
    } else if ns >= 1_000 {
        let mut s = fixed2_text(ns as u64, 1_000);
        s.append("us");
        s
    } else {
        let mut s = i64_text(ns);
        s.append("ns");
        s
    }
}

/// How an amount of memory is written, to two places of the largest unit it
/// fills, at least a kilobyte.
pub open spec fn mem_text(bytes: nat) -> Seq<char> {
    if bytes >= 0x4000_0000 {
        crate::fixed::fixed2(bytes, 0x4000_0000) + "G"@
    } else if bytes >= 0x10_0000 {
        crate::fixed::fixed2(bytes, 0x10_0000) + "M"@
    } else {
        crate::fixed::fixed2(bytes, 0x400) + "K"@
    }
}

/// "1.23G", "4.56M" or "7.89K".
pub fn mem_string(bytes: u64) -> (s: String)
    ensures
        s@ == mem_text(bytes as nat),
{
    if bytes >= 0x4000_0000 {
        let mut s = fixed2_text(bytes, 0x4000_0000);
        s.append("G");
        s
    } else if bytes >= 0x10_0000 {
        let mut s = fixed2_text(bytes, 0x10_0000);
        s.append("M");
        s
    } else {
        let mut s = fixed2_text(bytes, 0x400);
        s.append("K");
        s
    }
}

/// Whether a text is a number of hundredths of a unit behind which the unit stands, and
/// they are the nearest to an amount, or hardly further off than half of one.
pub open spec fn is_about(s: Seq<char>, n: nat, unit: nat, name: Seq<char>) -> bool {
    exists|w: nat, a: nat, b: nat|
        a < 10 && b < 10 && s == #[trigger] (text::decimal(w) + seq!['.'] + text::decimal(a)
            + text::decimal(b)) + name && -1001 * unit <= 2000 * ((100 * w + 10 * a + b) * unit - 100
            * n) <= 1001 * unit
}

proof fn lemma_is_about(n: nat, unit: nat, name: Seq<char>)
    requires
        unit > 0,
        n < 0x4000_0000 * unit,
        n < 9007199254740992,
    ensures
        is_about(crate::fixed::fixed2(n, unit) + name, n, unit, name),
{
    crate::fixed::hundredths_are_the_nearest(n, unit);
    let h = crate::fixed::hundredths(crate::fixed::to_double(n), unit);
    let w = h / 100;
    let a = h / 10 % 10;
    let b = h % 10;
    assert(h == 100 * w + 10 * a + b);
    crate::fixed::hundredths_have_two_digits(w, a, b);
    assert(crate::fixed::fixed2(n, unit) + name == (text::decimal(w) + seq!['.'] + text::decimal(a)
        + text::decimal(b)) + name);
}

/// A duration is written in the largest of seconds, milliseconds and microseconds that
/// it fills, to the hundredth, and below a microsecond in whole nanoseconds.
pub proof fn a_duration_is_written_in_its_unit(ns: int)
    requires
        ns < 9007199254740992,
    ensures
        ns >= 1_000_000_000 ==> is_about(time_text(ns), ns as nat, 1_000_000_000, "s"@),
        1_000_000 <= ns < 1_000_000_000 ==> is_about(time_text(ns), ns as nat, 1_000_000, "ms"@),
        1_000 <= ns < 1_000_000 ==> is_about(time_text(ns), ns as nat, 1_000, "us"@),
        ns < 1_000 ==> time_text(ns) == text::signed_decimal(ns) + "ns"@,
{
    if ns >= 1_000_000_000 {
        lemma_is_about(ns as nat, 1_000_000_000, "s"@);
    } else if ns >= 1_000_000 {
        lemma_is_about(ns as nat, 1_000_000, "ms"@);
    } else if ns >= 1_000 {
        lemma_is_about(ns as nat, 1_000, "us"@);
    }
}

/// An amount of memory is written in the largest of gigabytes and megabytes that it
/// fills, and otherwise in kilobytes, to the hundredth. Each is 1024 of the next.
pub proof fn an_amount_is_written_in_its_unit(bytes: nat)
    requires
        bytes < 9007199254740992,
    ensures
        bytes >= 1024 * 1024 * 1024 ==> is_about(mem_text(bytes), bytes, 1024 * 1024 * 1024, "G"@),
        1024 * 1024 <= bytes < 1024 * 1024 * 1024 ==> is_about(
            mem_text(bytes),
            bytes,
            1024 * 1024,
            "M"@,
        ),
        bytes < 1024 * 1024 ==> is_about(mem_text(bytes), bytes, 1024, "K"@),
{
    if bytes >= 0x4000_0000 {
        lemma_is_about(bytes, 0x4000_0000, "G"@);
    } else if bytes >= 0x10_0000 {
        lemma_is_about(bytes, 0x10_0000, "M"@);
    } else {
        lemma_is_about(bytes, 0x400, "K"@);
    }
}

/// Without a success every column reads nought, and without time so does TPS.
pub proof fn without_successes_all_is_nought(s: Summary, success: int, used: nat)
    requires
        s.sums_up(sorted_costs(Seq::empty()), success, used),
    ensures
        s.min == 0 && s.avg == 0 && s.max == 0,
        s.tp50 == 0 && s.tp75 == 0 && s.tp90 == 0 && s.tp95 == 0 && s.tp99 == 0,
        used == 0 ==> s.tps == 0,
        success == 0 ==> s.tps == 0,
{
    lemma_sorted(Seq::empty());
    if used > 0 {
        vstd::arithmetic::div_mod::lemma_div_of0(used as int);
    }
}

/// A number below two to the sixty-third is its own low bits, and others wrap round by
/// two to the sixty-fourth.
pub proof fn low_bits_wrap_round(n: nat, k: nat)
    requires
        n <= i64::MAX,
    ensures
        low_i64(n) == n,
        low_i64(n + k * 0x1_0000_0000_0000_0000) == n,
{
    vstd::arithmetic::div_mod::lemma_mod_multiples_vanish(
        k as int,
        n as int,
        0x1_0000_0000_0000_0000,
    );
    assert(0x1_0000_0000_0000_0000 * k + n == n + k * 0x1_0000_0000_0000_0000) by (nonlinear_arith);
}

/// The number that a longer one is kept as fits, and differs from it by whole turns.
pub proof fn low_bits_differ_by_whole_turns(n: nat)
    ensures
        i64::MIN <= low_i64(n) <= i64::MAX,
        (n - low_i64(n)) % 0x1_0000_0000_0000_0000 == 0,
{
}

} // verus!
