//! Moments to wake at, each for a slot of a table, the earliest first.

use vstd::multiset::Multiset;
use vstd::prelude::*;

verus! {

/// A moment in nanoseconds and the slot it is for.
pub type Timer = (u128, usize);

/// Whether a timer comes no later than another; of two at one moment, the one
/// for the lower slot.
pub open spec fn no_later(a: Timer, b: Timer) -> bool {
    a.0 < b.0 || (a.0 == b.0 && a.1 <= b.1)
}

pub open spec fn is_first(m: Multiset<Timer>, e: Timer) -> bool {
    &&& m.count(e) > 0
    &&& forall|x: Timer| #[trigger] m.count(x) > 0 ==> no_later(e, x)
}

/// The timer that comes first.
pub open spec fn first(m: Multiset<Timer>) -> Option<Timer> {
    if m.len() == 0 {
        None
    } else {
        Some(choose|e: Timer| is_first(m, e))
    }
}

/// Where there are timers, one of them comes first.
pub proof fn one_comes_first(m: Multiset<Timer>)
    requires
        m.len() > 0,
    ensures
        first(m) matches Some(e) && is_first(m, e),
    decreases m.len(),
{
    broadcast use vstd::multiset::group_multiset_axioms;

    let a = m.choose();
    assert(m.count(a) > 0);
    let rest = m.remove(a);
    if rest.len() == 0 {
        assert forall|x: Timer| #[trigger] m.count(x) > 0 implies no_later(a, x) by {
            if x != a {
                assert(rest.count(x) > 0);
                assert(rest.remove(x).len() == rest.len() - 1);
            }
        }
        assert(is_first(m, a));
    } else {
        one_comes_first(rest);
        let b = first(rest)->Some_0;
        let e = if no_later(a, b) {
            a
        } else {
            b
        };
        assert(rest.count(b) > 0);
        assert forall|x: Timer| #[trigger] m.count(x) > 0 implies no_later(e, x) by {
            if x != a {
                assert(rest.count(x) > 0);
            }
        }
        assert(is_first(m, e));
    }
}

/// Timers from the latest to the earliest.
pub struct Timers {
    entries: Vec<Timer>,
}

impl View for Timers {
    type V = Multiset<Timer>;

    closed spec fn view(&self) -> Multiset<Timer> {
        self.entries@.to_multiset()
    }
}

impl Timers {
    pub closed spec fn wf(&self) -> bool {
        forall|i: int, j: int|
            0 <= i <= j < self.entries@.len() ==> no_later(
                #[trigger] self.entries@[j],
                #[trigger] self.entries@[i],
            )
    }

    pub fn new() -> (t: Self)
        ensures
            t.wf(),
            t@ == Multiset::<Timer>::empty(),
    {
        let t = Timers { entries: Vec::new() };
        proof {
            broadcast use vstd::seq_lib::group_to_multiset_ensures;

            assert(t@.len() == 0);
            assert(t@ =~= Multiset::<Timer>::empty());
        }
        t
    }

    /// Where a timer belongs: the timers before it come later.
    fn place(&self, e: Timer) -> (k: usize)
        requires
            self.wf(),
        ensures
            k <= self.entries@.len(),
            forall|i: int| 0 <= i < k ==> no_later(e, #[trigger] self.entries@[i]),
            forall|i: int| k <= i < self.entries@.len() ==> no_later(#[trigger] self.entries@[i], e),
    {
        let mut low: usize = 0;
        let mut high: usize = self.entries.len();
        while low < high
            invariant
                self.wf(),
                low <= high <= self.entries@.len(),
                forall|i: int| 0 <= i < low ==> no_later(e, #[trigger] self.entries@[i]),
                forall|i: int|
                    high <= i < self.entries@.len() ==> no_later(#[trigger] self.entries@[i], e),
            decreases high - low,
        {
            let mid: usize = low + (high - low) / 2;
            let x: Timer = self.entries[mid];
            if e.0 < x.0 || (e.0 == x.0 && e.1 <= x.1) {
                assert forall|i: int| 0 <= i < mid + 1 implies no_later(
                    e,
                    #[trigger] self.entries@[i],
                ) by {
                    assert(no_later(self.entries@[mid as int], self.entries@[i]));
                }
                low = mid + 1;
            } else {
                assert forall|i: int| mid <= i < self.entries@.len() implies no_later(
                    #[trigger] self.entries@[i],
                    e,
                ) by {
                    assert(no_later(self.entries@[i], self.entries@[mid as int]));
                }
                high = mid;
            }
        }
        low
    }

    pub fn push(&mut self, t: u128, slot: usize)
        requires
            old(self).wf(),
        ensures
            final(self).wf(),
            final(self)@ == old(self)@.insert((t, slot)),
    {
        let ghost before = self.entries@;
        let e: Timer = (t, slot);
        let k: usize = self.place(e);
        self.entries.insert(k, e);
        proof {
            vstd::seq_lib::to_multiset_insert(before, k as int, e);
            assert forall|i: int, j: int| 0 <= i <= j < self.entries@.len() implies no_later(
                #[trigger] self.entries@[j],
                #[trigger] self.entries@[i],
            ) by {
                if i < k {
                    assert(no_later(e, before[i]));
                }
                if j > k {
                    assert(no_later(before[j - 1], e));
                }
                if i > k {
                    assert(no_later(before[j - 1], before[i - 1]));
                }
                if j < k {
                    assert(no_later(before[j], before[i]));
                }
            }
        }
    }

    /// The timer that comes first.
    pub fn peek(&self) -> (r: Option<Timer>)
        requires
            self.wf(),
        ensures
            r == first(self@),
            r matches Some(e) ==> is_first(self@, e),
            r is None ==> self@ == Multiset::<Timer>::empty(),
    {
        let n: usize = self.entries.len();
        proof {
            broadcast use vstd::seq_lib::group_to_multiset_ensures;

            assert(self@.len() == n);
            if n > 0 {
                self.lemma_last_is_first();
            } else {
                assert(self@ =~= Multiset::<Timer>::empty());
            }
        }
        if n == 0 {
            None
        } else {
            Some(self.entries[n - 1])
        }
    }

    proof fn lemma_last_is_first(&self)
        requires
            self.wf(),
            self.entries@.len() > 0,
        ensures
            is_first(self@, self.entries@.last()),
            first(self@) == Some(self.entries@.last()),
    {
        broadcast use vstd::seq_lib::group_to_multiset_ensures;

        let e = self.entries@.last();
        assert(self.entries@.contains(e));
        assert(self@.len() == self.entries@.len());
        assert forall|x: Timer| #[trigger] self@.count(x) > 0 implies no_later(e, x) by {
            assert(self.entries@.contains(x));
            let i = choose|i: int| 0 <= i < self.entries@.len() && self.entries@[i] == x;
            assert(no_later(self.entries@[self.entries@.len() - 1], self.entries@[i]));
        }
        assert(is_first(self@, e));
        let f = choose|f: Timer| is_first(self@, f);
        assert(self@.count(f) > 0);
        assert(no_later(e, f));
        assert(no_later(f, e));
    }

    /// Takes the timer that comes first out.
    pub fn pop(&mut self)
        requires
            old(self).wf(),
            first(old(self)@) is Some,
        ensures
            final(self).wf(),
            final(self)@ == old(self)@.remove(first(old(self)@)->Some_0),
    {
        proof {
            broadcast use vstd::seq_lib::group_to_multiset_ensures;

            assert(self@.len() == self.entries@.len());
            self.lemma_last_is_first();
            let n = self.entries@.len();
            assert(self.entries@.remove(n - 1) =~= self.entries@.drop_last());
            vstd::seq_lib::to_multiset_remove(self.entries@, n - 1);
        }
        let _ = self.entries.pop();
    }
}

/// No timer comes before the first: none is for an earlier moment, nor for a lower slot
/// at the same one; and the first is one of them.
pub proof fn none_comes_before_the_first(m: Multiset<Timer>, x: Timer)
    requires
        m.count(x) > 0,
    ensures
        first(m) matches Some(e) && m.count(e) > 0 && e.0 <= x.0 && (e.0 == x.0 ==> e.1 <= x.1),
{
    broadcast use vstd::multiset::group_multiset_axioms;

    assert(m.len() > 0) by {
        if m.len() == 0 {
            assert(m =~= Multiset::empty());
        }
    }
    one_comes_first(m);
}

} // verus!
