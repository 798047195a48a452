//! Counting in sequences.

use vstd::prelude::*;

verus! {

pub open spec fn one(b: bool) -> nat {
    if b {
        1
    } else {
        0
    }
}

/// How many elements `f` holds of.
pub open spec fn of<A>(s: Seq<A>, f: spec_fn(A) -> bool) -> nat
    decreases s.len(),
{
    if s.len() == 0 {
        0
    } else {
        of(s.drop_last(), f) + one(f(s.last()))
    }
}

pub proof fn push<A>(s: Seq<A>, x: A, f: spec_fn(A) -> bool)
    ensures
        of(s.push(x), f) == of(s, f) + one(f(x)),
{
    assert(s.push(x).drop_last() =~= s);
}

pub proof fn concat<A>(a: Seq<A>, b: Seq<A>, f: spec_fn(A) -> bool)
    ensures
        of(a + b, f) == of(a, f) + of(b, f),
    decreases b.len(),
{
    if b.len() == 0 {
        assert(a + b =~= a);
    } else {
        assert((a + b).drop_last() =~= a + b.drop_last());
        concat(a, b.drop_last(), f);
    }
}

pub proof fn update<A>(s: Seq<A>, i: int, x: A, f: spec_fn(A) -> bool)
    requires
        0 <= i < s.len(),
    ensures
        of(s.update(i, x), f) + one(f(s[i])) == of(s, f) + one(f(x)),
    decreases s.len(),
{
    if i == s.len() - 1 {
        assert(s.update(i, x).drop_last() =~= s.drop_last());
    } else {
        assert(s.update(i, x).drop_last() =~= s.drop_last().update(i, x));
        update(s.drop_last(), i, x, f);
    }
}

pub proof fn remove<A>(s: Seq<A>, i: int, f: spec_fn(A) -> bool)
    requires
        0 <= i < s.len(),
    ensures
        of(s.remove(i), f) + one(f(s[i])) == of(s, f),
    decreases s.len(),
{
    if i == s.len() - 1 {
        assert(s.remove(i) =~= s.drop_last());
    } else {
        assert(s.remove(i).drop_last() =~= s.drop_last().remove(i));
        remove(s.drop_last(), i, f);
    }
}

pub proof fn drop_first<A>(s: Seq<A>, f: spec_fn(A) -> bool)
    requires
        s.len() > 0,
    ensures
        of(s.drop_first(), f) + one(f(s[0])) == of(s, f),
{
    assert(s.drop_first() =~= s.remove(0));
    remove(s, 0, f);
}

pub proof fn positive<A>(s: Seq<A>, i: int, f: spec_fn(A) -> bool)
    requires
        0 <= i < s.len(),
        f(s[i]),
    ensures
        of(s, f) >= 1,
{
    remove(s, i, f);
}

pub proof fn none<A>(s: Seq<A>, f: spec_fn(A) -> bool)
    requires
        forall|i: int| 0 <= i < s.len() ==> !f(#[trigger] s[i]),
    ensures
        of(s, f) == 0,
    decreases s.len(),
{
    if s.len() > 0 {
        assert forall|i: int| 0 <= i < s.drop_last().len() implies !f(
            #[trigger] s.drop_last()[i],
        ) by {
            assert(!f(s[i]));
        }
        none(s.drop_last(), f);
        assert(!f(s[s.len() - 1]));
    }
}

pub proof fn same<A, B>(s: Seq<A>, t: Seq<B>, f: spec_fn(A) -> bool, g: spec_fn(B) -> bool)
    requires
        s.len() == t.len(),
        forall|i: int| 0 <= i < s.len() ==> f(#[trigger] s[i]) == g(t[i]),
    ensures
        of(s, f) == of(t, g),
    decreases s.len(),
{
    if s.len() > 0 {
        assert forall|i: int| 0 <= i < s.drop_last().len() implies f(#[trigger] s.drop_last()[i])
            == g(t.drop_last()[i]) by {
            assert(f(s[i]) == g(t[i]));
        }
        same(s.drop_last(), t.drop_last(), f, g);
        assert(f(s[s.len() - 1]) == g(t[s.len() - 1]));
    }
}

pub proof fn at_most<A>(s: Seq<A>, f: spec_fn(A) -> bool)
    ensures
        of(s, f) <= s.len(),
    decreases s.len(),
{
    if s.len() > 0 {
        at_most(s.drop_last(), f);
    }
}

/// Where nothing is counted, `f` holds of nothing.
pub proof fn zero<A>(s: Seq<A>, f: spec_fn(A) -> bool)
    requires
        of(s, f) == 0,
    ensures
        forall|i: int| 0 <= i < s.len() ==> !f(#[trigger] s[i]),
{
    assert forall|i: int| 0 <= i < s.len() implies !f(#[trigger] s[i]) by {
        if f(s[i]) {
            positive(s, i, f);
        }
    }
}

} // verus!
