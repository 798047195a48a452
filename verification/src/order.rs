//! The dictionary order of sequences: characters by code point, bytes by
//! value.

use vstd::prelude::*;

verus! {

/// The code points of a text.
pub open spec fn codes(s: Seq<char>) -> Seq<int> {
    Seq::new(s.len(), |i: int| s[i] as int)
}

/// The values of bytes.
pub open spec fn values(s: Seq<u8>) -> Seq<int> {
    Seq::new(s.len(), |i: int| s[i] as int)
}

/// Whether `a` and `b` agree up to `k`, where `a` ends or has the smaller
/// element.
pub open spec fn parts_at(a: Seq<int>, b: Seq<int>, k: int) -> bool {
    &&& 0 <= k <= a.len()
    &&& k < b.len()
    &&& forall|i: int| 0 <= i < k ==> a[i] == b[i]
    &&& k == a.len() || a[k] < b[k]
}

/// Whether `a` comes before `b` in dictionary order.
pub open spec fn precedes(a: Seq<int>, b: Seq<int>) -> bool {
    exists|k: int| parts_at(a, b, k)
}

pub proof fn precedes_is_transitive(a: Seq<int>, b: Seq<int>, c: Seq<int>)
    requires
        precedes(a, b),
        precedes(b, c),
    ensures
        precedes(a, c),
{
    let k1 = choose|k: int| parts_at(a, b, k);
    let k2 = choose|k: int| parts_at(b, c, k);
    if k1 <= k2 {
        assert(parts_at(a, c, k1));
    } else {
        assert(parts_at(a, c, k2));
    }
}

pub proof fn precedes_is_irreflexive(a: Seq<int>)
    ensures
        !precedes(a, a),
{
}

pub proof fn precedes_is_asymmetric(a: Seq<int>, b: Seq<int>)
    requires
        precedes(a, b),
    ensures
        !precedes(b, a),
{
    if precedes(b, a) {
        precedes_is_transitive(a, b, a);
        precedes_is_irreflexive(a);
    }
}

/// Equal code points mean equal texts.
pub proof fn codes_are_injective(a: Seq<char>, b: Seq<char>)
    requires
        codes(a) == codes(b),
    ensures
        a == b,
{
    assert(codes(a).len() == a.len());
    assert(codes(b).len() == b.len());
    assert forall|i: int| 0 <= i < a.len() implies a[i] == b[i] by {
        assert(codes(a)[i] == a[i] as int);
        assert(codes(b)[i] == b[i] as int);
    }
    assert(a =~= b);
}

pub proof fn values_are_injective(a: Seq<u8>, b: Seq<u8>)
    requires
        values(a) == values(b),
    ensures
        a == b,
{
    assert(values(a).len() == a.len());
    assert(values(b).len() == b.len());
    assert forall|i: int| 0 <= i < a.len() implies a[i] == b[i] by {
        assert(values(a)[i] == a[i] as int);
        assert(values(b)[i] == b[i] as int);
    }
    assert(a =~= b);
}

/// How one sequence stands to another in dictionary order.
#[derive(Clone, Copy, PartialEq, Eq, Structural)]
pub enum Place {
    Before,
    Same,
    After,
}

pub fn place_chars(a: &Vec<char>, b: &Vec<char>) -> (r: Place)
    ensures
        r == Place::Before <==> precedes(codes(a@), codes(b@)),
        r == Place::Same <==> a@ == b@,
        r == Place::After <==> precedes(codes(b@), codes(a@)),
{
    let ghost x = codes(a@);
    let ghost y = codes(b@);
    let mut i: usize = 0;
    while i < a.len() && i < b.len()
        invariant
            i <= a@.len(),
            i <= b@.len(),
            x == codes(a@),
            y == codes(b@),
            forall|k: int| 0 <= k < i ==> x[k] == y[k],
        decreases a@.len() - i,
    {
        let c: char = a[i];
        let d: char = b[i];
        assert(x[i as int] == c as int && y[i as int] == d as int);
        if c < d {
            proof {
                assert(parts_at(x, y, i as int));
                precedes_is_asymmetric(x, y);
            }
            return Place::Before;
        }
        if d < c {
            proof {
                assert(parts_at(y, x, i as int));
                precedes_is_asymmetric(y, x);
            }
            return Place::After;
        }
        i += 1;
    }
    if i < b.len() {
        proof {
            assert(parts_at(x, y, i as int));
            precedes_is_asymmetric(x, y);
        }
        Place::Before
    } else if i < a.len() {
        proof {
            assert(parts_at(y, x, i as int));
            precedes_is_asymmetric(y, x);
        }
        Place::After
    } else {
        proof {
            assert(x =~= y);
            codes_are_injective(a@, b@);
            precedes_is_irreflexive(x);
        }
        Place::Same
    }
}

pub fn place_bytes(a: &[u8], b: &[u8]) -> (r: Place)
    ensures
        r == Place::Before <==> precedes(values(a@), values(b@)),
        r == Place::Same <==> a@ == b@,
        r == Place::After <==> precedes(values(b@), values(a@)),
{
    let ghost x = values(a@);
    let ghost y = values(b@);
    let mut i: usize = 0;
    while i < a.len() && i < b.len()
        invariant
            i <= a@.len(),
            i <= b@.len(),
            x == values(a@),
            y == values(b@),
            forall|k: int| 0 <= k < i ==> x[k] == y[k],
        decreases a@.len() - i,
    {
        assert(x[i as int] == a@[i as int] && y[i as int] == b@[i as int]);
        if a[i] < b[i] {
            proof {
                assert(parts_at(x, y, i as int));
                precedes_is_asymmetric(x, y);
            }
            return Place::Before;
        }
        if b[i] < a[i] {
            proof {
                assert(parts_at(y, x, i as int));
                precedes_is_asymmetric(y, x);
            }
            return Place::After;
        }
        i += 1;
    }
    if i < b.len() {
        proof {
            assert(parts_at(x, y, i as int));
            precedes_is_asymmetric(x, y);
        }
        Place::Before
    } else if i < a.len() {
        proof {
            assert(parts_at(y, x, i as int));
            precedes_is_asymmetric(y, x);
        }
        Place::After
    } else {
        proof {
            assert(x =~= y);
            values_are_injective(a@, b@);
            precedes_is_irreflexive(x);
        }
        Place::Same
    }
}

/// In a dictionary a word comes before those that it begins, and where two words differ
/// first decides on the others; of any two, one comes before the other or they are the
/// same.
pub proof fn the_first_difference_decides(a: Seq<int>, b: Seq<int>, x: int, y: int, c: Seq<int>, d: Seq<int>)
    ensures
        d.len() > 0 ==> precedes(a, a + d),
        x < y ==> precedes(a + seq![x] + c, a + seq![y] + d),
        a == b || precedes(a, b) || precedes(b, a),
{
    if d.len() > 0 {
        assert(parts_at(a, a + d, a.len() as int));
    }
    if x < y {
        assert(parts_at(a + seq![x] + c, a + seq![y] + d, a.len() as int));
    }
    lemma_in_some_order(a, b, 0);
}

proof fn lemma_in_some_order(a: Seq<int>, b: Seq<int>, k: int)
    requires
        0 <= k <= a.len(),
        k <= b.len(),
        forall|i: int| 0 <= i < k ==> a[i] == b[i],
    ensures
        a == b || precedes(a, b) || precedes(b, a),
    decreases a.len() - k,
{
    if k == a.len() && k == b.len() {
        assert(a =~= b);
    } else if k == a.len() {
        assert(parts_at(a, b, k));
    } else if k == b.len() {
        assert(parts_at(b, a, k));
    } else if a[k] < b[k] {
        assert(parts_at(a, b, k));
    } else if b[k] < a[k] {
        assert(parts_at(b, a, k));
    } else {
        lemma_in_some_order(a, b, k + 1);
    }
}

} // verus!
