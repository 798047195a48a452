//! Durations as Go's `time.ParseDuration` reads them, for the units a command
//! line uses.

use std::time::Duration;
use vstd::prelude::*;

use crate::clock;
use crate::clock::duration_of;
use crate::text;
use crate::text::{chars_of, same, string_of};

verus! {

pub open spec fn is_number_char(c: char) -> bool {
    text::is_digit(c) || c == '.'
}

/// How many characters at the start of a text are digits or dots.
pub open spec fn number_len(s: Seq<char>) -> nat
    decreases s.len(),
{
    if s.len() > 0 && is_number_char(s[0]) {
        1 + number_len(s.skip(1))
    } else {
        0
    }
}

/// How many characters at the start of a text are neither.
pub open spec fn unit_len(s: Seq<char>) -> nat
    decreases s.len(),
{
    if s.len() > 0 && !is_number_char(s[0]) {
        1 + unit_len(s.skip(1))
    } else {
        0
    }
}

/// A decimal number's digits without its dot, and how many stand after it.
pub open spec fn number_parts(s: Seq<char>) -> Option<(Seq<char>, nat)> {
    let p = text::first_index(s, '.') as int;
    let digits = if p < s.len() {
        s.take(p) + s.skip(p + 1)
    } else {
        s
    };
    if digits.len() > 0 && text::all_digits(digits) {
        Some((digits, (digits.len() - p) as nat))
    } else {
        None
    }
}

/// A unit's length in nanoseconds.
pub open spec fn unit_nanos(u: Seq<char>) -> Option<nat> {
    if u == "ns"@ {
        Some(1)
    } else if u == "us"@ || u == "µs"@ {
        Some(1_000)
    } else if u == "ms"@ {
        Some(1_000_000)
    } else if u == "s"@ {
        Some(1_000_000_000)
    } else if u == "m"@ {
        Some(60_000_000_000)
    } else if u == "h"@ {
        Some(3_600_000_000_000)
    } else {
        None
    }
}

pub open spec fn pow10(k: nat) -> nat
    decreases k,
{
    if k == 0 {
        1
    } else {
        10 * pow10((k - 1) as nat)
    }
}

/// The sum of a text's number and unit pairs, in units of 10^-k nanoseconds,
/// where `k` is at least the digits after any dot.
pub open spec fn scaled_sum(s: Seq<char>, k: nat) -> Option<nat>
    decreases s.len(),
{
    if s.len() == 0 {
        Some(0)
    } else {
        let n = number_len(s) as int;
        let u = unit_len(s.skip(n)) as int;
        proof {
            lemma_lens(s);
            lemma_lens(s.skip(n));
        }
        if n == 0 {
            None
        } else {
            match (number_parts(s.take(n)), unit_nanos(s.skip(n).take(u))) {
                (Some((digits, frac)), Some(unit)) => match scaled_sum(s.skip(n).skip(u), k) {
                    Some(rest) => Some(text::value_of(digits) * unit * pow10((k - frac) as nat) + rest),
                    None => None,
                },
                _ => None,
            }
        }
    }
}

/// The nearest whole number to t / 10^k, upwards from half way.
pub open spec fn nearest(t: nat, k: nat) -> nat {
    (2 * t + pow10(k)) / (2 * pow10(k))
}

/// The duration a text stands for, in nanoseconds: the sum of its numbers
/// times their units, to the nearest nanosecond. No text in memory is longer
/// than half of what a `usize` counts.
pub open spec fn duration_value(s: Seq<char>) -> Option<nat> {
    if s == "0"@ {
        Some(0)
    } else if s.len() == 0 || s.len() > usize::MAX / 2 {
        None
    } else {
        match scaled_sum(s, s.len()) {
            Some(t) => if nearest(t, s.len()) <= clock::max_nanos() {
                Some(nearest(t, s.len()))
            } else {
                None
            },
            None => None,
        }
    }
}

pub proof fn lemma_lens(s: Seq<char>)
    ensures
        number_len(s) <= s.len(),
        unit_len(s) <= s.len(),
    decreases s.len(),
{
    if s.len() > 0 {
        lemma_lens(s.skip(1));
    }
}

proof fn lemma_number_len(s: Seq<char>, k: int)
    requires
        0 <= k <= s.len(),
        forall|i: int| 0 <= i < k ==> is_number_char(#[trigger] s[i]),
        k == s.len() || !is_number_char(s[k]),
    ensures
        number_len(s) == k,
    decreases s.len(),
{
    if k > 0 {
        assert forall|i: int| 0 <= i < k - 1 implies is_number_char(#[trigger] s.skip(1)[i]) by {
            assert(s.skip(1)[i] == s[i + 1]);
        }
        lemma_number_len(s.skip(1), k - 1);
    }
}

proof fn lemma_unit_len(s: Seq<char>, k: int)
    requires
        0 <= k <= s.len(),
        forall|i: int| 0 <= i < k ==> !is_number_char(#[trigger] s[i]),
        k == s.len() || is_number_char(s[k]),
    ensures
        unit_len(s) == k,
    decreases s.len(),
{
    if k > 0 {
        assert forall|i: int| 0 <= i < k - 1 implies !is_number_char(#[trigger] s.skip(1)[i]) by {
            assert(s.skip(1)[i] == s[i + 1]);
        }
        lemma_unit_len(s.skip(1), k - 1);
    }
}

// ---------------------------------------------------------------------------
// Decimal digits, the lowest first.

spec fn is_low_first(s: Seq<u8>) -> bool {
    forall|i: int| 0 <= i < s.len() ==> #[trigger] s[i] < 10
}

spec fn low_value(s: Seq<u8>) -> nat
    decreases s.len(),
{
    if s.len() == 0 {
        0
    } else {
        s[0] as nat + 10 * low_value(s.skip(1))
    }
}

proof fn lemma_pow10_add(a: nat, b: nat)
    ensures
        pow10(a + b) == pow10(a) * pow10(b),
        pow10(a) >= 1,
    decreases a,
{
    if a > 0 {
        lemma_pow10_add((a - 1) as nat, b);
        assert(pow10(a) * pow10(b) == 10 * (pow10((a - 1) as nat) * pow10(b))) by (nonlinear_arith)
            requires
                pow10(a) == 10 * pow10((a - 1) as nat),
        ;
    } else {
        assert(pow10(a) * pow10(b) == pow10(b)) by (nonlinear_arith)
            requires
                pow10(a) == 1,
        ;
    }
}

proof fn lemma_low_update(s: Seq<u8>, i: int, d: u8)
    requires
        0 <= i < s.len(),
    ensures
        low_value(s.update(i, d)) + s[i] * pow10(i as nat) == low_value(s) + d * pow10(i as nat),
    decreases s.len(),
{
    if i == 0 {
        assert(s.update(i, d).skip(1) =~= s.skip(1));
        assert(pow10(0) == 1);
        assert(s[i] * pow10(0) == s[i] && d * pow10(0) == d) by (nonlinear_arith)
            requires
                pow10(0) == 1,
        ;
    } else {
        lemma_low_update(s.skip(1), i - 1, d);
        assert(s.update(i, d).skip(1) =~= s.skip(1).update(i - 1, d));
        let p = pow10((i - 1) as nat);
        assert(s[i] * (10 * p) == 10 * (s[i] * p)) by (nonlinear_arith);
        assert(d * (10 * p) == 10 * (d * p)) by (nonlinear_arith);
    }
}

proof fn lemma_low_push(s: Seq<u8>, d: u8)
    ensures
        low_value(s.push(d)) == low_value(s) + d * pow10(s.len()),
    decreases s.len(),
{
    reveal_with_fuel(low_value, 2);
    if s.len() == 0 {
        assert(s.push(d).skip(1) =~= Seq::<u8>::empty());
        assert(d * pow10(0) == d) by (nonlinear_arith)
            requires
                pow10(0) == 1,
        ;
    } else {
        lemma_low_push(s.skip(1), d);
        assert(s.push(d).skip(1) =~= s.skip(1).push(d));
        let p = pow10((s.len() - 1) as nat);
        assert(d * (10 * p) == 10 * (d * p)) by (nonlinear_arith);
    }
}

proof fn lemma_low_split(s: Seq<u8>, k: int)
    requires
        0 <= k <= s.len(),
    ensures
        low_value(s) == low_value(s.take(k)) + pow10(k as nat) * low_value(s.skip(k)),
    decreases k,
{
    if k == 0 {
        assert(s.take(0) =~= Seq::<u8>::empty());
        assert(s.skip(0) =~= s);
        assert(pow10(0) * low_value(s) == low_value(s)) by (nonlinear_arith)
            requires
                pow10(0) == 1,
        ;
    } else {
        lemma_low_split(s.skip(1), k - 1);
        assert(s.take(k).skip(1) =~= s.skip(1).take(k - 1));
        assert(s.skip(1).skip(k - 1) =~= s.skip(k));
        let p = pow10((k - 1) as nat);
        let h = low_value(s.skip(k));
        assert((10 * p) * h == 10 * (p * h)) by (nonlinear_arith);
    }
}

proof fn lemma_low_bound(s: Seq<u8>)
    requires
        is_low_first(s),
    ensures
        low_value(s) < pow10(s.len()),
    decreases s.len(),
{
    if s.len() > 0 {
        assert forall|i: int| 0 <= i < s.skip(1).len() implies #[trigger] s.skip(1)[i] < 10 by {
            assert(s.skip(1)[i] == s[i + 1]);
        }
        lemma_low_bound(s.skip(1));
        assert(s[0] < 10);
    }
}

/// The digits of a number, the lowest first.
spec fn low_first(s: Seq<char>) -> Seq<u8> {
    Seq::new(s.len(), |i: int| text::digit_value(s[s.len() - 1 - i]) as u8)
}

proof fn lemma_low_first(s: Seq<char>)
    requires
        text::all_digits(s),
    ensures
        low_value(low_first(s)) == text::value_of(s),
        is_low_first(low_first(s)),
    decreases s.len(),
{
    if s.len() > 0 {
        let t = s.drop_last();
        assert forall|i: int| 0 <= i < t.len() implies text::is_digit(#[trigger] t[i]) by {
            assert(t[i] == s[i]);
        }
        lemma_low_first(t);
        assert(low_first(s).skip(1) =~= low_first(t));
        assert(text::is_digit(s[s.len() - 1]));
        assert(low_first(s)[0] == text::digit_value(s.last()));
        assert forall|i: int| 0 <= i < low_first(s).len() implies #[trigger] low_first(s)[i] < 10 by {
            assert(text::is_digit(s[s.len() - 1 - i]));
        }
    }
}

/// Adds digits times mult times 10^shift to acc.
fn add_scaled(acc: &mut Vec<u8>, digits: &Vec<u8>, mult: u64, shift: usize)
    requires
        is_low_first(old(acc)@),
        is_low_first(digits@),
        mult <= 3_600_000_000_000,
        shift + digits@.len() <= usize::MAX,
    ensures
        is_low_first(final(acc)@),
        low_value(final(acc)@) == low_value(old(acc)@) + low_value(digits@) * mult * pow10(
            shift as nat,
        ),
{
    let n: usize = digits.len();
    let ghost start = low_value(acc@);
    while acc.len() < shift + n
        invariant
            is_low_first(acc@),
            low_value(acc@) == start,
            n == digits@.len(),
            shift + n <= usize::MAX,
        decreases shift + n - acc@.len(),
    {
        proof {
            lemma_low_push(acc@, 0);
        }
        acc.push(0);
    }
    let mut carry: u128 = 0;
    let mut j: usize = 0;
    assert(digits@.take(0) =~= Seq::<u8>::empty());
    assert(low_value(digits@.take(0)) == 0);
    assert(0 * mult * pow10(shift as nat) == 0) by (nonlinear_arith);
    while j < n
        invariant
            is_low_first(acc@),
            is_low_first(digits@),
            j <= n == digits@.len(),
            shift + n <= acc@.len(),
            shift + n <= usize::MAX,
            mult <= 3_600_000_000_000,
            carry <= 3_600_000_000_001,
            low_value(acc@) + carry * pow10((shift + j) as nat) == start + low_value(
                digits@.take(j as int),
            ) * mult * pow10(shift as nat),
        decreases n - j,
    {
        let p: usize = shift + j;
        let ghost before = acc@;
        let ghost c0 = carry;
        assert(before[p as int] < 10 && digits@[j as int] < 10);
        assert(digits@[j as int] * mult <= 9 * 3_600_000_000_000) by (nonlinear_arith)
            requires
                digits@[j as int] <= 9,
                mult <= 3_600_000_000_000,
        ;
        let x: u128 = acc[p] as u128 + (digits[j] as u128) * (mult as u128) + carry;
        acc.set(p, (x % 10) as u8);
        carry = x / 10;
        proof {
            let q = pow10(p as nat) as int;
            let d = digits@[j as int] as int;
            let low = (x % 10) as int;
            lemma_low_update(before, p as int, (x % 10) as u8);
            lemma_low_push(digits@.take(j as int), digits@[j as int]);
            assert(digits@.take(j + 1) =~= digits@.take(j as int).push(digits@[j as int]));
            lemma_pow10_add(j as nat, shift as nat);
            let v = low_value(digits@.take(j as int)) as int;
            let pj = pow10(j as nat) as int;
            let ps = pow10(shift as nat) as int;
            let m = mult as int;
            assert((v + d * pj) * m * ps == v * m * ps + d * m * (pj * ps)) by (nonlinear_arith);
            assert(pow10((p + 1) as nat) == 10 * q);
            assert(carry * (10 * q) + low * q == x * q) by (nonlinear_arith)
                requires
                    x as int == 10 * (carry as int) + low,
            ;
            assert(x * q == before[p as int] * q + d * m * q + c0 * q) by (nonlinear_arith)
                requires
                    x as int == before[p as int] as int + d * m + c0 as int,
            ;
            assert forall|i: int| 0 <= i < acc@.len() implies #[trigger] acc@[i] < 10 by {
                if i != p {
                    assert(acc@[i] == before[i]);
                }
            }
        }
        j += 1;
    }
    assert(digits@.take(n as int) =~= digits@);
    let ghost goal = start + low_value(digits@) * mult * pow10(shift as nat);
    let mut p: usize = shift + n;
    while carry > 0
        invariant
            is_low_first(acc@),
            p <= acc@.len(),
            carry <= 3_600_000_000_001,
            low_value(acc@) + carry * pow10(p as nat) == goal,
        decreases carry, acc@.len() - p,
    {
        if p == acc.len() {
            proof {
                lemma_low_push(acc@, 0);
            }
            acc.push(0);
        }
        let ghost before = acc@;
        let ghost c0 = carry;
        assert(before[p as int] < 10);
        let x: u128 = acc[p] as u128 + carry;
        acc.set(p, (x % 10) as u8);
        carry = x / 10;
        proof {
            let q = pow10(p as nat) as int;
            let low = (x % 10) as int;
            lemma_low_update(before, p as int, (x % 10) as u8);
            assert(pow10((p + 1) as nat) == 10 * q);
            assert(carry * (10 * q) + low * q == before[p as int] * q + c0 * q) by (nonlinear_arith)
                requires
                    before[p as int] as int + c0 as int == 10 * (carry as int) + low,
            ;
            assert forall|i: int| 0 <= i < acc@.len() implies #[trigger] acc@[i] < 10 by {
                if i != p {
                    assert(acc@[i] == before[i]);
                }
            }
        }
        assert(p < acc.len());
        p += 1;
    }
    assert(carry * pow10(p as nat) == 0) by (nonlinear_arith)
        requires
            carry == 0,
    ;
}

/// The whole part of acc / 10^k, to the nearest, if a duration can hold it.
fn round_off(acc: &Vec<u8>, k: usize) -> (r: Option<u128>)
    requires
        is_low_first(acc@),
        k > 0,
    ensures
        (match r {
            Some(n) => Some(n as nat),
            None => None::<nat>,
        }) == (if nearest(low_value(acc@), k as nat) <= clock::max_nanos() {
            Some(nearest(low_value(acc@), k as nat))
        } else {
            None
        }),
{
    let mut v: Vec<u8> = acc.clone();
    assert(v@ =~= acc@);
    while v.len() < k
        invariant
            is_low_first(v@),
            low_value(v@) == low_value(acc@),
        decreases k - v@.len(),
    {
        proof {
            lemma_low_push(v@, 0);
        }
        v.push(0);
    }
    let ghost t = low_value(v@);
    let ghost high = v@.skip(k as int);
    let ghost half = v@.take(k as int);
    let mut n: u128 = 0;
    let mut i: usize = v.len();
    assert(v@.skip(v@.len() as int) =~= Seq::<u8>::empty());
    while i > k && n <= 20_000_000_000_000_000_000_000_000_000
        invariant
            is_low_first(v@),
            k <= i <= v@.len(),
            n == low_value(v@.skip(i as int)),
            n <= 300_000_000_000_000_000_000_000_000_000,
        decreases i,
    {
        i -= 1;
        assert(v@.skip(i as int).skip(1) =~= v@.skip(i + 1));
        assert(v@[i as int] < 10);
        n = n * 10 + v[i] as u128;
    }
    let up: bool = v[k - 1] >= 5;
    proof {
        let p = pow10((k - 1) as nat) as int;
        let d = v@[k - 1] as int;
        lemma_low_split(v@, k as int);
        lemma_low_split(half, k - 1);
        assert(half.skip(k - 1) =~= seq![v@[k - 1]]);
        reveal_with_fuel(low_value, 2);
        assert(low_value(half.skip(k - 1)) == d);
        assert(is_low_first(half.take(k - 1)));
        lemma_low_bound(half.take(k - 1));
        let rest = low_value(half.take(k - 1)) as int;
        let q = low_value(high) as int;
        lemma_pow10_add((k - 1) as nat, 0);
        let whole = 10 * p;
        assert(pow10(k as nat) == whole);
        assert(t == rest + p * d + whole * q);
        let r = rest + p * d;
        assert(p * d <= p * 9) by (nonlinear_arith)
            requires
                0 <= d <= 9,
                p >= 1,
        ;
        assert(0 <= p * d) by (nonlinear_arith)
            requires
                0 <= d,
                p >= 1,
        ;
        if up {
            assert(p * d >= p * 5) by (nonlinear_arith)
                requires
                    d >= 5,
                    p >= 1,
            ;
        } else {
            assert(p * d <= p * 4) by (nonlinear_arith)
                requires
                    d <= 4,
                    p >= 1,
            ;
        }
        let bit: int = if up {
            1
        } else {
            0
        };
        assert((2 * t + whole) / (2 * whole) == q + bit) by {
            let e = 2 * r + whole - bit * (2 * whole);
            assert(0 <= e < 2 * whole);
            assert(2 * t + whole == (q + bit) * (2 * whole) + e) by (nonlinear_arith)
                requires
                    t as int == r + whole * q,
                    e == 2 * r + whole - bit * (2 * whole),
            ;
            vstd::arithmetic::div_mod::lemma_fundamental_div_mod_converse(
                2 * t + whole,
                2 * whole,
                q + bit,
                e,
            );
        }
        assert(nearest(t, k as nat) == q + bit);
        if i > k {
            lemma_low_split(high, i - k);
            assert(high.skip(i - k) =~= v@.skip(i as int));
            lemma_pow10_add((i - k) as nat, 0);
            let w = pow10((i - k) as nat);
            assert(w * n >= n) by (nonlinear_arith)
                requires
                    w >= 1,
                    n >= 0,
            ;
            assert(q >= n);
        }
    }
    if i > k {
        return None;
    }
    if up {
        n = n + 1;
    }
    if n <= 18_446_744_073_709_551_615_999_999_999 {
        Some(n)
    } else {
        None
    }
}

fn unit_of(u: &str) -> (r: Option<u64>)
    ensures
        (match r {
            Some(n) => Some(n as nat),
            None => None::<nat>,
        }) == unit_nanos(u@),
        r matches Some(n) ==> n <= 3_600_000_000_000,
{
    if same(u, "ns") {
        Some(1)
    } else if same(u, "us") || same(u, "µs") {
        Some(1_000)
    } else if same(u, "ms") {
        Some(1_000_000)
    } else if same(u, "s") {
        Some(1_000_000_000)
    } else if same(u, "m") {
        Some(60_000_000_000)
    } else if same(u, "h") {
        Some(3_600_000_000_000)
    } else {
        None
    }
}

/// The digits of the number between `from` and `to`, the lowest first, and
/// how many of them stand after its dot.
fn digits_between(v: &Vec<char>, from: usize, to: usize) -> (r: Option<(Vec<u8>, usize)>)
    requires
        from <= to <= v@.len(),
    ensures
        match (r, number_parts(v@.subrange(from as int, to as int))) {
            (Some((d, f)), Some((digits, frac))) => {
                &&& is_low_first(d@)
                &&& low_value(d@) == text::value_of(digits)
                &&& d@.len() == digits.len() <= to - from
                &&& f == frac <= to - from
            },
            (None, None) => true,
            _ => false,
        },
{
    let ghost s = v@.subrange(from as int, to as int);
    let mut low: Vec<u8> = Vec::new();
    let mut frac: usize = 0;
    let mut dotted: bool = false;
    let mut i: usize = to;
    let ghost mut kept = Seq::<char>::empty();
    // kept: the digits seen so far, in the order of the text
    assert(s.skip(s.len() as int) =~= Seq::<char>::empty());
    while i > from
        invariant
            from <= i <= to <= v@.len(),
            s == v@.subrange(from as int, to as int),
            text::all_digits(kept),
            low@ =~= low_first(kept),
            !dotted ==> kept == s.skip(i - from) && frac == 0,
            dotted ==> exists|p: int| #[trigger] dot_split(s, i - from, p, kept, frac as int),
        decreases i,
    {
        i -= 1;
        let c: char = v[i];
        let ghost j = i - from;
        assert(s[j] == c);
        if c == '.' {
            if dotted {
                proof {
                    let p = choose|p: int| #[trigger] dot_split(s, j + 1, p, kept, frac as int);
                    lemma_two_dots(s, j, p);
                }
                return None;
            }
            dotted = true;
            frac = low.len();
            proof {
                assert(kept =~= s.skip(j + 1));
                assert(dot_split(s, j, j, kept, frac as int));
            }
        } else if '0' <= c && c <= '9' {
            let ghost before = kept;
            proof {
                kept = seq![c] + kept;
                assert(low_first(kept) =~= low_first(before).push(text::digit_value(c) as u8)) by {
                    assert forall|x: int| 0 <= x < low_first(before).len() implies low_first(kept)[x]
                        == low_first(before)[x] by {
                        assert(kept[kept.len() - 1 - x] == before[before.len() - 1 - x]);
                    }
                }
                assert forall|x: int| 0 <= x < kept.len() implies text::is_digit(#[trigger] kept[x]) by {
                    if x > 0 {
                        assert(kept[x] == before[x - 1]);
                    }
                }
                if dotted {
                    let p = choose|p: int| #[trigger] dot_split(s, j + 1, p, before, frac as int);
                    assert(s.subrange(j, p) =~= seq![c] + s.subrange(j + 1, p));
                    assert(kept =~= s.subrange(j, p) + s.skip(p + 1));
                    assert(dot_split(s, j, p, kept, frac as int));
                } else {
                    assert(kept =~= s.skip(j));
                }
            }
            low.push((c as u8) - 48);
        } else {
            proof {
                lemma_stray(s, j);
            }
            return None;
        }
    }
    proof {
        lemma_low_first(kept);
        text::lemma_first_index(s, '.');
        if dotted {
            let p = choose|p: int| #[trigger] dot_split(s, 0, p, kept, frac as int);
            assert(s.subrange(0, p) =~= s.take(p));
            assert forall|x: int| 0 <= x < p implies s[x] != '.' by {
                assert(text::is_digit(kept[x]));
                assert(kept[x] == s[x]);
            }
            text::lemma_first_index_is(s, '.', p);
        } else {
            assert(kept =~= s);
            assert forall|x: int| 0 <= x < s.len() implies s[x] != '.' by {
                assert(text::is_digit(kept[x]));
            }
            text::lemma_first_index_is(s, '.', s.len() as int);
        }
    }
    if low.len() == 0 {
        return None;
    }
    Some((low, frac))
}

/// From `j` on, `s` has its one dot at `p` and `kept` around it, `frac` of it
/// after the dot.
spec fn dot_split(s: Seq<char>, j: int, p: int, kept: Seq<char>, frac: int) -> bool {
    &&& 0 <= j <= p < s.len()
    &&& s[p] == '.'
    &&& kept == s.subrange(j, p) + s.skip(p + 1)
    &&& frac == s.len() - p - 1
}

proof fn lemma_two_dots(s: Seq<char>, j: int, p: int)
    requires
        0 <= j < p < s.len(),
        s[j] == '.',
        s[p] == '.',
    ensures
        number_parts(s) is None,
{
    text::lemma_first_index(s, '.');
    let q = text::first_index(s, '.') as int;
    let digits = s.take(q) + s.skip(q + 1);
    assert(q <= j);
    assert(digits[p - 1] == s[p]);
    assert(!text::is_digit(digits[p - 1]));
}

proof fn lemma_stray(s: Seq<char>, j: int)
    requires
        0 <= j < s.len(),
        !text::is_digit(s[j]),
        s[j] != '.',
    ensures
        number_parts(s) is None,
{
    text::lemma_first_index(s, '.');
    let q = text::first_index(s, '.') as int;
    if q < s.len() {
        let digits = s.take(q) + s.skip(q + 1);
        if j < q {
            assert(!text::is_digit(digits[j]));
        } else {
            assert(digits[j - 1] == s[j]);
            assert(!text::is_digit(digits[j - 1]));
        }
    } else {
        assert(!text::is_digit(s[j]));
    }
}

/// Parses a duration the way Go's time.ParseDuration does, for the units a
/// command line uses: "5s", "100ms", "1m30s", "1.5s". A bare "0" is zero. One
/// longer than a `Duration` holds is no duration.
pub fn parse_duration(s: &str) -> (r: Option<Duration>)
    ensures
        (match r {
            Some(d) => Some(clock::duration_nanos(d)),
            None => None::<nat>,
        }) == duration_value(s@),
{
    if same(s, "0") {
        return Some(duration_of(0));
    }
    let v = chars_of(s);
    let k: usize = v.len();
    if k == 0 || k > usize::MAX / 2 {
        return None;
    }
    let mut acc: Vec<u8> = Vec::new();
    let mut i: usize = 0;
    assert(v@.skip(0) =~= v@);
    while i < k
        invariant
            i <= k == v@.len(),
            v@ == s@,
            is_low_first(acc@),
            match scaled_sum(v@.skip(i as int), k as nat) {
                Some(rest) => scaled_sum(v@, k as nat) == Some(low_value(acc@) + rest),
                None => scaled_sum(v@, k as nat) is None,
            },
            s@ != "0"@,
            0 < k <= usize::MAX / 2,
        decreases k - i,
    {
        let ghost here = v@.skip(i as int);
        let mut j: usize = i;
        while j < k && (('0' <= v[j] && v[j] <= '9') || v[j] == '.')
            invariant
                i <= j <= k == v@.len(),
                forall|x: int| i <= x < j ==> is_number_char(#[trigger] v@[x]),
            decreases k - j,
        {
            j += 1;
        }
        let mut e: usize = j;
        while e < k && !(('0' <= v[e] && v[e] <= '9') || v[e] == '.')
            invariant
                j <= e <= k == v@.len(),
                forall|x: int| j <= x < e ==> !is_number_char(#[trigger] v@[x]),
            decreases k - e,
        {
            e += 1;
        }
        let ghost n = j - i;
        let ghost u = e - j;
        proof {
            assert forall|x: int| 0 <= x < n implies is_number_char(#[trigger] here[x]) by {
                assert(here[x] == v@[i + x]);
            }
            lemma_number_len(here, n);
            assert(here.skip(n) =~= v@.skip(j as int));
            assert forall|x: int| 0 <= x < u implies !is_number_char(#[trigger] here.skip(n)[x]) by {
                assert(here.skip(n)[x] == v@[j + x]);
            }
            lemma_unit_len(here.skip(n), u);
            assert(here.take(n) =~= v@.subrange(i as int, j as int));
            assert(here.skip(n).take(u) =~= v@.subrange(j as int, e as int));
            assert(here.skip(n).skip(u) =~= v@.skip(e as int));
        }
        if j == i {
            return None;
        }
        let (low, frac) = match digits_between(&v, i, j) {
            Some(p) => p,
            None => {
                return None;
            },
        };
        let name = string_of(&v, j, e);
        let unit: u64 = match unit_of(name.as_str()) {
            Some(u) => u,
            None => {
                return None;
            },
        };
        add_scaled(&mut acc, &low, unit, k - frac);
        i = e;
    }
    assert(v@.skip(k as int) =~= Seq::<char>::empty());
    match round_off(&acc, k) {
        Some(ns) => Some(duration_of(ns)),
        None => None,
    }
}

// ---------------------------------------------------------------------------
// What that comes to.

/// Whether a text names a unit, and it is that many nanoseconds long.
pub open spec fn is_unit(u: Seq<char>, m: nat) -> bool {
    ||| u == "ns"@ && m == 1
    ||| u == "us"@ && m == 1_000
    ||| u == "µs"@ && m == 1_000
    ||| u == "ms"@ && m == 1_000 * 1_000
    ||| u == "s"@ && m == 1_000 * 1_000 * 1_000
    ||| u == "m"@ && m == 60 * 1_000 * 1_000 * 1_000
    ||| u == "h"@ && m == 60 * 60 * 1_000 * 1_000 * 1_000
}

proof fn lemma_units(u: Seq<char>, m: nat)
    requires
        is_unit(u, m),
    ensures
        unit_nanos(u) == Some(m),
        u.len() > 0,
        forall|i: int| 0 <= i < u.len() ==> !is_number_char(#[trigger] u[i]),
{
    reveal_strlit("ns");
    reveal_strlit("us");
    reveal_strlit("µs");
    reveal_strlit("ms");
    reveal_strlit("s");
    reveal_strlit("m");
    reveal_strlit("h");
    assert("us"@[0] != "ns"@[0]);
    assert("µs"@[0] != "ns"@[0] && "µs"@[0] != "us"@[0]);
    assert("ms"@[0] != "ns"@[0] && "ms"@[0] != "us"@[0] && "ms"@[0] != "µs"@[0]);
    assert("s"@.len() == 1 && "m"@.len() == 1 && "h"@.len() == 1);
    assert("s"@[0] != "m"@[0] && "s"@[0] != "h"@[0] && "m"@[0] != "h"@[0]);
}

/// What one number with its unit comes to, in front of others.
proof fn lemma_first_pair(d: Seq<char>, f: Seq<char>, dotted: bool, u: Seq<char>, rest: Seq<char>, k: nat, m: nat)
    requires
        text::all_digits(d),
        text::all_digits(f),
        d.len() + f.len() > 0,
        dotted || f.len() == 0,
        is_unit(u, m),
        rest.len() > 0 ==> is_number_char(rest[0]),
    ensures
        ({
            let num = if dotted {
                d + seq!['.'] + f
            } else {
                d
            };
            scaled_sum(num + u + rest, k) == match scaled_sum(rest, k) {
                Some(r) => Some(
                    text::value_of(d + f) * m * pow10((k - f.len()) as nat) + r,
                ),
                None => None,
            }
        }),
{
    let num = if dotted {
        d + seq!['.'] + f
    } else {
        d
    };
    let s = num + u + rest;
    let n = num.len() as int;
    let l = u.len() as int;
    lemma_units(u, m);
    assert forall|i: int| 0 <= i < n implies is_number_char(#[trigger] s[i]) by {
        assert(s[i] == num[i]);
        if i < d.len() {
            assert(text::is_digit(d[i]));
        } else if i > d.len() {
            assert(text::is_digit(f[i - d.len() - 1]));
        }
    }
    assert(s[n] == u[0]);
    lemma_number_len(s, n);
    let t = s.skip(n);
    assert(t =~= u + rest);
    assert forall|i: int| 0 <= i < l implies !is_number_char(#[trigger] t[i]) by {
        assert(t[i] == u[i]);
    }
    if rest.len() > 0 {
        assert(t[l] == rest[0]);
    }
    lemma_unit_len(t, l);
    assert(s.take(n) =~= num);
    assert(t.take(l) =~= u);
    assert(t.skip(l) =~= rest);
    text::lemma_first_index(num, '.');
    if dotted {
        assert(num[d.len() as int] == '.');
        assert forall|x: int| 0 <= x < d.len() implies num[x] != '.' by {
            assert(text::is_digit(d[x]));
        }
        text::lemma_first_index_is(num, '.', d.len() as int);
        assert(num.take(d.len() as int) + num.skip(d.len() as int + 1) =~= d + f);
    } else {
        assert forall|x: int| 0 <= x < d.len() implies num[x] != '.' by {
            assert(text::is_digit(d[x]));
        }
        text::lemma_first_index_is(num, '.', d.len() as int);
        assert(d + f =~= d);
    }
    assert forall|i: int| 0 <= i < (d + f).len() implies text::is_digit(#[trigger] (d + f)[i]) by {
        if i < d.len() {
            assert(text::is_digit(d[i]));
        } else {
            assert(text::is_digit(f[i - d.len()]));
        }
    }
}

proof fn lemma_nearest_whole(v: nat, k: nat)
    ensures
        nearest(v * pow10(k), k) == v,
{
    lemma_pow10_add(k, 0);
    let p = pow10(k) as int;
    let t = v as int * p;
    assert(2 * t + p == v as int * (2 * p) + p) by (nonlinear_arith)
        requires
            t == v as int * p,
    ;
    vstd::arithmetic::div_mod::lemma_fundamental_div_mod_converse(2 * t + p, 2 * p, v as int, p);
}

/// A whole number of a unit is so many times the unit: "100ms" are a hundred million
/// nanoseconds. One that is too long is no duration.
pub proof fn so_many_of_a_unit(d: Seq<char>, u: Seq<char>, m: nat)
    requires
        text::all_digits(d),
        d.len() > 0,
        is_unit(u, m),
        d.len() + u.len() <= usize::MAX / 2,
    ensures
        duration_value(d + u) == (if text::value_of(d) * m <= clock::max_nanos() {
            Some((text::value_of(d) * m) as nat)
        } else {
            None
        }),
{
    let none = Seq::<char>::empty();
    let s = d + u;
    let k = s.len();
    lemma_units(u, m);
    assert(s + none =~= s);
    assert(d + none =~= d);
    lemma_first_pair(d, none, false, u, none, k, m);
    lemma_nearest_whole((text::value_of(d) * m) as nat, k);
    reveal_strlit("0");
    assert(s != "0"@);
    assert(text::value_of(d) * m * pow10(k) + 0 == (text::value_of(d) * m) as nat * pow10(k));
}

/// A number with a fraction is so many times the unit to the nearest nanosecond: ten to
/// the places after the dot times as long is off from its digits times the unit by no
/// more than half of that.
pub proof fn a_fraction_of_a_unit(d: Seq<char>, f: Seq<char>, u: Seq<char>, m: nat, v: nat)
    requires
        text::all_digits(d),
        text::all_digits(f),
        d.len() + f.len() > 0,
        is_unit(u, m),
        d.len() + 1 + f.len() + u.len() <= usize::MAX / 2,
        duration_value(d + seq!['.'] + f + u) == Some(v),
    ensures
        -pow10(f.len()) <= 2 * (v * pow10(f.len()) - text::value_of(d + f) * m) <= pow10(f.len()),
{
    let none = Seq::<char>::empty();
    let s = d + seq!['.'] + f + u;
    let k = s.len();
    lemma_units(u, m);
    assert(s + none =~= s);
    lemma_first_pair(d, f, true, u, none, k, m);
    reveal_strlit("0");
    assert(s != "0"@);
    let a = (text::value_of(d + f) * m) as int;
    let g = (k - f.len()) as nat;
    lemma_pow10_add(g, f.len());
    lemma_pow10_add(f.len(), 0);
    let p = pow10(g) as int;
    let w = pow10(f.len()) as int;
    assert(g + f.len() == k);
    let t = a * p;
    let den = 2 * (p * w);
    let num = 2 * t + p * w;
    assert(p * w >= 1) by (nonlinear_arith)
        requires
            p >= 1,
            w >= 1,
    ;
    vstd::arithmetic::div_mod::lemma_fundamental_div_mod(num, den);
    vstd::arithmetic::div_mod::lemma_mod_bound(num, den);
    let q = num / den;
    assert(v == q);
    assert(-w <= 2 * (q * w - a) <= w) by (nonlinear_arith)
        requires
            num == den * q + num % den,
            0 <= num % den < den,
            den == 2 * (p * w),
            num == 2 * (a * p) + p * w,
            p >= 1,
            w >= 1,
    ;
}

/// How much longer a text's scale is makes no difference to what it stands for.
proof fn lemma_rescaled(s: Seq<char>, k: nat)
    requires
        k >= s.len(),
    ensures
        scaled_sum(s, k) matches Some(t) ==> scaled_sum(s, k + 1) == Some((10 * t) as nat),
        scaled_sum(s, k) is None ==> scaled_sum(s, k + 1) is None,
    decreases s.len(),
{
    if s.len() > 0 {
        let n = number_len(s) as int;
        let u = unit_len(s.skip(n)) as int;
        lemma_lens(s);
        lemma_lens(s.skip(n));
        if n > 0 {
            let rest = s.skip(n).skip(u);
            lemma_rescaled(rest, k);
            match (number_parts(s.take(n)), unit_nanos(s.skip(n).take(u))) {
                (Some((digits, frac)), Some(unit)) => {
                    text::lemma_first_index(s.take(n), '.');
                    assert(frac <= k);
                    let g = (k - frac) as nat;
                    let a = (text::value_of(digits) * unit) as int;
                    assert(pow10((k + 1 - frac) as nat) == 10 * pow10(g));
                    assert(a * (10 * pow10(g)) == 10 * (a * pow10(g))) by (nonlinear_arith);
                },
                _ => {},
            }
        }
    }
}

proof fn lemma_rescaled_to(s: Seq<char>, k: nat, j: nat)
    requires
        k >= s.len(),
    ensures
        scaled_sum(s, k) matches Some(t) ==> scaled_sum(s, k + j) == Some((pow10(j) * t) as nat),
        scaled_sum(s, k) is None ==> scaled_sum(s, k + j) is None,
    decreases j,
{
    if j > 0 {
        lemma_rescaled_to(s, k, (j - 1) as nat);
        lemma_rescaled(s, (k + j - 1) as nat);
        if scaled_sum(s, k) is Some {
            let t = scaled_sum(s, k)->Some_0;
            assert(10 * (pow10((j - 1) as nat) * t) == (10 * pow10((j - 1) as nat)) * t)
                by (nonlinear_arith);
        }
    } else if scaled_sum(s, k) is Some {
        let t = scaled_sum(s, k)->Some_0;
        assert(pow10(0) * t == t) by (nonlinear_arith)
            requires
                pow10(0) == 1,
        ;
    }
}

/// Durations one behind the other are added up: "1m30s" is a minute and thirty
/// seconds.
pub proof fn durations_add_up(d: Seq<char>, u: Seq<char>, m: nat, rest: Seq<char>, r: nat)
    requires
        text::all_digits(d),
        d.len() > 0,
        is_unit(u, m),
        rest.len() > 1,
        is_number_char(rest[0]),
        duration_value(rest) == Some(r),
        d.len() + u.len() + rest.len() <= usize::MAX / 2,
    ensures
        duration_value(d + u + rest) == (if text::value_of(d) * m + r <= clock::max_nanos() {
            Some((text::value_of(d) * m + r) as nat)
        } else {
            None
        }),
{
    let none = Seq::<char>::empty();
    let s = d + u + rest;
    let k = s.len();
    let i = rest.len();
    let j = (d.len() + u.len()) as nat;
    lemma_units(u, m);
    assert(d + none =~= d);
    lemma_first_pair(d, none, false, u, rest, k, m);
    reveal_strlit("0");
    assert(s != "0"@ && rest != "0"@);
    lemma_rescaled_to(rest, i, j);
    assert(i + j == k);
    let t = scaled_sum(rest, i)->Some_0 as int;
    let a = (text::value_of(d) * m) as int;
    lemma_pow10_add(j, i);
    lemma_pow10_add(i, 0);
    let w = pow10(j) as int;
    let p = pow10(i) as int;
    assert(pow10(k) == w * p);
    assert(scaled_sum(s, k) == Some((a * (w * p) + w * t) as nat));
    let den = 2 * p;
    let num = 2 * t + p;
    vstd::arithmetic::div_mod::lemma_fundamental_div_mod(num, den);
    vstd::arithmetic::div_mod::lemma_mod_bound(num, den);
    assert(r == num / den);
    let e = num % den;
    let all = a * (w * p) + w * t;
    assert(2 * all + w * p == (a + r) * (2 * (w * p)) + w * e) by (nonlinear_arith)
        requires
            all == a * (w * p) + w * t,
            2 * t + p == 2 * p * (r as int) + e,
    ;
    assert(0 <= w * e < 2 * (w * p)) by (nonlinear_arith)
        requires
            0 <= e < 2 * p,
            w >= 1,
    ;
    vstd::arithmetic::div_mod::lemma_fundamental_div_mod_converse(
        2 * all + w * p,
        2 * (w * p),
        a + r,
        w * e,
    );
}

/// Only a bare "0" is a duration without a unit; a unit without a number is none, nor
/// is nothing at all.
pub proof fn a_duration_has_numbers_and_units(d: Seq<char>, u: Seq<char>, m: nat)
    requires
        text::all_digits(d),
        d.len() > 0,
        d != "0"@,
        is_unit(u, m),
    ensures
        duration_value("0"@) == Some(0nat),
        duration_value(d) is None,
        duration_value(u) is None,
        duration_value(Seq::empty()) is None,
{
    reveal_strlit("0");
    lemma_units(u, m);
    assert forall|i: int| 0 <= i < d.len() implies is_number_char(#[trigger] d[i]) by {
        assert(text::is_digit(d[i]));
    }
    lemma_number_len(d, d.len() as int);
    assert(d.skip(d.len() as int) =~= Seq::<char>::empty());
    let none = d.skip(d.len() as int).take(0);
    reveal_strlit("ns");
    reveal_strlit("us");
    reveal_strlit("µs");
    reveal_strlit("ms");
    reveal_strlit("s");
    reveal_strlit("m");
    reveal_strlit("h");
    assert(none.len() == 0);
    assert(unit_nanos(none) is None);
    assert(!is_number_char(u[0]));
    assert(number_len(u) == 0);
    assert(u != "0"@) by {
        assert(is_number_char("0"@[0]));
    }
}

} // verus!
