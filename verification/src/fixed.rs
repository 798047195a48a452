//! Quotients to two decimals, as a double of the quotient prints.

use vstd::prelude::*;

use crate::text;
use crate::text::u128_text;

verus! {

pub open spec fn pow2(k: nat) -> nat
    decreases k,
{
    if k == 0 {
        1
    } else {
        2 * pow2((k - 1) as nat)
    }
}

/// The nearest whole number to a / b, the even one from half way.
pub open spec fn round_even(a: nat, b: nat) -> nat {
    let q = a / b;
    let r = a % b;
    if 2 * r < b {
        q
    } else if 2 * r > b {
        q + 1
    } else {
        q + q % 2
    }
}

/// How many times n doubles before n / d has the 53 bits of a double.
pub open spec fn scale(n: nat, d: nat) -> nat
    decreases
            (if n < 4503599627370496 * d {
                4503599627370496 * d - n
            } else {
                0
            }),
{
    if n == 0 || n >= 4503599627370496 * d {
        0
    } else {
        1 + scale(2 * n, d)
    }
}

/// A whole number below 2^64 as a double.
pub open spec fn to_double(n: nat) -> nat {
    if n < pow2(53) {
        n
    } else {
        round_even(n, pow2(shift(n))) * pow2(shift(n))
    }
}

/// How many low bits of a number a double drops.
pub open spec fn shift(n: nat) -> nat
    decreases n,
{
    if n < 9007199254740992 {
        0
    } else {
        1 + shift(n / 2)
    }
}

/// The hundredths in the double nearest to n / d.
pub open spec fn hundredths(n: nat, d: nat) -> nat {
    let e = scale(n, d);
    round_even(100 * round_even(n * pow2(e), d), pow2(e))
}

/// A number of hundredths, as a whole part, a dot and two digits.
pub open spec fn two_places(h: nat) -> Seq<char> {
    text::decimal(h / 100) + seq!['.', text::digit_char(h / 10 % 10), text::digit_char(h % 10)]
}

/// n / d to two decimals: of the double nearest to it, the nearest, the even
/// one from half way.
pub open spec fn fixed2(n: nat, d: nat) -> Seq<char> {
    two_places(hundredths(to_double(n), d))
}

fn round_even_exec(a: u128, b: u128) -> (r: u128)
    requires
        b > 0,
        a < u128::MAX / 4,
        b < u128::MAX / 4,
    ensures
        r == round_even(a as nat, b as nat),
        r <= a + 1,
{
    let q: u128 = a / b;
    let r: u128 = a % b;
    assert(q <= a) by (nonlinear_arith)
        requires
            q == a / b,
            b >= 1,
    ;
    if 2 * r < b {
        q
    } else if 2 * r > b {
        q + 1
    } else {
        q + q % 2
    }
}

proof fn lemma_pow2_53()
    ensures
        pow2(53) == 9007199254740992,
{
    reveal_with_fuel(pow2, 54);
}

fn to_double_exec(n: u64) -> (r: u128)
    ensures
        r == to_double(n as nat),
        r <= 0x2_0000_0000_0000_0000,
{
    proof {
        lemma_pow2_53();
    }
    if n < 9007199254740992 {
        return n as u128;
    }
    let mut m: u64 = n;
    let mut p: u128 = 1;
    let ghost mut s: nat = 0;
    proof {
        assert(pow2(0) == 1);
        assert(m * 1 == m);
    }
    while m >= 9007199254740992
        invariant
            shift(n as nat) == s + shift(m as nat),
            p == pow2(s),
            m * p <= n,
            1 <= p <= 4096,
        decreases m,
    {
        let ghost m0 = m;
        let ghost p0 = p;
        assert(p <= 2048) by (nonlinear_arith)
            requires
                m * p <= n,
                n <= 0xffff_ffff_ffff_ffff,
                m >= 9007199254740992,
                p >= 1,
        ;
        m = m / 2;
        p = p * 2;
        proof {
            assert(m * p <= n) by (nonlinear_arith)
                requires
                    m0 * p0 <= n,
                    m == m0 / 2,
                    p == p0 * 2,
                    p0 >= 1,
            ;
            s = s + 1;
        }
    }
    let q: u128 = round_even_exec(n as u128, p);
    proof {
        let k = n as int / p as int;
        assert(q <= k + 1);
        assert(k * p <= n) by (nonlinear_arith)
            requires
                k == n as int / p as int,
                p >= 1,
        ;
        assert(q * p <= n + p) by (nonlinear_arith)
            requires
                q <= k + 1,
                k * p <= n,
                p >= 1,
        ;
    }
    q * p
}

fn hundredths_exec(n: u128, d: u128) -> (h: u128)
    requires
        n <= 0x2_0000_0000_0000_0000,
        0 < d <= 0x4000_0000,
    ensures
        h == hundredths(n as nat, d as nat),
{
    if n == 0 {
        return 0;
    }
    let mut a: u128 = n;
    let mut p: u128 = 1;
    let ghost mut e: nat = 0;
    let bound: u128 = 4503599627370496 * d;
    proof {
        assert(pow2(0) == 1);
        assert(n * 1 == n);
    }
    while a < bound
        invariant
            bound == 4503599627370496 * d,
            d <= 0x4000_0000,
            0 < a,
            n >= 1,
            a <= 0x2_0000_0000_0000_0000 || a < 2 * bound,
            scale(n as nat, d as nat) == e + scale(a as nat, d as nat),
            p == pow2(e),
            a == n * p,
            p >= 1,
        decreases
                (if a < bound {
                    bound - a
                } else {
                    0
                }),
    {
        assert(p <= a) by (nonlinear_arith)
            requires
                a == n * p,
                n >= 1,
        ;
        let ghost p0 = p;
        a = a * 2;
        p = p * 2;
        proof {
            assert(n * (p0 * 2) == (n * p0) * 2) by (nonlinear_arith);
            e = e + 1;
        }
    }
    assert(p <= a) by (nonlinear_arith)
        requires
            a == n * p,
            n >= 1,
    ;
    let m: u128 = round_even_exec(a, d);
    round_even_exec(100 * m, p)
}

fn digit_of(d: u128) -> (c: char)
    requires
        d < 10,
    ensures
        c == text::digit_char(d as nat),
{
    (48u8 + d as u8) as char
}

/// n / d to two decimals.
pub fn fixed2_text(n: u64, d: u64) -> (s: String)
    requires
        0 < d <= 0x4000_0000,
        n < 9007199254740992 * d,
    ensures
        s@ == fixed2(n as nat, d as nat),
{
    let h: u128 = hundredths_exec(to_double_exec(n), d as u128);
    let mut s = u128_text(h / 100);
    s.push('.');
    s.push(digit_of(h / 10 % 10));
    s.push(digit_of(h % 10));
    assert(s@ =~= fixed2(n as nat, d as nat));
    s
}

// ---------------------------------------------------------------------------
// What that comes to.

proof fn lemma_round_even(a: nat, b: nat)
    requires
        b > 0,
    ensures
        -(b as int) <= 2 * (round_even(a, b) * b - a) <= b,
{
    let q = (a / b) as int;
    let r = (a % b) as int;
    let d = b as int;
    vstd::arithmetic::div_mod::lemma_fundamental_div_mod(a as int, d);
    vstd::arithmetic::div_mod::lemma_mod_bound(a as int, d);
    assert(q * d == d * q) by (nonlinear_arith);
    assert((q + 1) * d == d * q + d) by (nonlinear_arith);
}

proof fn lemma_scale(n: nat, d: nat)
    requires
        n > 0,
        d > 0,
    ensures
        n * pow2(scale(n, d)) >= 4503599627370496 * d,
        pow2(scale(n, d)) >= 1,
    decreases
            (if n < 4503599627370496 * d {
                4503599627370496 * d - n
            } else {
                0
            }),
{
    if n < 4503599627370496 * d {
        lemma_scale(2 * n, d);
        let p = pow2(scale(2 * n, d));
        assert(scale(n, d) == 1 + scale(2 * n, d));
        assert(pow2(scale(n, d)) == 2 * p);
        assert(n * (2 * p) == (2 * n) * p) by (nonlinear_arith);
    } else {
        assert(scale(n, d) == 0);
        assert(pow2(0) == 1);
        assert(n * 1 == n);
    }
}

/// A quotient is written to the nearest hundredth, or hardly further off than half of
/// one, where it is below two to the thirtieth.
pub proof fn hundredths_are_the_nearest(n: nat, d: nat)
    requires
        d > 0,
        n < 0x4000_0000 * d,
        n < 9007199254740992,
    ensures
        -1001 * d <= 2000 * (hundredths(to_double(n), d) * d - 100 * n) <= 1001 * d,
        n == 0 ==> hundredths(to_double(n), d) == 0,
{
    lemma_pow2_53();
    assert(to_double(n) == n);
    if n == 0 {
        assert(pow2(0) == 1);
        assert(scale(0, d) == 0);
        assert(0 * pow2(0) == 0);
        vstd::arithmetic::div_mod::lemma_div_of0(d as int);
        vstd::arithmetic::div_mod::lemma_small_mod(0, d);
        assert(round_even(0, d) == 0);
        assert(hundredths(n, d) == 0);
        assert(0 * d == 0);
    } else {
        let e = scale(n, d);
        let p = pow2(e);
        lemma_scale(n, d);
        let m = round_even(n * p, d);
        let h = round_even(100 * m, p);
        lemma_round_even(n * p, d);
        lemma_round_even(100 * m, p);
        assert(p >= 100_000) by (nonlinear_arith)
            requires
                n * p >= 4503599627370496 * d,
                n < 0x4000_0000 * d,
                d > 0,
        ;
        let x = h as int;
        let y = m as int;
        let q = p as int;
        let u = d as int;
        let v = n as int;
        assert(-1001 * u <= 2000 * (x * u - 100 * v) <= 1001 * u) by (nonlinear_arith)
            requires
                q >= 100_000,
                u > 0,
                -u <= 2 * (y * u - v * q) <= u,
                -q <= 2 * (x * q - 100 * y) <= q,
        {
            let a = 2 * (y * u - v * q);
            let b = 2 * (x * q - 100 * y);
            assert(2 * q * (x * u - 100 * v) == b * u + 100 * a);
            assert(-q * u <= b * u <= q * u);
            assert(-100 * u <= 100 * a <= 100 * u);
            let z = x * u - 100 * v;
            assert(2 * q * z <= q * u + 100 * u);
            assert(2 * q * z >= -q * u - 100 * u);
            assert(2000 * q * z <= 1000 * q * u + 100_000 * u);
            assert(2000 * q * z >= -1000 * q * u - 100_000 * u);
            assert(100_000 * u <= q * u);
            assert(q * (2000 * z) <= q * (1001 * u));
            assert(q * (2000 * z) >= q * (-1001 * u));
        }
    }
}

/// A number of hundredths is written with its whole part, a dot, and two digits: those
/// of the hundredths left over.
pub proof fn hundredths_have_two_digits(w: nat, a: nat, b: nat)
    requires
        a < 10,
        b < 10,
    ensures
        two_places(100 * w + 10 * a + b) == text::decimal(w) + seq!['.'] + text::decimal(a)
            + text::decimal(b),
{
    let h = 100 * w + 10 * a + b;
    assert(h / 100 == w);
    assert(h / 10 % 10 == a);
    assert(h % 10 == b);
    assert(two_places(h) =~= text::decimal(w) + seq!['.'] + text::decimal(a) + text::decimal(b));
}

} // verus!
