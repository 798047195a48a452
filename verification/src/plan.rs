//! How the client lays out its work: the batches of BenchMultiplex, and the
//! shares of the worker threads.

use vstd::prelude::*;

use crate::text::usize_text;

verus! {

// ---------------------------------------------------------------------------
// Batches.

/// Whether a batch is sent a whole number of times a second.
pub open spec fn divides(batch: nat, rate: nat) -> bool {
    batch > 0 && rate % batch == 0
}

/// The most request bodies that fit in `rbs` bytes, and at least one.
pub open spec fn most_that_fit(rbs: nat, payload: nat) -> nat {
    let n = rbs / (if payload == 0 {
        1
    } else {
        payload
    });
    if n == 0 {
        1
    } else {
        n
    }
}

pub open spec fn batch_error(rb: nat, rate: nat) -> Seq<char> {
    "batch "@ + crate::text::decimal(rb) + " does not divide the send rate "@
        + crate::text::decimal(rate)
        + ", so no whole number of bursts a second sends it; pick a divisor of "@
        + crate::text::decimal(rate)
}

/// The batch -rb asks for, or with -rb=0 the most request bodies that fit in
/// -rbs bytes and divide -rr, with how many times a second it is sent.
pub fn rate_batch(rb: usize, rate: usize, rbs: usize, payload: usize) -> (r: Result<
    (usize, usize),
    String,
>)
    ensures
        r matches Ok(v) ==> {
            &&& divides(v.0 as nat, rate as nat)
            &&& v.0 * v.1 == rate
            &&& rb > 0 ==> v.0 == rb
            &&& rb == 0 ==> v.0 <= most_that_fit(rbs as nat, payload as nat)
            &&& rb == 0 ==> forall|b: nat|
                v.0 < b <= most_that_fit(rbs as nat, payload as nat) ==> !#[trigger] divides(
                    b,
                    rate as nat,
                )
        },
        r is Err <==> rb > 0 && !divides(rb as nat, rate as nat),
        r matches Err(e) ==> e@ == batch_error(rb as nat, rate as nat),
{
    if rb > 0 {
        if rate % rb != 0 {
            let mut e = "batch ".to_owned();
            e.append(usize_text(rb).as_str());
            e.append(" does not divide the send rate ");
            e.append(usize_text(rate).as_str());
            e.append(", so no whole number of bursts a second sends it; pick a divisor of ");
            e.append(usize_text(rate).as_str());
            return Err(e);
        }
        proof {
            lemma_whole(rate as nat, rb as nat);
        }
        return Ok((rb, rate / rb));
    }
    let one: usize = if payload == 0 {
        1
    } else {
        payload
    };
    let fit: usize = rbs / one;
    let most: usize = if fit == 0 {
        1
    } else {
        fit
    };
    let mut batch: usize = most;
    while batch > 1 && rate % batch != 0
        invariant
            1 <= batch <= most,
            forall|b: nat| batch < b <= most ==> !#[trigger] divides(b, rate as nat),
        decreases batch,
    {
        batch -= 1;
    }
    proof {
        lemma_whole(rate as nat, batch as nat);
    }
    Ok((batch, rate / batch))
}

proof fn lemma_whole(rate: nat, batch: nat)
    requires
        batch > 0,
        batch == 1 || rate % batch == 0,
    ensures
        divides(batch, rate),
        batch * (rate / batch) == rate,
{
    vstd::arithmetic::div_mod::lemma_fundamental_div_mod(rate as int, batch as int);
}

// ---------------------------------------------------------------------------
// Shares.

pub open spec fn sum(s: Seq<usize>) -> nat
    decreases s.len(),
{
    if s.len() == 0 {
        0
    } else {
        sum(s.drop_last()) + s.last() as nat
    }
}

/// Where the part ends that begins where part `i - 1` ends.
pub open spec fn cut(total: nat, n: nat, i: nat) -> nat {
    total * i / n
}

/// Splits total into n parts that differ by at most one.
pub fn split(total: usize, n: usize) -> (parts: Vec<usize>)
    ensures
        parts@.len() == n,
        forall|i: int|
            0 <= i < n ==> #[trigger] parts@[i] == cut(total as nat, n as nat, (i + 1) as nat) - cut(
                total as nat,
                n as nat,
                i as nat,
            ),
        n > 0 ==> sum(parts@) == total,
        forall|i: int, j: int|
            0 <= i < n && 0 <= j < n ==> #[trigger] parts@[i] <= #[trigger] parts@[j] + 1,
{
    let mut parts: Vec<usize> = Vec::new();
    let mut i: usize = 0;
    proof {
        if n > 0 {
            assert(cut(total as nat, n as nat, 0) == 0) by {
                assert(total * 0 == 0);
                vstd::arithmetic::div_mod::lemma_div_of0(n as int);
            }
        }
    }
    while i < n
        invariant
            parts@.len() == i,
            i <= n,
            forall|k: int|
                0 <= k < i ==> #[trigger] parts@[k] == cut(total as nat, n as nat, (k + 1) as nat)
                    - cut(total as nat, n as nat, k as nat),
            forall|k: int|
                0 <= k < i ==> total / n <= #[trigger] parts@[k] <= total / n + 1,
            n > 0 ==> sum(parts@) == cut(total as nat, n as nat, i as nat),
        decreases n - i,
    {
        proof {
            lemma_cut(total as nat, n as nat, i as nat);
            assert(total * (i + 1) <= 0xffff_ffff_ffff_ffff * 0x1_0000_0000_0000_0000) by (nonlinear_arith)
                requires
                    total <= 0xffff_ffff_ffff_ffff,
                    i + 1 <= 0x1_0000_0000_0000_0000,
            ;
            assert(total * i <= total * (i + 1)) by (nonlinear_arith);
        }
        let to: u128 = total as u128 * (i as u128 + 1) / n as u128;
        let from: u128 = total as u128 * i as u128 / n as u128;
        let part: usize = (to - from) as usize;
        let ghost before = parts@;
        parts.push(part);
        assert(parts@.drop_last() =~= before);
        i += 1;
    }
    proof {
        if n > 0 {
            assert(cut(total as nat, n as nat, n as nat) == total) by {
                vstd::arithmetic::div_mod::lemma_div_by_multiple(total as int, n as int);
            }
        }
    }
    parts
}

proof fn lemma_cut(total: nat, n: nat, i: nat)
    requires
        i < n,
    ensures
        total / n <= cut(total, n, i + 1) - cut(total, n, i) <= total / n + 1,
        cut(total, n, i + 1) - cut(total, n, i) <= total,
{
    let a = total * i;
    let d = n as int;
    assert(total * (i + 1) == a + total) by (nonlinear_arith)
        requires
            a == total * i,
    ;
    vstd::arithmetic::div_mod::lemma_fundamental_div_mod(a as int, d);
    vstd::arithmetic::div_mod::lemma_fundamental_div_mod(total as int, d);
    let q = a as int / d + total as int / d;
    let r = a as int % d + total as int % d;
    assert(d * q == d * (a as int / d) + d * (total as int / d)) by (nonlinear_arith)
        requires
            q == a as int / d + total as int / d,
    ;
    if r < d {
        vstd::arithmetic::div_mod::lemma_fundamental_div_mod_converse((a + total) as int, d, q, r);
    } else {
        assert(d * (q + 1) == d * q + d) by (nonlinear_arith);
        vstd::arithmetic::div_mod::lemma_fundamental_div_mod_converse(
            (a + total) as int,
            d,
            q + 1,
            r - d,
        );
        // The remainders reach n only where total is not 0.
        if total == 0 {
            vstd::arithmetic::div_mod::lemma_small_mod(0, n);
        }
        assert(total / n + 1 <= total) by (nonlinear_arith)
            requires
                n > 1 || total % n > 0,
                total > 0,
                n > 0,
                d == n,
                total as int == d * (total as int / d) + total as int % d,
        ;
    }
    assert(total / n <= total) by (nonlinear_arith)
        requires
            n > 0,
    ;
}

/// What is split, which is no more than there is room for.
pub open spec fn to_split(total: nat, holds: Seq<usize>) -> nat {
    if total < sum(holds) {
        total
    } else {
        sum(holds)
    }
}

/// A worker's proportion of what is split, rounded down.
pub open spec fn floor_share(total: nat, holds: Seq<usize>, i: int) -> nat {
    if sum(holds) == 0 {
        0
    } else {
        to_split(total, holds) * (holds[i] as nat) / sum(holds)
    }
}

/// What the first `k` workers' proportions come to.
pub open spec fn floor_shares(total: nat, holds: Seq<usize>, k: nat) -> nat
    decreases k,
{
    if k == 0 {
        0
    } else {
        floor_shares(total, holds, (k - 1) as nat) + floor_share(total, holds, k - 1)
    }
}

/// How many of the first `k` workers have room for one more than their
/// proportion.
pub open spec fn with_room(total: nat, holds: Seq<usize>, k: nat) -> nat
    decreases k,
{
    if k == 0 {
        0
    } else {
        with_room(total, holds, (k - 1) as nat) + (if floor_share(total, holds, k - 1)
            < holds[k - 1] {
            1nat
        } else {
            0nat
        })
    }
}

/// What rounding down left over.
pub open spec fn left_over(total: nat, holds: Seq<usize>) -> int {
    to_split(total, holds) - floor_shares(total, holds, holds.len())
}

/// A worker's share: its proportion, and one of what is left over if it has
/// room for it and the workers before it left any.
pub open spec fn share(total: nat, holds: Seq<usize>, i: int) -> nat {
    floor_share(total, holds, i) + (if floor_share(total, holds, i) < holds[i] && with_room(
        total,
        holds,
        i as nat,
    ) < left_over(total, holds) {
        1nat
    } else {
        0nat
    })
}

proof fn lemma_sum_take(s: Seq<usize>, k: int)
    requires
        0 <= k < s.len(),
    ensures
        sum(s.take(k + 1)) == sum(s.take(k)) + s[k],
{
    assert(s.take(k + 1).drop_last() =~= s.take(k));
}

proof fn lemma_sum_grows(s: Seq<usize>, k: int)
    requires
        0 <= k <= s.len(),
    ensures
        sum(s.take(k)) <= sum(s),
    decreases s.len() - k,
{
    if k < s.len() {
        lemma_sum_grows(s, k + 1);
        lemma_sum_take(s, k);
    } else {
        assert(s.take(k) =~= s);
    }
}

proof fn lemma_floor_share(total: nat, holds: Seq<usize>, i: int)
    requires
        0 <= i < holds.len(),
    ensures
        floor_share(total, holds, i) <= holds[i],
        sum(holds) > 0 ==> to_split(total, holds) * holds[i] - sum(holds) * floor_share(
            total,
            holds,
            i,
        ) >= 0,
        sum(holds) > 0 ==> to_split(total, holds) * holds[i] - sum(holds) * floor_share(
            total,
            holds,
            i,
        ) <= (if floor_share(total, holds, i) < holds[i] {
            sum(holds) - 1
        } else {
            0
        }),
{
    let t = to_split(total, holds);
    let d = sum(holds);
    let h = holds[i] as nat;
    if d > 0 {
        let q = floor_share(total, holds, i);
        vstd::arithmetic::div_mod::lemma_fundamental_div_mod((t * h) as int, d as int);
        assert(t * h <= d * h) by (nonlinear_arith)
            requires
                t <= d,
        ;
        assert(q <= h) by (nonlinear_arith)
            requires
                d > 0,
                d * q <= t * h <= d * h,
        ;
    }
}

/// The remainders of the first `k` workers come to less than their room.
proof fn lemma_remainders(total: nat, holds: Seq<usize>, k: nat)
    requires
        k <= holds.len(),
        sum(holds) > 0,
    ensures
        to_split(total, holds) * sum(holds.take(k as int)) - sum(holds) * floor_shares(
            total,
            holds,
            k,
        ) <= (sum(holds) - 1) * with_room(total, holds, k),
        to_split(total, holds) * sum(holds.take(k as int)) - sum(holds) * floor_shares(
            total,
            holds,
            k,
        ) >= 0,
    decreases k,
{
    let t = to_split(total, holds);
    let d = sum(holds);
    if k == 0 {
        assert(t * 0 == 0);
        assert(d * 0 == 0);
        assert((d - 1) * 0 == 0);
    } else {
        let j = (k - 1) as nat;
        lemma_remainders(total, holds, j);
        lemma_floor_share(total, holds, j as int);
        lemma_sum_take(holds, j as int);
        let s0 = sum(holds.take(j as int));
        let f0 = floor_shares(total, holds, j);
        let w0 = with_room(total, holds, j);
        let h = holds[j as int] as nat;
        let q = floor_share(total, holds, j as int);
        assert(t * (s0 + h) == t * s0 + t * h) by (nonlinear_arith);
        assert(d * (f0 + q) == d * f0 + d * q) by (nonlinear_arith);
        assert((d - 1) * (w0 + 1) == (d - 1) * w0 + (d - 1)) by (nonlinear_arith);
    }
}

/// There is room for all that is left over.
proof fn lemma_left_fits(total: nat, holds: Seq<usize>)
    ensures
        0 <= left_over(total, holds) <= with_room(total, holds, holds.len()),
{
    let t = to_split(total, holds);
    let d = sum(holds);
    if d == 0 {
        lemma_no_shares(total, holds, holds.len());
    } else {
        lemma_remainders(total, holds, holds.len());
        assert(holds.take(holds.len() as int) =~= holds);
        let f = floor_shares(total, holds, holds.len());
        let w = with_room(total, holds, holds.len());
        assert(f <= t) by (nonlinear_arith)
            requires
                d > 0,
                t * d - d * f >= 0,
        ;
        assert(t - f <= w) by (nonlinear_arith)
            requires
                d > 0,
                t * d - d * f <= (d - 1) * w,
        ;
    }
}

proof fn lemma_no_shares(total: nat, holds: Seq<usize>, k: nat)
    requires
        sum(holds) == 0,
        k <= holds.len(),
    ensures
        floor_shares(total, holds, k) == 0,
    decreases k,
{
    if k > 0 {
        lemma_no_shares(total, holds, (k - 1) as nat);
    }
}

/// What the first `k` workers' shares come to.
proof fn lemma_shares(total: nat, holds: Seq<usize>, parts: Seq<usize>, k: nat)
    requires
        k <= holds.len(),
        k <= parts.len(),
        forall|i: int| 0 <= i < k ==> #[trigger] parts[i] == share(total, holds, i),
        left_over(total, holds) >= 0,
    ensures
        sum(parts.take(k as int)) == floor_shares(total, holds, k) + (if with_room(total, holds, k)
            < left_over(total, holds) {
            with_room(total, holds, k) as int
        } else {
            left_over(total, holds)
        }),
    decreases k,
{
    if k > 0 {
        lemma_shares(total, holds, parts, (k - 1) as nat);
        lemma_sum_take(parts, k - 1);
        assert(parts[k - 1] == share(total, holds, k - 1));
    }
}

/// What all workers hold.
pub fn sum_of(holds: &[usize]) -> (r: usize)
    requires
        sum(holds@) <= usize::MAX,
    ensures
        r == sum(holds@),
{
    let mut r: usize = 0;
    let mut i: usize = 0;
    while i < holds.len()
        invariant
            i <= holds@.len(),
            sum(holds@) <= usize::MAX,
            r == sum(holds@.take(i as int)),
        decreases holds@.len() - i,
    {
        proof {
            lemma_sum_take(holds@, i as int);
            lemma_sum_grows(holds@, i + 1);
        }
        r += holds[i];
        i += 1;
    }
    assert(holds@.take(i as int) =~= holds@);
    r
}

/// Splits total over the workers in proportion to what each holds, and no
/// more than it holds.
pub fn split_by(total: usize, holds: &[usize]) -> (parts: Vec<usize>)
    requires
        sum(holds@) <= usize::MAX,
    ensures
        parts@.len() == holds@.len(),
        forall|i: int|
            0 <= i < parts@.len() ==> #[trigger] parts@[i] == share(total as nat, holds@, i),
        forall|i: int| 0 <= i < parts@.len() ==> #[trigger] parts@[i] <= holds@[i],
        sum(parts@) == to_split(total as nat, holds@),
{
    let all: usize = sum_of(holds);
    let ghost t = total as nat;
    let ghost h = holds@;
    let whole: usize = if total < all {
        total
    } else {
        all
    };
    let mut parts: Vec<usize> = Vec::new();
    let mut given: usize = 0;
    let mut i: usize = 0;
    proof {
        lemma_left_fits(t, h);
    }
    while i < holds.len()
        invariant
            i <= holds@.len(),
            h == holds@,
            t == total,
            all == sum(h),
            whole == to_split(t, h),
            parts@.len() == i,
            forall|k: int| 0 <= k < i ==> #[trigger] parts@[k] == floor_share(t, h, k),
            given == floor_shares(t, h, i as nat),
            floor_shares(t, h, h.len()) <= whole,
        decreases holds@.len() - i,
    {
        proof {
            lemma_floor_share(t, h, i as int);
            lemma_floor_grows(t, h, (i + 1) as nat);
            assert(whole * holds@[i as int] <= 0xffff_ffff_ffff_ffff * 0xffff_ffff_ffff_ffff)
                by (nonlinear_arith)
                requires
                    whole <= 0xffff_ffff_ffff_ffff,
                    holds@[i as int] <= 0xffff_ffff_ffff_ffff,
            ;
        }
        let part: usize = if all == 0 {
            0
        } else {
            (whole as u128 * holds[i] as u128 / all as u128) as usize
        };
        parts.push(part);
        given += part;
        i += 1;
    }
    let mut left: usize = whole - given;
    let ghost floors = parts@;
    let mut i: usize = 0;
    while i < holds.len()
        invariant
            i <= holds@.len(),
            h == holds@,
            t == total,
            parts@.len() == h.len(),
            floors.len() == h.len(),
            forall|k: int| 0 <= k < h.len() ==> #[trigger] floors[k] == floor_share(t, h, k),
            forall|k: int| i <= k < h.len() ==> #[trigger] parts@[k] == floors[k],
            forall|k: int| 0 <= k < i ==> #[trigger] parts@[k] == share(t, h, k),
            left == (if with_room(t, h, i as nat) < left_over(t, h) {
                left_over(t, h) - with_room(t, h, i as nat)
            } else {
                0
            }),
        decreases holds@.len() - i,
    {
        let p: usize = parts[i];
        assert(parts@[i as int] == floors[i as int]);
        if left > 0 && p < holds[i] {
            parts.set(i, p + 1);
            left -= 1;
        }
        i += 1;
    }
    proof {
        lemma_shares(t, h, parts@, h.len());
        assert(parts@.take(h.len() as int) =~= parts@);
        assert forall|k: int| 0 <= k < parts@.len() implies #[trigger] parts@[k] <= h[k] by {
            lemma_floor_share(t, h, k);
        }
    }
    parts
}

proof fn lemma_floor_grows(total: nat, holds: Seq<usize>, k: nat)
    requires
        k <= holds.len(),
    ensures
        floor_shares(total, holds, k) <= floor_shares(total, holds, holds.len()),
    decreases holds.len() - k,
{
    if k < holds.len() {
        lemma_floor_grows(total, holds, k + 1);
    }
}

// ---------------------------------------------------------------------------
// What that comes to.

/// A batch goes out a whole number of times a second exactly if so many batches are
/// the rate.
pub proof fn a_batch_goes_out_whole(batch: nat, rate: nat)
    ensures
        divides(batch, rate) <==> batch > 0 && exists|k: nat| #[trigger] (batch * k) == rate,
{
    if batch > 0 {
        vstd::arithmetic::div_mod::lemma_fundamental_div_mod(rate as int, batch as int);
        if rate % batch == 0 {
            assert(batch * (rate / batch) == rate);
        }
        if exists|k: nat| #[trigger] (batch * k) == rate {
            let k = choose|k: nat| #[trigger] (batch * k) == rate;
            assert(k as int * batch as int == rate as int) by (nonlinear_arith)
                requires
                    batch * k == rate,
            ;
            vstd::arithmetic::div_mod::lemma_fundamental_div_mod_converse(
                rate as int,
                batch as int,
                k as int,
                0,
            );
        }
    }
}

/// The most bodies that fit in so many bytes are at least one, and otherwise no longer
/// together than those, with which one more would be.
pub proof fn the_most_bodies_fit(rbs: nat, payload: nat)
    requires
        payload > 0,
    ensures
        most_that_fit(rbs, payload) >= 1,
        payload <= rbs ==> most_that_fit(rbs, payload) * payload <= rbs < (most_that_fit(
            rbs,
            payload,
        ) + 1) * payload,
        payload > rbs ==> most_that_fit(rbs, payload) == 1,
        most_that_fit(rbs, 0) == most_that_fit(rbs, 1),
{
    let q = (rbs / payload) as int;
    let r = rbs as int;
    let p = payload as int;
    vstd::arithmetic::div_mod::lemma_fundamental_div_mod(r, p);
    vstd::arithmetic::div_mod::lemma_mod_bound(r, p);
    assert(q * p <= r < (q + 1) * p) by (nonlinear_arith)
        requires
            r == p * q + r % p,
            0 <= r % p < p,
    ;
    if p <= r {
        assert(q >= 1) by (nonlinear_arith)
            requires
                p <= r < (q + 1) * p,
                p > 0,
        ;
    } else {
        assert(q == 0) by (nonlinear_arith)
            requires
                q * p <= r < p,
                p > 0,
                r >= 0,
                r < (q + 1) * p,
        ;
    }
}

/// What workers hold together is what each of them holds, added up.
pub proof fn a_sum_is_of_all(s: Seq<usize>)
    ensures
        sum(s) == s.fold_left(0int, |t: int, n: usize| t + n),
    decreases s.len(),
{
    reveal_with_fuel(Seq::fold_left, 2);
    if s.len() > 0 {
        a_sum_is_of_all(s.drop_last());
    }
}

/// What is split is all of it, or as much as the workers hold; and a worker's share
/// is in proportion to what it holds, to less than one.
pub proof fn a_share_is_in_proportion(total: nat, holds: Seq<usize>, i: int)
    requires
        0 <= i < holds.len(),
    ensures
        to_split(total, holds) <= total,
        to_split(total, holds) <= sum(holds),
        to_split(total, holds) == total || to_split(total, holds) == sum(holds),
        share(total, holds, i) <= holds[i],
        sum(holds) > 0 ==> -sum(holds) < share(total, holds, i) * sum(holds) - to_split(total, holds)
            * holds[i] <= sum(holds),
        total >= sum(holds) ==> share(total, holds, i) == holds[i],
{
    lemma_floor_share(total, holds, i);
    let d = sum(holds) as int;
    let f = floor_share(total, holds, i) as int;
    let t = to_split(total, holds) as int;
    let h = holds[i] as int;
    if d > 0 {
        assert((f + 1) * d == d * f + d) by (nonlinear_arith);
        assert(f * d == d * f) by (nonlinear_arith);
        if t == d {
            vstd::arithmetic::div_mod::lemma_div_by_multiple(h, d);
            assert(d * h == h * d) by (nonlinear_arith);
        }
    } else {
        lemma_sum_grows(holds, i + 1);
        lemma_sum_take(holds, i);
    }
}

/// The cuts that parts are made at go from nothing to all of it, and no two parts
/// between them differ by more than one.
pub proof fn cuts_go_from_nothing_to_all(total: nat, n: nat, i: nat, j: nat)
    requires
        i < n,
        j < n,
    ensures
        cut(total, n, 0) == 0,
        cut(total, n, n) == total,
        cut(total, n, i) <= cut(total, n, i + 1),
        cut(total, n, i + 1) - cut(total, n, i) <= cut(total, n, j + 1) - cut(total, n, j) + 1,
{
    assert(total * 0 == 0);
    vstd::arithmetic::div_mod::lemma_div_of0(n as int);
    vstd::arithmetic::div_mod::lemma_div_by_multiple(total as int, n as int);
    lemma_cut(total, n, i);
    lemma_cut(total, n, j);
}

} // verus!
