//! A token bucket, shared by the workers, for -el and -rl.

use vstd::prelude::*;

use crate::engine::conn::Nanos;

verus! {

/// The bucket counts in billionths of a token, of which a nanosecond brings as
/// many as a second brings tokens.
pub struct Limiter {
    rate: u64,
    tokens: u128,
    at: Nanos,
}

pub struct LimiterView {
    /// Tokens a second.
    pub rate: nat,
    /// Billionths of a token that were left at `at`.
    pub tokens: nat,
    pub at: nat,
}

/// A token, in what the bucket counts in.
pub open spec fn token() -> nat {
    1_000_000_000
}

impl LimiterView {
    /// What the bucket holds at most while `n` tokens are asked for.
    pub open spec fn brim(self, n: nat) -> nat {
        (if self.rate > n {
            self.rate
        } else {
            n
        }) * token()
    }

    pub open spec fn elapsed(self, now: nat) -> nat {
        if now > self.at {
            (now - self.at) as nat
        } else {
            0
        }
    }

    /// What the bucket holds by `now`.
    pub open spec fn filled(self, now: nat, n: nat) -> nat {
        let t = self.tokens + self.elapsed(now) * self.rate;
        if t < self.brim(n) {
            t
        } else {
            self.brim(n)
        }
    }

    pub open spec fn grants(self, now: nat, n: nat) -> bool {
        self.filled(now, n) >= n * token()
    }

    pub open spec fn after(self, now: nat, n: nat) -> LimiterView {
        LimiterView {
            tokens: if self.grants(now, n) {
                (self.filled(now, n) - n * token()) as nat
            } else {
                self.filled(now, n)
            },
            at: now,
            ..self
        }
    }

    /// How long until there will be enough, to the next whole nanosecond.
    pub open spec fn wait(self, now: nat, n: nat) -> nat {
        let missing = (n * token() - self.filled(now, n)) as nat;
        (missing + self.rate - 1) as nat / self.rate
    }
}

impl View for Limiter {
    type V = LimiterView;

    closed spec fn view(&self) -> LimiterView {
        LimiterView { rate: self.rate as nat, tokens: self.tokens as nat, at: self.at as nat }
    }
}

impl Limiter {
    pub closed spec fn wf(&self) -> bool {
        self.rate > 0 && self.tokens <= u64::MAX * token()
    }

    /// A full bucket of a second's tokens.
    pub fn new(per_second: usize, now: Nanos) -> (l: Self)
        requires
            per_second > 0,
        ensures
            l.wf(),
            l@ == (LimiterView {
                rate: per_second as nat,
                tokens: (per_second * token()) as nat,
                at: now as nat,
            }),
    {
        Limiter { rate: per_second as u64, tokens: per_second as u128 * 1_000_000_000, at: now }
    }

    /// Takes n tokens, or says how long until there will be enough.
    pub fn take(&mut self, now: Nanos, n: usize) -> (r: Result<(), Nanos>)
        requires
            old(self).wf(),
        ensures
            final(self).wf(),
            final(self)@ == old(self)@.after(now as nat, n as nat),
            match r {
                Ok(_) => old(self)@.grants(now as nat, n as nat),
                Err(wait) => {
                    &&& !old(self)@.grants(now as nat, n as nat)
                    &&& wait == old(self)@.wait(now as nat, n as nat)
                },
            },
    {
        let ghost l = self@;
        let rate: u128 = self.rate as u128;
        let most: u128 = if self.rate > n as u64 {
            self.rate as u128
        } else {
            n as u128
        };
        let brim: u128 = most * 1_000_000_000;
        let elapsed: u128 = if now > self.at {
            now - self.at
        } else {
            0
        };
        let filled: u128 = if elapsed > brim / rate {
            assert(elapsed * rate >= brim) by (nonlinear_arith)
                requires
                    elapsed > brim / rate,
                    rate > 0,
            ;
            brim
        } else {
            assert(elapsed * rate <= brim) by (nonlinear_arith)
                requires
                    elapsed <= brim / rate,
                    rate > 0,
            ;
            let t: u128 = self.tokens + elapsed * rate;
            if t < brim {
                t
            } else {
                brim
            }
        };
        assert(filled == l.filled(now as nat, n as nat));
        self.at = now;
        let want: u128 = n as u128 * 1_000_000_000;
        if filled >= want {
            self.tokens = filled - want;
            Ok(())
        } else {
            self.tokens = filled;
            Err((want - filled + (rate - 1)) / rate)
        }
    }
}

/// Once the time that a refused request was told has passed, there is enough.
pub proof fn enough_after_waiting(l: LimiterView, now: nat, n: nat)
    requires
        l.rate > 0,
        !l.grants(now, n),
    ensures
        l.after(now, n).grants(now + l.wait(now, n), n),
{
    let w = l.wait(now, n);
    let rate = l.rate;
    let missing = (n * token() - l.filled(now, n)) as nat;
    assert(w * rate >= missing) by (nonlinear_arith)
        requires
            rate > 0,
            w == (missing + rate - 1) as nat / rate,
    ;
    let a = l.after(now, n);
    assert(a.elapsed(now + w) == w);
    assert(a.brim(n) >= n * token());
}

/// A request that is told to wait would have been refused a nanosecond
/// before: the time it is told is no longer than it takes.
pub proof fn no_longer_than_it_takes(l: LimiterView, now: nat, n: nat, early: nat)
    requires
        l.rate > 0,
        !l.grants(now, n),
        early < l.wait(now, n),
    ensures
        !l.after(now, n).grants(now + early, n),
{
    let w = l.wait(now, n);
    let rate = l.rate;
    let missing = (n * token() - l.filled(now, n)) as nat;
    assert(early * rate < missing) by (nonlinear_arith)
        requires
            rate > 0,
            w == (missing + rate - 1) as nat / rate,
            early < w,
    ;
    let a = l.after(now, n);
    assert(a.elapsed(now + early) == early);
}

/// A request for tokens, at a moment.
pub struct Asked {
    pub now: nat,
    pub n: nat,
}

/// The bucket after requests, one after the other.
pub open spec fn after_all(l: LimiterView, asked: Seq<Asked>) -> LimiterView
    decreases asked.len(),
{
    if asked.len() == 0 {
        l
    } else {
        after_all(l, asked.drop_last()).after(asked.last().now, asked.last().n)
    }
}

/// How many tokens were taken by requests, one after the other.
pub open spec fn taken(l: LimiterView, asked: Seq<Asked>) -> nat
    decreases asked.len(),
{
    if asked.len() == 0 {
        0
    } else {
        taken(l, asked.drop_last()) + (if after_all(l, asked.drop_last()).grants(
            asked.last().now,
            asked.last().n,
        ) {
            asked.last().n
        } else {
            0
        })
    }
}

/// Whatever is asked, no more is taken than was there at first and the rate
/// brings in the time.
pub proof fn no_more_than_the_rate(l: LimiterView, asked: Seq<Asked>)
    requires
        forall|i: int| 0 <= i < asked.len() ==> l.at <= (#[trigger] asked[i]).now,
        forall|i: int, j: int|
            0 <= i <= j < asked.len() ==> (#[trigger] asked[i]).now <= (#[trigger] asked[j]).now,
    ensures
        asked.len() > 0 ==> taken(l, asked) * token() + after_all(l, asked).tokens <= l.tokens + (
        asked.last().now - l.at) * l.rate,
        asked.len() > 0 ==> after_all(l, asked).at == asked.last().now,
        after_all(l, asked).rate == l.rate,
    decreases asked.len(),
{
    if asked.len() > 0 {
        let before = asked.drop_last();
        assert forall|i: int| 0 <= i < before.len() implies l.at <= (#[trigger] before[i]).now by {
            assert(asked[i].now >= l.at);
        }
        assert forall|i: int, j: int| 0 <= i <= j < before.len() implies (
        #[trigger] before[i]).now <= (#[trigger] before[j]).now by {
            assert(asked[i].now <= asked[j].now);
        }
        no_more_than_the_rate(l, before);
        let m = after_all(l, before);
        let now = asked.last().now;
        let since = m.elapsed(now);
        if before.len() > 0 {
            assert(asked[before.len() - 1].now <= asked[asked.len() - 1].now);
            assert(before.last().now <= now);
            let a = before.last().now - l.at;
            let rate = l.rate;
            assert((a + since) * rate == a * rate + since * rate) by (nonlinear_arith);
        }
    }
}

/// Tokens come at the rate: as many are let through as were left and the time since
/// then brought, a billion nanoseconds bringing as many as the rate says, unless more
/// are asked for. Those that are let through are gone; and what does not suffice is
/// kept, with how long it will be until it does.
pub proof fn tokens_come_at_the_rate(l: LimiterView, now: nat, n: nat)
    requires
        l.rate > 0,
        l.at <= now,
    ensures
        ({
            let there = l.tokens + (now - l.at) * l.rate;
            let most = (if l.rate > n {
                l.rate
            } else {
                n
            }) * 1_000_000_000;
            let a = l.after(now, n);
            &&& l.grants(now, n) <==> there >= n * 1_000_000_000
            &&& a.rate == l.rate && a.at == now
            &&& l.grants(now, n) && there <= most ==> a.tokens == there - n * 1_000_000_000
            &&& l.grants(now, n) && there > most ==> a.tokens == most - n * 1_000_000_000
            &&& !l.grants(now, n) ==> a.tokens == there
            &&& !l.grants(now, n) ==> there + l.wait(now, n) * l.rate >= n * 1_000_000_000
            &&& !l.grants(now, n) ==> there + (l.wait(now, n) - 1) * l.rate < n * 1_000_000_000
        }),
{
    let rate = l.rate;
    assert(l.elapsed(now) == now - l.at);
    let most = l.brim(n);
    assert(most >= n * token());
    if !l.grants(now, n) {
        let w = l.wait(now, n);
        let missing = (n * token() - l.filled(now, n)) as nat;
        assert(w * rate >= missing && (w - 1) * rate < missing) by (nonlinear_arith)
            requires
                rate > 0,
                missing > 0,
                w == (missing + rate - 1) as nat / rate,
        ;
    }
}

/// A limiter lets a second's worth through at once when it is new, and from then on
/// as many as fit in the time.
pub proof fn a_new_limiter_is_full(rate: nat, at: nat, n: nat, ns: nat)
    requires
        rate > 0,
        n <= rate,
        ns * rate >= n * 1_000_000_000,
    ensures
        ({
            let l = LimiterView { rate, tokens: rate * 1_000_000_000, at };
            &&& l.grants(at, rate)
            &&& l.after(at, rate).tokens == 0
            &&& n > 0 ==> !l.after(at, rate).grants(at, n)
            &&& l.after(at, rate).grants(at + ns, n)
        }),
{
    let l = LimiterView { rate, tokens: rate * 1_000_000_000, at };
    tokens_come_at_the_rate(l, at, rate);
    tokens_come_at_the_rate(l.after(at, rate), at, n);
    tokens_come_at_the_rate(l.after(at, rate), at + ns, n);
    assert(0 * rate == 0);
}

} // verus!
