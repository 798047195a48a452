//! Random bytes: the bodies of requests, and connection IDs.

use std::sync::Arc;
use vstd::prelude::*;

verus! {

/// `rand::fill` writes random bytes over a slice, all of it and nothing else,
/// so its length stays. What the bytes are is up to chance.
#[verifier::external_body]
fn fill(b: &mut Vec<u8>)
    ensures
        final(b)@.len() == old(b)@.len(),
{
    rand::fill(&mut b[..])
}

/// That many random bytes.
pub fn random_bytes(n: usize) -> (b: Vec<u8>)
    ensures
        b@.len() == n,
{
    let mut b: Vec<u8> = Vec::new();
    let mut i: usize = 0;
    while i < n
        invariant
            i <= n,
            b@.len() == i,
        decreases n - i,
    {
        b.push(0);
        i += 1;
    }
    fill(&mut b);
    b
}

/// How many bodies the requests of a benchmark take turns with.
pub const PAYLOADS: usize = 1024;

/// The bodies a benchmark's requests carry, each of that many random bytes.
pub fn payloads(len: usize) -> (v: Vec<Arc<Vec<u8>>>)
    ensures
        v@.len() == PAYLOADS,
        forall|i: int| 0 <= i < v@.len() ==> (#[trigger] v@[i])@.len() == len,
{
    let mut v: Vec<Arc<Vec<u8>>> = Vec::new();
    let mut i: usize = 0;
    while i < PAYLOADS
        invariant
            i <= PAYLOADS,
            v@.len() == i,
            forall|k: int| 0 <= k < i ==> (#[trigger] v@[k])@.len() == len,
        decreases PAYLOADS - i,
    {
        v.push(Arc::new(random_bytes(len)));
        i += 1;
    }
    v
}

} // verus!
