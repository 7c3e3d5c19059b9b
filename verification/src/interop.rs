//! The computations behind the .NET interop probe: a wrapping add, the sum
//! of a buffer the other side owns, and a busy loop whose result proves it
//! ran. Reading the raw buffer and the C strings stays at the boundary.

use vstd::prelude::*;

verus! {

/// `a + b`, wrapping around.
pub fn spike_add(a: i32, b: i32) -> (r: i32)
    ensures
        r == a.wrapping_add(b),
{
    a.wrapping_add(b)
}

/// The sum of `bytes`.
pub open spec fn byte_sum(bytes: Seq<u8>) -> nat
    decreases bytes.len(),
{
    if bytes.len() == 0 {
        0
    } else {
        byte_sum(bytes.drop_last()) + bytes.last() as nat
    }
}

/// The sum of a buffer, which must fit in a `u32`.
pub fn spike_sum_bytes(bytes: &[u8]) -> (r: u32)
    requires
        byte_sum(bytes@) <= u32::MAX,
    ensures
        r == byte_sum(bytes@),
{
    let mut total: u32 = 0;
    let mut i: usize = 0;
    while i < bytes.len()
        invariant
            i <= bytes@.len(),
            total == byte_sum(bytes@.take(i as int)),
            byte_sum(bytes@) <= u32::MAX,
        decreases bytes.len() - i,
    {
        assert(bytes@.take(i + 1).drop_last() =~= bytes@.take(i as int));
        proof {
            lemma_sum_prefix(bytes@, i + 1);
        }
        total = total + bytes[i] as u32;
        i += 1;
    }
    assert(bytes@.take(bytes@.len() as int) =~= bytes@);
    total
}

/// A prefix sums to no more than the whole.
proof fn lemma_sum_prefix(bytes: Seq<u8>, k: int)
    requires
        0 <= k <= bytes.len(),
    ensures
        byte_sum(bytes.take(k)) <= byte_sum(bytes),
    decreases bytes.len() - k,
{
    if k < bytes.len() {
        lemma_sum_prefix(bytes, k + 1);
        assert(bytes.take(k + 1).drop_last() =~= bytes.take(k));
    } else {
        assert(bytes.take(k) =~= bytes);
    }
}

/// Where the busy loop starts.
pub const SPIN_SEED: u64 = 0x9E3779B97F4A7C15;

/// One round of the busy loop: a xorshift step, then `i` added.
pub open spec fn spin_step(x: u64, i: u64) -> u64 {
    let a = x ^ (x << 13u64);
    let b = a ^ (a >> 7u64);
    let c = b ^ (b << 17u64);
    c.wrapping_add(i)
}

/// The busy loop's value after `n` rounds.
pub open spec fn spun(n: nat) -> u64
    decreases n,
{
    if n == 0 {
        SPIN_SEED
    } else {
        spin_step(spun((n - 1) as nat), (n - 1) as u64)
    }
}

/// Runs the busy loop for `iters` rounds.
pub fn spike_spin(iters: u64) -> (r: u64)
    ensures
        r == spun(iters as nat),
{
    let mut x: u64 = SPIN_SEED;
    let mut i: u64 = 0;
    while i < iters
        invariant
            i <= iters,
            x == spun(i as nat),
        decreases iters - i,
    {
        x ^= x << 13u64;
        x ^= x >> 7u64;
        x ^= x << 17u64;
        x = x.wrapping_add(i);
        i += 1;
    }
    x
}

} // verus!
