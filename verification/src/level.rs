//! Deterministic layer assignment for graph nodes.
//!
//! Each node's top layer is drawn from an exponentially decaying distribution:
//! the node id is scrambled by a fixed xorshift mix and the level is the run
//! of set low bits, capped at `MAX_LEVEL`, so each further layer is half as
//! likely to be populated. The seed is fixed, so rebuilding an index assigns
//! the same levels and builds are reproducible.
use vstd::prelude::*;

verus! {

/// Highest layer a node can be assigned to.
pub const MAX_LEVEL: usize = 12;

/// A fixed xorshift scramble of a node id.
pub open spec fn mix(x: u64) -> u64 {
    let a = x ^ 0x9E3779B97F4A7C15u64;
    let b = a ^ (a << 13u64);
    let c = b ^ (b >> 7u64);
    c ^ (c << 17u64)
}

/// The run of set low bits of `h`, at most `fuel`.
pub open spec fn level_from(h: u64, fuel: nat) -> nat
    decreases fuel,
{
    if fuel == 0 || (h & 1) == 0 {
        0
    } else {
        1 + level_from(h >> 1u64, (fuel - 1) as nat)
    }
}

/// The layer assigned to node `i`.
pub open spec fn level_of(i: u64) -> nat {
    level_from(mix(i), MAX_LEVEL as nat)
}

proof fn lemma_level_from_bound(h: u64, fuel: nat)
    ensures
        level_from(h, fuel) <= fuel,
    decreases fuel,
{
    if !(fuel == 0 || (h & 1) == 0) {
        lemma_level_from_bound(h >> 1u64, (fuel - 1) as nat);
    }
}

/// No node is assigned a layer above `MAX_LEVEL`.
pub proof fn lemma_level_of_bound(i: u64)
    ensures
        level_of(i) <= MAX_LEVEL,
{
    lemma_level_from_bound(mix(i), MAX_LEVEL as nat);
}

/// The layer assigned to node `i`.
pub fn node_level(i: u64) -> (l: usize)
    ensures
        l as nat == level_of(i),
        l <= MAX_LEVEL,
{
    let h0: u64 = i ^ 0x9E3779B97F4A7C15;
    let h1: u64 = h0 ^ (h0 << 13);
    let h2: u64 = h1 ^ (h1 >> 7);
    let mut h: u64 = h2 ^ (h2 << 17);
    let mut l: usize = 0;
    while l < MAX_LEVEL && (h & 1) == 1
        invariant
            l <= MAX_LEVEL,
            level_of(i) == l + level_from(h, (MAX_LEVEL - l) as nat),
        decreases MAX_LEVEL - l,
    {
        l += 1;
        h = h >> 1;
    }
    proof {
        lemma_level_of_bound(i);
        assert(h & 1 == 0 || h & 1 == 1) by (bit_vector);
    }
    l
}

} // verus!
