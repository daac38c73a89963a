//! Registry-level consequences of the contracts, stated and proved once so
//! callers need not rederive them.
use vstd::prelude::*;
use crate::index::{IndexModel, index_wf, empty_index};
use crate::registry::{find_name, find_at, registry_wf};
use crate::codec::{ser_index, index_sized, lemma_ser_index_injective};

verus! {

/// Round trip of persistence: `dump` hands out `ser_index(v)` for the dumped
/// index `v`, and a successful `load` of bytes yields an entry that
/// re-serializes to those bytes. For machine-sized indexes the byte stream
/// determines the index, so the loaded entry is exactly the index that was
/// dumped — every later search sees the same dimension, items, metric, state
/// and graph.
pub proof fn lemma_dump_then_load_identical(v: IndexModel, nv: IndexModel, bytes: Seq<u8>)
    requires
        index_wf(v),
        index_sized(v),
        bytes == ser_index(v),
        index_wf(nv),
        index_sized(nv),
        ser_index(nv) == bytes,
    ensures
        nv == v,
{
    lemma_ser_index_injective(nv, v);
}

proof fn lemma_find_props(s: Seq<(Seq<char>, IndexModel)>, name: Seq<char>, i: int)
    requires
        0 <= i <= s.len(),
    ensures
        i <= find_at(s, name, i) <= s.len(),
        find_at(s, name, i) < s.len() ==> s[find_at(s, name, i)].0 == name,
        forall|j: int| i <= j < find_at(s, name, i) ==> (#[trigger] s[j]).0 != name,
    decreases s.len() - i,
{
    if i < s.len() && s[i].0 != name {
        lemma_find_props(s, name, i + 1);
    }
}

/// An index holding no items cannot be in the built state: a build succeeds
/// only over at least one item, so `build` on an empty index, which fails
/// with `EmptyIndex` and leaves the index unchanged, leaves it unbuilt.
pub proof fn lemma_empty_index_unbuilt(v: IndexModel)
    requires
        index_wf(v),
        v.items.len() == 0,
    ensures
        !v.built,
{
}

/// After `create`, the named registry entry is a fresh unbuilt index of the
/// requested dimension. Together with `search`'s contract, which returns the
/// empty sequence on any unbuilt index, a search under that name right after
/// `create` yields no labels for every query of the right length.
pub proof fn lemma_create_then_search_empty(
    s0: Seq<(Seq<char>, IndexModel)>,
    name: Seq<char>,
    dimension: nat,
)
    requires
        registry_wf(s0),
    ensures
        ({
            let f0 = find_name(s0, name);
            let s1 = if f0 == s0.len() {
                s0.push((name, empty_index(dimension)))
            } else {
                s0.update(f0, (name, empty_index(dimension)))
            };
            let f1 = find_name(s1, name);
            &&& f1 < s1.len()
            &&& s1[f1].1 == empty_index(dimension)
            &&& !s1[f1].1.built
        }),
{
    let f0 = find_name(s0, name);
    let s1 = if f0 == s0.len() {
        s0.push((name, empty_index(dimension)))
    } else {
        s0.update(f0, (name, empty_index(dimension)))
    };
    lemma_find_props(s0, name, 0);
    lemma_find_props(s1, name, 0);
    let p = if f0 == s0.len() {
        s0.len() as int
    } else {
        f0
    };
    assert(s1[p].0 == name);
    let f1 = find_name(s1, name);
    assert(f1 <= p);
    if f1 < p {
        assert(s1[f1].0 == s0[f1].0);
        assert(s0[f1].0 != name);
        assert(false);
    }
}

} // verus!
