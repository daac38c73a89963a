//! A name-addressed registry of independent indexes.
//!
//! Operations are keyed by name and fail soft: touching an absent name is a
//! no-op with a documented sentinel result (`load` instead creates the name).
//! The registry itself is a sequential structure; a caller that shares it
//! across threads guards every operation with one lock, which serializes all
//! index operations.
use vstd::prelude::*;
use crate::metric::Metric;
use crate::index::{
    VectorIndex, IndexModel, ItemModel, index_wf, empty_index, built_from, search_result_ok,
    labels_view,
};
use crate::codec::{ser_index, index_sized, from_bytes, observe_index_sized};
use crate::dist::scalar_ok;
use crate::DIM_MAX;
use crate::IndexError;

verus! {

/// The mathematical value of a registry: its name-to-index entries in order.
pub open spec fn reg_view(s: Seq<(String, VectorIndex)>) -> Seq<(Seq<char>, IndexModel)> {
    Seq::new(s.len(), |i: int| (s[i].0@, s[i].1@))
}

/// The first position holding `name`, or the length when absent.
pub open spec fn find_at(s: Seq<(Seq<char>, IndexModel)>, name: Seq<char>, i: int) -> int
    decreases s.len() - i,
{
    if i < 0 || i >= s.len() {
        s.len() as int
    } else if s[i].0 == name {
        i
    } else {
        find_at(s, name, i + 1)
    }
}

/// The position of `name` in the registry, or the length when absent.
pub open spec fn find_name(s: Seq<(Seq<char>, IndexModel)>, name: Seq<char>) -> int {
    find_at(s, name, 0)
}

/// The registry invariant: every index is well formed and names are unique.
pub open spec fn registry_wf(s: Seq<(Seq<char>, IndexModel)>) -> bool {
    &&& forall|i: int| 0 <= i < s.len() ==> index_wf((#[trigger] s[i]).1)
    &&& forall|i: int, j: int|
        #![trigger s[i].0, s[j].0]
        0 <= i < j < s.len() ==> s[i].0 != s[j].0
}

proof fn lemma_find_at_props(s: Seq<(Seq<char>, IndexModel)>, name: Seq<char>, i: int)
    requires
        0 <= i <= s.len(),
    ensures
        i <= find_at(s, name, i) <= s.len(),
        find_at(s, name, i) < s.len() ==> s[find_at(s, name, i)].0 == name,
        forall|j: int| i <= j < find_at(s, name, i) ==> (#[trigger] s[j]).0 != name,
    decreases s.len() - i,
{
    if i < s.len() && s[i].0 != name {
        lemma_find_at_props(s, name, i + 1);
    }
}

proof fn lemma_registry_wf_upsert(
    old_s: Seq<(Seq<char>, IndexModel)>,
    new_s: Seq<(Seq<char>, IndexModel)>,
    f: int,
    name: Seq<char>,
    nv: IndexModel,
)
    requires
        registry_wf(old_s),
        index_wf(nv),
        f == find_name(old_s, name),
        f == old_s.len() ==> new_s == old_s.push((name, nv)),
        f < old_s.len() ==> new_s == old_s.update(f, (name, nv)),
    ensures
        registry_wf(new_s),
{
    lemma_find_at_props(old_s, name, 0);
    assert forall|i: int| 0 <= i < new_s.len() implies index_wf((#[trigger] new_s[i]).1) by {
        if i != f {
            assert(new_s[i] == old_s[i]);
        }
    }
    assert forall|i: int, j: int|
        #![trigger new_s[i].0, new_s[j].0]
        0 <= i < j < new_s.len() implies new_s[i].0 != new_s[j].0 by {
        if f == old_s.len() {
            if j == f {
                assert(new_s[i].0 == old_s[i].0);
                assert(old_s[i].0 != name);
            } else {
                assert(new_s[i].0 == old_s[i].0);
                assert(new_s[j].0 == old_s[j].0);
            }
        } else {
            assert(old_s[f].0 == name);
            if i == f {
                assert(new_s[j].0 == old_s[j].0);
            } else if j == f {
                assert(new_s[i].0 == old_s[i].0);
            } else {
                assert(new_s[i].0 == old_s[i].0);
                assert(new_s[j].0 == old_s[j].0);
            }
        }
    }
}

/// A process-wide mapping from names to exclusively owned indexes.
pub struct IndexRegistry {
    pub entries: Vec<(String, VectorIndex)>,
}

impl View for IndexRegistry {
    type V = Seq<(Seq<char>, IndexModel)>;

    open spec fn view(&self) -> Seq<(Seq<char>, IndexModel)> {
        reg_view(self.entries@)
    }
}

impl IndexRegistry {
    /// An empty registry.
    pub fn new() -> (r: IndexRegistry)
        ensures
            r@ == Seq::<(Seq<char>, IndexModel)>::empty(),
            registry_wf(r@),
    {
        let r = IndexRegistry { entries: Vec::new() };
        proof {
            assert(r@ =~= Seq::<(Seq<char>, IndexModel)>::empty());
        }
        r
    }

    /// The position of `name`, or the entry count when absent.
    fn find(&self, name: &String) -> (r: usize)
        ensures
            r as int == find_name(self@, name@),
            r <= self@.len(),
            r < self@.len() ==> self@[r as int].0 == name@,
    {
        let mut i: usize = 0;
        while i < self.entries.len()
            invariant
                i <= self.entries@.len(),
                find_name(self@, name@) == find_at(self@, name@, i as int),
                self@.len() == self.entries@.len(),
            decreases self.entries@.len() - i,
        {
            let e = &self.entries[i];
            if e.0 == *name {
                return i;
            }
            i += 1;
        }
        self.entries.len()
    }

    /// Inserts a fresh unbuilt index of the given dimension under `name`,
    /// silently discarding any prior index of that name.
    pub fn create(&mut self, name: &String, dimension: usize)
        requires
            registry_wf(old(self)@),
            1 <= dimension <= DIM_MAX,
        ensures
            registry_wf(final(self)@),
            ({
                let f = find_name(old(self)@, name@);
                if f == old(self)@.len() {
                    final(self)@ == old(self)@.push((name@, empty_index(dimension as nat)))
                } else {
                    final(self)@ == old(self)@.update(f, (name@, empty_index(dimension as nat)))
                }
            }),
    {
        let i: usize = self.find(name);
        if i < self.entries.len() {
            self.entries[i] = (name.clone(), VectorIndex::new(dimension));
            proof {
                assert(self@ =~= old(self)@.update(
                    find_name(old(self)@, name@),
                    (name@, empty_index(dimension as nat)),
                ));
                lemma_registry_wf_upsert(
                    old(self)@,
                    self@,
                    find_name(old(self)@, name@),
                    name@,
                    empty_index(dimension as nat),
                );
            }
        } else {
            self.entries.push((name.clone(), VectorIndex::new(dimension)));
            proof {
                assert(self@ =~= old(self)@.push((name@, empty_index(dimension as nat))));
                lemma_registry_wf_upsert(
                    old(self)@,
                    self@,
                    find_name(old(self)@, name@),
                    name@,
                    empty_index(dimension as nat),
                );
            }
        }
    }

    /// Appends `(vector, label)` to the index under `name`. Absent names are
    /// a silent no-op; a vector of the wrong length is reported as
    /// `DimensionMismatch` rather than dropped silently.
    pub fn add(&mut self, name: &String, vector: Vec<i64>, label: String) -> (r: Result<
        (),
        IndexError,
    >)
        requires
            registry_wf(old(self)@),
            forall|i: int| 0 <= i < vector@.len() ==> scalar_ok(#[trigger] vector@[i]),
        ensures
            registry_wf(final(self)@),
            ({
                let f = find_name(old(self)@, name@);
                if f == old(self)@.len() {
                    final(self)@ == old(self)@ && r is Ok
                } else {
                    let v0 = old(self)@[f].1;
                    if vector@.len() == v0.dimension {
                        r is Ok && final(self)@ == old(self)@.update(
                            f,
                            (
                                old(self)@[f].0,
                                (IndexModel {
                                    items: v0.items.push(
                                        ItemModel { vector: vector@, label: label@ },
                                    ),
                                    ..v0
                                }),
                            ),
                        )
                    } else {
                        r == Err::<(), IndexError>(IndexError::DimensionMismatch) && final(self)@
                            == old(self)@
                    }
                }
            }),
    {
        let i: usize = self.find(name);
        if i == self.entries.len() {
            return Ok(());
        }
        let res = self.entries[i].1.add(vector, label);
        proof {
            let f = find_name(old(self)@, name@);
            let v0 = old(self)@[f].1;
            if vector@.len() == v0.dimension {
                assert(self@ =~= old(self)@.update(
                    f,
                    (
                        old(self)@[f].0,
                        (IndexModel {
                            items: v0.items.push(ItemModel { vector: vector@, label: label@ }),
                            ..v0
                        }),
                    ),
                ));
            } else {
                assert(self@ =~= old(self)@);
            }
        }
        res
    }

    /// Builds the index under `name`, returning a status string: `"Ok"`, the
    /// error description, or `"No index"` when the name is absent.
    pub fn build(&mut self, name: &String, metric: Metric) -> (r: String)
        requires
            registry_wf(old(self)@),
        ensures
            registry_wf(final(self)@),
            ({
                let f = find_name(old(self)@, name@);
                if f == old(self)@.len() {
                    final(self)@ == old(self)@ && r@ == "No index"@
                } else {
                    let v0 = old(self)@[f].1;
                    if v0.items.len() == 0 {
                        final(self)@ == old(self)@ && r@ == "Empty index"@
                    } else {
                        r@ == "Ok"@ && exists|nv: IndexModel|
                            built_from(v0, metric, nv) && final(self)@ == old(self)@.update(
                                f,
                                (old(self)@[f].0, nv),
                            )
                    }
                }
            }),
    {
        let i: usize = self.find(name);
        if i == self.entries.len() {
            return "No index".to_owned();
        }
        let res = self.entries[i].1.build(metric);
        match res {
            Ok(()) => {
                proof {
                    let f = find_name(old(self)@, name@);
                    let nv = self@[f].1;
                    assert(self@ =~= old(self)@.update(f, (old(self)@[f].0, nv)));
                }
                "Ok".to_owned()
            },
            Err(e) => {
                proof {
                    assert(self@ =~= old(self)@);
                }
                e.message()
            },
        }
    }

    /// The labels of up to `k` vectors near `q` in the index under `name`,
    /// nearest-first. Empty when the name is absent, the query has the wrong
    /// length, or the index has not been built.
    pub fn search(&self, name: &String, k: usize, q: &Vec<i64>) -> (r: Vec<String>)
        requires
            registry_wf(self@),
            forall|i: int| 0 <= i < q@.len() ==> scalar_ok(#[trigger] q@[i]),
        ensures
            ({
                let f = find_name(self@, name@);
                if f == self@.len() {
                    r@.len() == 0
                } else {
                    let v0 = self@[f].1;
                    if q@.len() != v0.dimension {
                        r@.len() == 0
                    } else {
                        &&& (!v0.built ==> r@.len() == 0)
                        &&& (v0.built ==> r@.len() == (if (k as int) <= v0.graph.len() {
                            k as int
                        } else {
                            v0.graph.len() as int
                        }))
                        &&& exists|ids: Seq<usize>| search_result_ok(v0, q@, ids, labels_view(r@))
                    }
                }
            }),
    {
        let i: usize = self.find(name);
        if i == self.entries.len() {
            return Vec::new();
        }
        let e = &self.entries[i];
        if q.len() != e.1.dimension {
            return Vec::new();
        }
        e.1.search(q, k)
    }

    /// Replaces (or creates) the index under `name` from a persisted byte
    /// stream. On any malformed stream the registry is left unchanged and
    /// `CorruptData` comes back.
    pub fn load(&mut self, name: &String, bytes: &Vec<u8>) -> (r: Result<(), IndexError>)
        requires
            registry_wf(old(self)@),
        ensures
            registry_wf(final(self)@),
            r is Err ==> final(self)@ == old(self)@ && r == Err::<(), IndexError>(
                IndexError::CorruptData,
            ),
            r is Ok ==> exists|nv: IndexModel|
                {
                    &&& index_wf(nv)
                    &&& index_sized(nv)
                    &&& ser_index(nv) == bytes@
                    &&& ({
                        let f = find_name(old(self)@, name@);
                        if f == old(self)@.len() {
                            final(self)@ == old(self)@.push((name@, nv))
                        } else {
                            final(self)@ == old(self)@.update(f, (name@, nv))
                        }
                    })
                },
    {
        let parsed = from_bytes(bytes);
        match parsed {
            Err(e) => Err(e),
            Ok(idx) => {
                let ghost nv = idx@;
                let i: usize = self.find(name);
                if i < self.entries.len() {
                    self.entries[i] = (name.clone(), idx);
                    proof {
                        assert(self@ =~= old(self)@.update(
                            find_name(old(self)@, name@),
                            (name@, nv),
                        ));
                        lemma_registry_wf_upsert(
                            old(self)@,
                            self@,
                            find_name(old(self)@, name@),
                            name@,
                            nv,
                        );
                    }
                } else {
                    self.entries.push((name.clone(), idx));
                    proof {
                        assert(self@ =~= old(self)@.push((name@, nv)));
                        lemma_registry_wf_upsert(
                            old(self)@,
                            self@,
                            find_name(old(self)@, name@),
                            name@,
                            nv,
                        );
                    }
                }
                Ok(())
            },
        }
    }

    /// The canonical byte stream of the index under `name`, or nothing when
    /// the name is absent.
    pub fn dump(&self, name: &String) -> (r: Option<Vec<u8>>)
        requires
            registry_wf(self@),
        ensures
            ({
                let f = find_name(self@, name@);
                if f == self@.len() {
                    r is None
                } else {
                    r is Some && r->0@ == ser_index(self@[f].1) && index_sized(self@[f].1)
                }
            }),
    {
        let i: usize = self.find(name);
        if i == self.entries.len() {
            return None;
        }
        observe_index_sized(&self.entries[i].1);
        Some(self.entries[i].1.to_bytes())
    }
}

} // verus!
