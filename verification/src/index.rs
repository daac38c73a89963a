//! A single named approximate-nearest-neighbor index: items, the layered
//! navigable graph over them, build, and top-k search.
use vstd::prelude::*;
use crate::metric::Metric;
use crate::dist::{
    scalar_ok, vec_ok, key_of, key_le, key_wf, KeyModel, DistKey, dist_key, key_le_exec,
    lemma_key_le_trans,
};
use crate::level::{MAX_LEVEL, level_of, node_level};
use crate::DIM_MAX;
use crate::IndexError;

verus! {

/// Neighbor-list cap for a node's own lists and for upper layers.
pub const M_NEIGHBORS: usize = 16;

/// Neighbor-list cap at the bottom layer.
pub const M0_NEIGHBORS: usize = 32;

/// Beam width while inserting a node during build.
pub const EF_CONSTRUCTION: usize = 50;

/// Least beam width at the bottom layer during search.
pub const EF_SEARCH: usize = 50;

/// A stored vector together with its opaque label.
pub struct Item {
    pub vector: Vec<i64>,
    pub label: String,
}

/// The mathematical value of an item.
#[verifier::ext_equal]
pub ghost struct ItemModel {
    pub vector: Seq<i64>,
    pub label: Seq<char>,
}

impl View for Item {
    type V = ItemModel;

    open spec fn view(&self) -> ItemModel {
        ItemModel { vector: self.vector@, label: self.label@ }
    }
}

/// The mathematical value of an index: its dimension, the metric of the last
/// build, whether a build has succeeded, the items in insertion order, the
/// layered adjacency lists of the graph, and the entry node.
#[verifier::ext_equal]
pub ghost struct IndexModel {
    pub dimension: nat,
    pub metric: Metric,
    pub built: bool,
    pub items: Seq<ItemModel>,
    pub graph: Seq<Seq<Seq<usize>>>,
    pub entry: usize,
}

/// The item sequence a `Vec<Item>` stands for.
pub open spec fn items_view(items: Seq<Item>) -> Seq<ItemModel> {
    Seq::new(items.len(), |i: int| items[i]@)
}

/// The adjacency structure a graph vector stands for.
pub open spec fn graph_view(g: Seq<Vec<Vec<usize>>>) -> Seq<Seq<Seq<usize>>> {
    Seq::new(g.len(), |i: int| Seq::new(g[i]@.len(), |l: int| g[i]@[l]@))
}

/// The neighbor cap of a layer: wider at the bottom layer.
pub open spec fn layer_cap(l: int) -> int {
    if l == 0 {
        M0_NEIGHBORS as int
    } else {
        M_NEIGHBORS as int
    }
}

/// Whether all items have in-range vectors of the given dimension.
pub open spec fn items_ok(items: Seq<ItemModel>, dim: nat) -> bool {
    forall|i: int| 0 <= i < items.len() ==> vec_ok((#[trigger] items[i]).vector, dim)
}

/// Whether node `i` of graph `g` is well formed: it spans at least the bottom
/// layer and at most `MAX_LEVEL + 1` layers, its lists respect the layer caps,
/// and every neighbor is another node of the graph that reaches the layer of
/// the edge.
pub open spec fn node_wf(g: Seq<Seq<Seq<usize>>>, i: int) -> bool {
    let node = g[i];
    &&& 1 <= node.len() <= MAX_LEVEL as int + 1
    &&& forall|l: int| 0 <= l < node.len() ==> (#[trigger] node[l]).len() <= layer_cap(l)
    &&& forall|l: int, j: int|
        0 <= l < node.len() && 0 <= j < node[l].len() ==> {
            let nb = (#[trigger] node[l][j]) as int;
            &&& nb < g.len()
            &&& nb != i
            &&& l < g[nb].len()
        }
}

/// Whether a graph is well formed with `entry` a node of maximal level.
pub open spec fn graph_wf(g: Seq<Seq<Seq<usize>>>, entry: usize) -> bool {
    &&& forall|i: int| 0 <= i < g.len() ==> node_wf(g, i)
    &&& (entry as int) < g.len()
    &&& forall|i: int| 0 <= i < g.len() ==> (#[trigger] g[i]).len() <= g[entry as int].len()
}

/// The invariant of every index: a positive bounded dimension, in-range items,
/// and, once built, a nonempty well-formed graph over a prefix of the items;
/// before any build the graph is empty.
pub open spec fn index_wf(v: IndexModel) -> bool {
    &&& 1 <= v.dimension <= DIM_MAX as nat
    &&& items_ok(v.items, v.dimension)
    &&& v.graph.len() <= v.items.len()
    &&& if v.built {
        &&& v.graph.len() >= 1
        &&& graph_wf(v.graph, v.entry)
    } else {
        &&& v.graph.len() == 0
        &&& v.entry == 0
    }
}

/// The value of a fresh index of the given dimension.
pub open spec fn empty_index(dim: nat) -> IndexModel {
    IndexModel {
        dimension: dim,
        metric: Metric::Unknown,
        built: false,
        items: Seq::empty(),
        graph: Seq::empty(),
        entry: 0,
    }
}

/// How many of the first `n` entries are true.
pub open spec fn count_true(s: Seq<bool>, n: int) -> int
    decreases n,
{
    if n <= 0 {
        0
    } else {
        count_true(s, n - 1) + (if s[n - 1] {
            1int
        } else {
            0int
        })
    }
}

proof fn lemma_count_true_le(s: Seq<bool>, n: int)
    requires
        0 <= n <= s.len(),
    ensures
        0 <= count_true(s, n) <= n,
    decreases n,
{
    if n > 0 {
        lemma_count_true_le(s, n - 1);
    }
}

proof fn lemma_count_true_update(s: Seq<bool>, idx: int, n: int)
    requires
        0 <= idx < n <= s.len(),
        !s[idx],
    ensures
        count_true(s.update(idx, true), n) == count_true(s, n) + 1,
    decreases n,
{
    if idx == n - 1 {
        assert(forall|j: int| 0 <= j < n - 1 ==> s.update(idx, true)[j] == s[j]);
        lemma_count_true_same(s, s.update(idx, true), n - 1);
    } else {
        lemma_count_true_update(s, idx, n - 1);
    }
}

proof fn lemma_count_true_same(a: Seq<bool>, b: Seq<bool>, n: int)
    requires
        0 <= n <= a.len(),
        n <= b.len(),
        forall|j: int| 0 <= j < n ==> a[j] == b[j],
    ensures
        count_true(a, n) == count_true(b, n),
    decreases n,
{
    if n > 0 {
        lemma_count_true_same(a, b, n - 1);
    }
}

proof fn lemma_count_true_full(s: Seq<bool>, n: int)
    requires
        0 <= n <= s.len(),
        forall|j: int| 0 <= j < n ==> s[j],
    ensures
        count_true(s, n) == n,
    decreases n,
{
    if n > 0 {
        lemma_count_true_full(s, n - 1);
    }
}

proof fn lemma_count_true_none(s: Seq<bool>, n: int)
    requires
        0 <= n <= s.len(),
        forall|j: int| 0 <= j < n ==> !s[j],
    ensures
        count_true(s, n) == 0,
    decreases n,
{
    if n > 0 {
        lemma_count_true_none(s, n - 1);
    }
}

proof fn lemma_distinct_pick(ids: Seq<usize>, t: int, best: int)
    requires
        forall|j1: int, j2: int|
            #![trigger ids[j1], ids[j2]]
            0 <= j1 < j2 < ids.len() ==> ids[j1] != ids[j2],
        0 <= t < ids.len(),
        0 <= best < ids.len(),
        t != best,
    ensures
        ids[t] != ids[best],
{
}

/// The distance key of the stored item `id` against query `q`.
pub open spec fn cand_key(m: Metric, q: Seq<i64>, items: Seq<ItemModel>, id: usize) -> KeyModel {
    key_of(m, q, items[id as int].vector)
}

/// Whether `id` is a graph node that spans `layer`.
pub open spec fn node_at_layer(gm: Seq<Seq<Seq<usize>>>, layer: usize, id: usize) -> bool {
    &&& (id as int) < gm.len()
    &&& (layer as int) < gm[id as int].len()
}

/// The position of a farthest key.
fn worst_index(keys: &Vec<DistKey>) -> (w: usize)
    requires
        keys@.len() >= 1,
        forall|j: int| 0 <= j < keys@.len() ==> key_wf((#[trigger] keys@[j])@),
    ensures
        (w as int) < keys@.len(),
        forall|j: int| 0 <= j < keys@.len() ==> key_le((#[trigger] keys@[j])@, keys@[w as int]@),
{
    let mut w: usize = 0;
    let mut j: usize = 1;
    while j < keys.len()
        invariant
            keys@.len() >= 1,
            (w as int) < j <= keys@.len(),
            forall|t: int| 0 <= t < keys@.len() ==> key_wf((#[trigger] keys@[t])@),
            forall|t: int| 0 <= t < j ==> key_le((#[trigger] keys@[t])@, keys@[w as int]@),
        decreases keys@.len() - j,
    {
        if key_le_exec(&keys[w], &keys[j]) {
            proof {
                assert forall|t: int| 0 <= t < j implies key_le(
                    (#[trigger] keys@[t])@,
                    keys@[j as int]@,
                ) by {
                    lemma_key_le_trans(keys@[t]@, keys@[w as int]@, keys@[j as int]@);
                }
            }
            w = j;
        }
        j += 1;
    }
    w
}

/// Bounded best-first traversal of one layer: starting from `start`, visits
/// neighbors of the closest unexpanded candidates and keeps the `ef` closest
/// nodes seen. Returns the kept nodes (in no stated order) and their keys.
#[verifier::rlimit(30)]
fn beam_layer(
    g: &Vec<Vec<Vec<usize>>>,
    items: &Vec<Item>,
    m: Metric,
    q: &Vec<i64>,
    layer: usize,
    start: usize,
    ef: usize,
) -> (out: (Vec<usize>, Vec<DistKey>))
    requires
        ef >= 1,
        q@.len() <= DIM_MAX,
        vec_ok(q@, q@.len()),
        items_ok(items_view(items@), q@.len()),
        graph_view(g@).len() <= items@.len(),
        forall|i: int| 0 <= i < graph_view(g@).len() ==> node_wf(graph_view(g@), i),
        node_at_layer(graph_view(g@), layer, start),
    ensures
        1 <= out.0@.len() <= ef,
        out.0@.len() <= g@.len(),
        out.1@.len() == out.0@.len(),
        forall|j: int|
            0 <= j < out.0@.len() ==> node_at_layer(graph_view(g@), layer, #[trigger] out.0@[j]),
        forall|j: int|
            0 <= j < out.0@.len() ==> (#[trigger] out.1@[j])@ == cand_key(
                m,
                q@,
                items_view(items@),
                out.0@[j],
            ) && key_wf(out.1@[j]@),
        forall|j1: int, j2: int| 0 <= j1 < j2 < out.0@.len() ==> out.0@[j1] != out.0@[j2],
{
    let ghost gm = graph_view(g@);
    let ghost im = items_view(items@);
    let n: usize = g.len();
    let mut visited: Vec<bool> = vec![false; n];
    proof {
        lemma_count_true_none(visited@, n as int);
    }
    proof {
        assert(vec_ok(im[start as int].vector, q@.len()));
    }
    let kstart: DistKey = dist_key(m, q, &items[start].vector);
    proof {
        lemma_count_true_update(visited@, start as int, n as int);
    }
    visited[start] = true;
    let mut res: Vec<usize> = Vec::new();
    let mut keys: Vec<DistKey> = Vec::new();
    res.push(start);
    keys.push(kstart);
    let mut frontier: Vec<usize> = Vec::new();
    frontier.push(start);
    while frontier.len() > 0
        invariant
            gm == graph_view(g@),
            im == items_view(items@),
            n == g@.len(),
            ef >= 1,
            q@.len() <= DIM_MAX,
            vec_ok(q@, q@.len()),
            items_ok(im, q@.len()),
            gm.len() <= items@.len(),
            forall|i: int| 0 <= i < gm.len() ==> node_wf(gm, i),
            visited@.len() == n,
            res@.len() == keys@.len(),
            1 <= res@.len() <= ef,
            res@.len() <= count_true(visited@, n as int),
            count_true(visited@, n as int) <= n,
            forall|j: int|
                0 <= j < res@.len() ==> node_at_layer(gm, layer, #[trigger] res@[j]) && visited@[
                    res@[j] as int
                ],
            forall|j: int|
                0 <= j < keys@.len() ==> (#[trigger] keys@[j])@ == cand_key(m, q@, im, res@[j])
                    && key_wf(keys@[j]@),
            forall|j1: int, j2: int| 0 <= j1 < j2 < res@.len() ==> res@[j1] != res@[j2],
            forall|j: int| 0 <= j < frontier@.len() ==> node_at_layer(gm, layer, #[trigger] frontier@[j]),
        decreases frontier@.len() + n - count_true(visited@, n as int),
    {
        let ghost measure0 = frontier@.len() + n - count_true(visited@, n as int);
        let c: usize = match frontier.pop() {
            Some(x) => x,
            None => {
                return (res, keys);
            },
        };
        proof {
            assert(vec_ok(im[c as int].vector, q@.len()));
        }
        let kc: DistKey = dist_key(m, q, &items[c].vector);
        if res.len() == ef {
            let w: usize = worst_index(&keys);
            if !key_le_exec(&kc, &keys[w]) {
                continue ;
            }
        }
        let mut t: usize = 0;
        while t < g[c][layer].len()
            invariant
                gm == graph_view(g@),
                im == items_view(items@),
                n == g@.len(),
                ef >= 1,
                q@.len() <= DIM_MAX,
                vec_ok(q@, q@.len()),
                items_ok(im, q@.len()),
                gm.len() <= items@.len(),
                forall|i: int| 0 <= i < gm.len() ==> node_wf(gm, i),
                node_at_layer(gm, layer, c),
                t <= gm[c as int][layer as int].len(),
                visited@.len() == n,
                res@.len() == keys@.len(),
                1 <= res@.len() <= ef,
                res@.len() <= count_true(visited@, n as int),
                count_true(visited@, n as int) <= n,
                frontier@.len() + n - count_true(visited@, n as int) <= measure0 - 1,
                forall|j: int|
                    0 <= j < res@.len() ==> node_at_layer(gm, layer, #[trigger] res@[j])
                        && visited@[res@[j] as int],
                forall|j: int|
                    0 <= j < keys@.len() ==> (#[trigger] keys@[j])@ == cand_key(m, q@, im, res@[j])
                        && key_wf(keys@[j]@),
                forall|j1: int, j2: int| 0 <= j1 < j2 < res@.len() ==> res@[j1] != res@[j2],
                forall|j: int|
                    0 <= j < frontier@.len() ==> node_at_layer(gm, layer, #[trigger] frontier@[j]),
            decreases gm[c as int][layer as int].len() - t,
        {
            let nb: usize = g[c][layer][t];
            proof {
                assert(node_wf(gm, c as int));
                assert(gm[c as int][layer as int][t as int] == nb);
            }
            if !visited[nb] {
                proof {
                    lemma_count_true_update(visited@, nb as int, n as int);
                }
                visited[nb] = true;
                proof {
                    lemma_count_true_le(visited@, n as int);
                    assert(vec_ok(im[nb as int].vector, q@.len()));
                }
                let knb: DistKey = dist_key(m, q, &items[nb].vector);
                if res.len() < ef {
                    res.push(nb);
                    keys.push(knb);
                    frontier.push(nb);
                } else {
                    let w: usize = worst_index(&keys);
                    if key_le_exec(&knb, &keys[w]) {
                        res[w] = nb;
                        keys[w] = knb;
                        frontier.push(nb);
                    }
                }
            }
            t += 1;
        }
    }
    (res, keys)
}

/// The position of a nearest key.
fn best_index(keys: &Vec<DistKey>) -> (w: usize)
    requires
        keys@.len() >= 1,
        forall|j: int| 0 <= j < keys@.len() ==> key_wf((#[trigger] keys@[j])@),
    ensures
        (w as int) < keys@.len(),
        forall|j: int| 0 <= j < keys@.len() ==> key_le(keys@[w as int]@, (#[trigger] keys@[j])@),
{
    let mut w: usize = 0;
    let mut j: usize = 1;
    while j < keys.len()
        invariant
            keys@.len() >= 1,
            (w as int) < j <= keys@.len(),
            forall|t: int| 0 <= t < keys@.len() ==> key_wf((#[trigger] keys@[t])@),
            forall|t: int| 0 <= t < j ==> key_le(keys@[w as int]@, (#[trigger] keys@[t])@),
        decreases keys@.len() - j,
    {
        if key_le_exec(&keys[j], &keys[w]) {
            proof {
                assert forall|t: int| 0 <= t < j implies key_le(
                    keys@[j as int]@,
                    (#[trigger] keys@[t])@,
                ) by {
                    lemma_key_le_trans(keys@[j as int]@, keys@[w as int]@, keys@[t]@);
                }
            }
            w = j;
        }
        j += 1;
    }
    w
}

/// The distance keys of the stored items `ids` against query `q`.
fn keys_for(items: &Vec<Item>, m: Metric, q: &Vec<i64>, ids: &Vec<usize>) -> (keys: Vec<DistKey>)
    requires
        q@.len() <= DIM_MAX,
        vec_ok(q@, q@.len()),
        items_ok(items_view(items@), q@.len()),
        forall|j: int| 0 <= j < ids@.len() ==> ((#[trigger] ids@[j]) as int) < items@.len(),
    ensures
        keys@.len() == ids@.len(),
        forall|j: int|
            0 <= j < keys@.len() ==> (#[trigger] keys@[j])@ == cand_key(
                m,
                q@,
                items_view(items@),
                ids@[j],
            ) && key_wf(keys@[j]@),
{
    let ghost im = items_view(items@);
    let mut keys: Vec<DistKey> = Vec::new();
    let mut j: usize = 0;
    while j < ids.len()
        invariant
            im == items_view(items@),
            q@.len() <= DIM_MAX,
            vec_ok(q@, q@.len()),
            items_ok(im, q@.len()),
            forall|t: int| 0 <= t < ids@.len() ==> ((#[trigger] ids@[t]) as int) < items@.len(),
            j <= ids@.len(),
            keys@.len() == j,
            forall|t: int|
                0 <= t < j ==> (#[trigger] keys@[t])@ == cand_key(m, q@, im, ids@[t]) && key_wf(
                    keys@[t]@,
                ),
        decreases ids@.len() - j,
    {
        let id: usize = ids[j];
        proof {
            assert(vec_ok(im[id as int].vector, q@.len()));
        }
        keys.push(dist_key(m, q, &items[id].vector));
        j += 1;
    }
    keys
}

/// The candidates reordered nearest-first by repeated selection of a closest
/// remaining pair.
fn sorted_by_key(
    items: &Vec<Item>,
    m: Metric,
    q: &Vec<i64>,
    ids: &Vec<usize>,
    keys: &Vec<DistKey>,
) -> (out: (Vec<usize>, Vec<DistKey>))
    requires
        ids@.len() == keys@.len(),
        forall|j: int|
            0 <= j < keys@.len() ==> (#[trigger] keys@[j])@ == cand_key(
                m,
                q@,
                items_view(items@),
                ids@[j],
            ) && key_wf(keys@[j]@),
    ensures
        out.0@.len() == ids@.len(),
        out.1@.len() == ids@.len(),
        forall|j: int| 0 <= j < out.0@.len() ==> ids@.contains(#[trigger] out.0@[j]),
        forall|j: int|
            0 <= j < out.0@.len() ==> (#[trigger] out.1@[j])@ == cand_key(
                m,
                q@,
                items_view(items@),
                out.0@[j],
            ) && key_wf(out.1@[j]@),
        forall|j1: int, j2: int|
            0 <= j1 < j2 < out.1@.len() ==> key_le((#[trigger] out.1@[j1])@, (#[trigger] out.1@[j2])@),
        (forall|j1: int, j2: int|
            #![trigger ids@[j1], ids@[j2]]
            0 <= j1 < j2 < ids@.len() ==> ids@[j1] != ids@[j2]) ==> (forall|j1: int, j2: int|
            #![trigger out.0@[j1], out.0@[j2]]
            0 <= j1 < j2 < out.0@.len() ==> out.0@[j1] != out.0@[j2]),
{
    let ghost im = items_view(items@);
    let ghost distinct_in = forall|j1: int, j2: int|
        #![trigger ids@[j1], ids@[j2]]
        0 <= j1 < j2 < ids@.len() ==> ids@[j1] != ids@[j2];
    let nc: usize = ids.len();
    let mut chosen: Vec<bool> = vec![false; nc];
    proof {
        lemma_count_true_none(chosen@, nc as int);
    }
    let mut oi: Vec<usize> = Vec::new();
    let mut ok: Vec<DistKey> = Vec::new();
    let mut cnt: usize = 0;
    while cnt < nc
        invariant
            im == items_view(items@),
            nc == ids@.len() == keys@.len(),
            chosen@.len() == nc,
            cnt == oi@.len(),
            cnt == ok@.len(),
            cnt <= nc,
            count_true(chosen@, nc as int) == cnt,
            distinct_in <==> (forall|j1: int, j2: int|
                #![trigger ids@[j1], ids@[j2]]
                0 <= j1 < j2 < ids@.len() ==> ids@[j1] != ids@[j2]),
            forall|j: int|
                0 <= j < keys@.len() ==> (#[trigger] keys@[j])@ == cand_key(m, q@, im, ids@[j])
                    && key_wf(keys@[j]@),
            forall|j: int| 0 <= j < cnt ==> ids@.contains(#[trigger] oi@[j]),
            forall|j: int|
                0 <= j < cnt ==> (#[trigger] ok@[j])@ == cand_key(m, q@, im, oi@[j]) && key_wf(
                    ok@[j]@,
                ),
            forall|j1: int, j2: int|
                0 <= j1 < j2 < cnt ==> key_le((#[trigger] ok@[j1])@, (#[trigger] ok@[j2])@),
            forall|j: int, t: int|
                0 <= j < cnt && 0 <= t < nc && !chosen@[t] ==> key_le(
                    (#[trigger] ok@[j])@,
                    (#[trigger] keys@[t])@,
                ),
            distinct_in ==> forall|j1: int, j2: int|
                #![trigger oi@[j1], oi@[j2]]
                0 <= j1 < j2 < cnt ==> oi@[j1] != oi@[j2],
            distinct_in ==> forall|j: int, t: int|
                0 <= j < cnt && 0 <= t < nc && !chosen@[t] ==> (#[trigger] oi@[j]) != (
                #[trigger] ids@[t]),
        decreases nc - cnt,
    {
        let mut best: usize = nc;
        let mut bj: usize = 0;
        while bj < nc
            invariant
                nc == ids@.len() == keys@.len(),
                chosen@.len() == nc,
                bj <= nc,
                forall|t: int| 0 <= t < keys@.len() ==> key_wf((#[trigger] keys@[t])@),
                best == nc || ((best as int) < nc && !chosen@[best as int]),
                best != nc ==> forall|t: int|
                    0 <= t < bj && !chosen@[t] ==> key_le(keys@[best as int]@, (#[trigger] keys@[t])@),
                best == nc ==> forall|t: int| 0 <= t < bj ==> chosen@[t],
            decreases nc - bj,
        {
            if !chosen[bj] {
                if best == nc {
                    best = bj;
                } else if key_le_exec(&keys[bj], &keys[best]) {
                    proof {
                        assert forall|t: int| 0 <= t < bj && !chosen@[t] implies key_le(
                            keys@[bj as int]@,
                            (#[trigger] keys@[t])@,
                        ) by {
                            lemma_key_le_trans(keys@[bj as int]@, keys@[best as int]@, keys@[t]@);
                        }
                    }
                    best = bj;
                }
            }
            bj += 1;
        }
        proof {
            if best == nc {
                lemma_count_true_full(chosen@, nc as int);
                assert(false);
            }
            lemma_count_true_update(chosen@, best as int, nc as int);
        }
        chosen[best] = true;
        oi.push(ids[best]);
        ok.push(keys[best]);
        cnt += 1;
        proof {
            if distinct_in {
                assert forall|j: int, t: int|
                    0 <= j < oi@.len() && 0 <= t < nc && !chosen@[t] implies oi@[j] != ids@[t] by {
                    if j == oi@.len() - 1 {
                        assert(oi@[j] == ids@[best as int]);
                        assert(t != best);
                        lemma_distinct_pick(ids@, t, best as int);
                    }
                }
            }
        }
    }
    (oi, ok)
}

/// Keeps at most `cap` of the candidates, nearest-first, preferring candidates
/// closer to the query than to any already kept neighbor so the kept set stays
/// spatially diverse; falls back to the nearest remaining candidates when the
/// diverse ones run out. Never keeps `exclude`.
fn select_neighbors(
    items: &Vec<Item>,
    m: Metric,
    q: &Vec<i64>,
    ids: &Vec<usize>,
    keys: &Vec<DistKey>,
    cap: usize,
    exclude: usize,
) -> (sel: Vec<usize>)
    requires
        q@.len() <= DIM_MAX,
        vec_ok(q@, q@.len()),
        items_ok(items_view(items@), q@.len()),
        forall|j: int| 0 <= j < ids@.len() ==> ((#[trigger] ids@[j]) as int) < items@.len(),
        ids@.len() == keys@.len(),
        forall|j: int|
            0 <= j < keys@.len() ==> (#[trigger] keys@[j])@ == cand_key(
                m,
                q@,
                items_view(items@),
                ids@[j],
            ) && key_wf(keys@[j]@),
    ensures
        sel@.len() <= cap,
        forall|j: int| 0 <= j < sel@.len() ==> ids@.contains(#[trigger] sel@[j]),
        forall|j: int| 0 <= j < sel@.len() ==> (#[trigger] sel@[j]) != exclude,
{
    let ghost im = items_view(items@);
    let so = sorted_by_key(items, m, q, ids, keys);
    let sids: Vec<usize> = so.0;
    let skeys: Vec<DistKey> = so.1;
    let mut sel: Vec<usize> = Vec::new();
    let mut j: usize = 0;
    while j < sids.len()
        invariant
            im == items_view(items@),
            q@.len() <= DIM_MAX,
            vec_ok(q@, q@.len()),
            items_ok(im, q@.len()),
            sids@.len() == skeys@.len(),
            forall|t: int| 0 <= t < sids@.len() ==> ids@.contains(#[trigger] sids@[t]),
            forall|t: int| 0 <= t < ids@.len() ==> ((#[trigger] ids@[t]) as int) < items@.len(),
            forall|t: int|
                0 <= t < skeys@.len() ==> (#[trigger] skeys@[t])@ == cand_key(m, q@, im, sids@[t])
                    && key_wf(skeys@[t]@),
            j <= sids@.len(),
            sel@.len() <= cap,
            forall|t: int| 0 <= t < sel@.len() ==> ids@.contains(#[trigger] sel@[t]),
            forall|t: int| 0 <= t < sel@.len() ==> ((#[trigger] sel@[t]) as int) < items@.len(),
            forall|t: int| 0 <= t < sel@.len() ==> (#[trigger] sel@[t]) != exclude,
        decreases sids@.len() - j,
    {
        if sel.len() >= cap {
            break ;
        }
        let c: usize = sids[j];
        if c != exclude {
            proof {
                assert((c as int) < items@.len());
                assert(vec_ok(im[c as int].vector, q@.len()));
            }
            // keep `c` when it is closer to the query than to every kept
            // neighbor; this favors neighbors not already covered
            let mut diverse: bool = true;
            let mut t: usize = 0;
            while t < sel.len()
                invariant
                    im == items_view(items@),
                    q@.len() <= DIM_MAX,
                    vec_ok(q@, q@.len()),
                    items_ok(im, q@.len()),
                    (c as int) < items@.len(),
                    vec_ok(im[c as int].vector, q@.len()),
                    t <= sel@.len(),
                    j < sids@.len(),
                    sids@.len() == skeys@.len(),
                    forall|u: int|
                        0 <= u < skeys@.len() ==> (#[trigger] skeys@[u])@ == cand_key(
                            m,
                            q@,
                            im,
                            sids@[u],
                        ) && key_wf(skeys@[u]@),
                    forall|u: int| 0 <= u < sel@.len() ==> ((#[trigger] sel@[u]) as int) < items@.len(),
                decreases sel@.len() - t,
            {
                let s: usize = sel[t];
                proof {
                    assert(vec_ok(im[s as int].vector, q@.len()));
                }
                let kcs: DistKey = dist_key(m, &items[c].vector, &items[s].vector);
                if !key_le_exec(&skeys[j], &kcs) {
                    diverse = false;
                    break ;
                }
                t += 1;
            }
            if diverse {
                sel.push(c);
            }
        }
        j += 1;
    }
    // fall back to the nearest remaining candidates if diversity left room
    let mut j2: usize = 0;
    while j2 < sids.len()
        invariant
            sids@.len() == skeys@.len(),
            forall|t: int| 0 <= t < sids@.len() ==> ids@.contains(#[trigger] sids@[t]),
            j2 <= sids@.len(),
            sel@.len() <= cap,
            forall|t: int| 0 <= t < sel@.len() ==> ids@.contains(#[trigger] sel@[t]),
            forall|t: int| 0 <= t < sel@.len() ==> (#[trigger] sel@[t]) != exclude,
        decreases sids@.len() - j2,
    {
        if sel.len() >= cap {
            break ;
        }
        let c: usize = sids[j2];
        if c != exclude {
            let mut present: bool = false;
            let mut t: usize = 0;
            while t < sel.len()
                invariant
                    t <= sel@.len(),
                    j2 < sids@.len(),
                decreases sel@.len() - t,
            {
                if sel[t] == sids[j2] {
                    present = true;
                    break ;
                }
                t += 1;
            }
            if !present {
                sel.push(c);
            }
        }
        j2 += 1;
    }
    sel
}

/// The label sequence a vector of strings stands for.
pub open spec fn labels_view(s: Seq<String>) -> Seq<Seq<char>> {
    Seq::new(s.len(), |j: int| s[j]@)
}

/// Whether `ids` are distinct graph nodes sorted nearest-first against `q`
/// and `labels` are their labels in that order.
pub open spec fn search_result_ok(
    v: IndexModel,
    q: Seq<i64>,
    ids: Seq<usize>,
    labels: Seq<Seq<char>>,
) -> bool {
    &&& labels.len() == ids.len()
    &&& forall|j: int| 0 <= j < ids.len() ==> ((#[trigger] ids[j]) as int) < v.graph.len()
    &&& forall|j1: int, j2: int|
        #![trigger ids[j1], ids[j2]]
        0 <= j1 < j2 < ids.len() ==> ids[j1] != ids[j2]
    &&& forall|j: int| 0 <= j < ids.len() ==> labels[j] == v.items[(#[trigger] ids[j]) as int].label
    &&& forall|j1: int, j2: int|
        #![trigger ids[j1], ids[j2]]
        0 <= j1 < j2 < ids.len() ==> key_le(
            cand_key(v.metric, q, v.items, ids[j1]),
            cand_key(v.metric, q, v.items, ids[j2]),
        )
}

/// What a successful build guarantees: the items, dimension and metric are
/// kept, the graph spans exactly the items with each node's layer count fixed
/// by the level assignment, and the entry is the first node of maximal level.
pub open spec fn built_from(pre: IndexModel, metric: Metric, post: IndexModel) -> bool {
    &&& post.dimension == pre.dimension
    &&& post.items == pre.items
    &&& post.metric == metric
    &&& post.built
    &&& post.graph.len() == pre.items.len()
    &&& forall|x: int|
        0 <= x < post.graph.len() ==> (#[trigger] post.graph[x]).len() == 1 + level_of(x as u64)
    &&& forall|x: int|
        0 <= x < post.entry as int ==> (#[trigger] post.graph[x]).len() < post.graph[
            post.entry as int
        ].len()
    &&& index_wf(post)
}

/// The layer sequence a node vector stands for.
pub open spec fn node_view(n: Seq<Vec<usize>>) -> Seq<Seq<usize>> {
    Seq::new(n.len(), |l: int| n[l]@)
}

/// Appends a node to the graph.
fn push_node(g: &mut Vec<Vec<Vec<usize>>>, node: Vec<Vec<usize>>)
    ensures
        final(g)@.len() == old(g)@.len() + 1,
        forall|x: int|
            0 <= x < old(g)@.len() ==> graph_view(final(g)@)[x] == graph_view(old(g)@)[x],
        graph_view(final(g)@)[old(g)@.len() as int] == node_view(node@),
{
    let ghost nv = node_view(node@);
    g.push(node);
    proof {
        assert forall|x: int| 0 <= x < old(g)@.len() implies graph_view(g@)[x] == graph_view(
            old(g)@,
        )[x] by {
            assert(graph_view(g@)[x] =~= graph_view(old(g)@)[x]);
        }
        assert(graph_view(g@)[old(g)@.len() as int] =~= nv);
    }
}

/// Replaces the layer-`layer` list of node `s`.
fn set_edge_list(g: &mut Vec<Vec<Vec<usize>>>, s: usize, layer: usize, lst: Vec<usize>)
    requires
        (s as int) < old(g)@.len(),
        (layer as int) < old(g)@[s as int]@.len(),
    ensures
        final(g)@.len() == old(g)@.len(),
        forall|x: int|
            0 <= x < final(g)@.len() ==> graph_view(final(g)@)[x].len() == graph_view(old(g)@)[
                x
            ].len(),
        forall|x: int|
            0 <= x < final(g)@.len() && x != s as int ==> graph_view(final(g)@)[x] == graph_view(
                old(g)@,
            )[x],
        forall|l2: int|
            0 <= l2 < graph_view(old(g)@)[s as int].len() && l2 != layer as int ==> graph_view(
                final(g)@,
            )[s as int][l2] == graph_view(old(g)@)[s as int][l2],
        graph_view(final(g)@)[s as int][layer as int] == lst@,
{
    let ghost lv = lst@;
    g[s][layer] = lst;
    proof {
        assert forall|x: int| 0 <= x < g@.len() && x != s as int implies graph_view(g@)[x]
            == graph_view(old(g)@)[x] by {
            assert(graph_view(g@)[x] =~= graph_view(old(g)@)[x]);
        }
        assert forall|l2: int|
            0 <= l2 < graph_view(old(g)@)[s as int].len() && l2 != layer as int implies graph_view(
            g@,
        )[s as int][l2] == graph_view(old(g)@)[s as int][l2] by {
            assert(graph_view(g@)[s as int][l2] =~= graph_view(old(g)@)[s as int][l2]);
        }
        assert(graph_view(g@)[s as int][layer as int] =~= lv);
    }
}

/// Every node stays well formed when one layer list of one node changes to
/// another list of valid edges within the cap.
proof fn lemma_wf_list_change(gm1: Seq<Seq<Seq<usize>>>, gm2: Seq<Seq<Seq<usize>>>, s: int, l: int)
    requires
        forall|x: int| 0 <= x < gm1.len() ==> node_wf(gm1, x),
        gm2.len() == gm1.len(),
        forall|x: int| 0 <= x < gm2.len() ==> (#[trigger] gm2[x]).len() == gm1[x].len(),
        forall|x: int| 0 <= x < gm2.len() && x != s ==> gm2[x] == gm1[x],
        0 <= s < gm1.len(),
        0 <= l < gm1[s].len(),
        forall|l2: int| 0 <= l2 < gm1[s].len() && l2 != l ==> gm2[s][l2] == gm1[s][l2],
        gm2[s][l].len() <= layer_cap(l),
        forall|j: int|
            0 <= j < gm2[s][l].len() ==> {
                let nb = (#[trigger] gm2[s][l][j]) as int;
                &&& nb < gm2.len()
                &&& nb != s
                &&& l < gm1[nb].len()
            },
    ensures
        forall|x: int| 0 <= x < gm2.len() ==> node_wf(gm2, x),
{
    assert forall|x: int| 0 <= x < gm2.len() implies node_wf(gm2, x) by {
        assert(node_wf(gm1, x));
        if x == s {
            assert forall|l2: int, j: int|
                #![trigger gm2[x][l2][j]]
                0 <= l2 < gm2[x].len() && 0 <= j < gm2[x][l2].len() implies {
                let nb = gm2[x][l2][j] as int;
                &&& nb < gm2.len()
                &&& nb != x
                &&& l2 < gm2[nb].len()
            } by {
                if l2 != l {
                    assert(gm2[x][l2][j] == gm1[x][l2][j]);
                }
            }
            assert forall|l2: int| 0 <= l2 < gm2[x].len() implies (#[trigger] gm2[x][l2]).len()
                <= layer_cap(l2) by {
                if l2 != l {
                    assert(gm2[x][l2] == gm1[x][l2]);
                }
            }
        } else {
            assert(gm2[x] == gm1[x]);
            assert forall|l2: int, j: int|
                #![trigger gm2[x][l2][j]]
                0 <= l2 < gm2[x].len() && 0 <= j < gm2[x][l2].len() implies {
                let nb = gm2[x][l2][j] as int;
                &&& nb < gm2.len()
                &&& nb != x
                &&& l2 < gm2[nb].len()
            } by {
                assert(gm2[x][l2][j] == gm1[x][l2][j]);
            }
        }
    }
}

/// Every node stays well formed when a node of valid edges is appended.
proof fn lemma_wf_push_node(gm1: Seq<Seq<Seq<usize>>>, gm2: Seq<Seq<Seq<usize>>>)
    requires
        forall|x: int| 0 <= x < gm1.len() ==> node_wf(gm1, x),
        gm2.len() == gm1.len() + 1,
        forall|x: int| 0 <= x < gm1.len() ==> gm2[x] == gm1[x],
        1 <= gm2[gm1.len() as int].len() <= MAX_LEVEL as int + 1,
        forall|l2: int|
            0 <= l2 < gm2[gm1.len() as int].len() ==> (#[trigger] gm2[gm1.len() as int][l2]).len()
                <= layer_cap(l2),
        forall|l2: int, j: int|
            0 <= l2 < gm2[gm1.len() as int].len() && 0 <= j < gm2[gm1.len() as int][l2].len()
                ==> {
                let nb = (#[trigger] gm2[gm1.len() as int][l2][j]) as int;
                &&& nb < gm1.len()
                &&& l2 < gm1[nb].len()
            },
    ensures
        forall|x: int| 0 <= x < gm2.len() ==> node_wf(gm2, x),
{
    assert forall|x: int| 0 <= x < gm2.len() implies node_wf(gm2, x) by {
        if x < gm1.len() {
            assert(node_wf(gm1, x));
            assert(gm2[x] == gm1[x]);
            assert forall|l2: int, j: int|
                #![trigger gm2[x][l2][j]]
                0 <= l2 < gm2[x].len() && 0 <= j < gm2[x][l2].len() implies {
                let nb = gm2[x][l2][j] as int;
                &&& nb < gm2.len()
                &&& nb != x
                &&& l2 < gm2[nb].len()
            } by {
                assert(gm2[x][l2][j] == gm1[x][l2][j]);
                assert((gm1[x][l2][j] as int) < gm1.len());
            }
        } else {
            assert(x == gm1.len());
        }
    }
}

/// A single approximate-nearest-neighbor index.
pub struct VectorIndex {
    pub dimension: usize,
    pub metric: Metric,
    pub built: bool,
    pub items: Vec<Item>,
    pub graph: Vec<Vec<Vec<usize>>>,
    pub entry: usize,
}

impl View for VectorIndex {
    type V = IndexModel;

    open spec fn view(&self) -> IndexModel {
        IndexModel {
            dimension: self.dimension as nat,
            metric: self.metric,
            built: self.built,
            items: items_view(self.items@),
            graph: graph_view(self.graph@),
            entry: self.entry,
        }
    }
}

impl VectorIndex {
    /// A fresh, unbuilt, empty index of the given dimension.
    pub fn new(dimension: usize) -> (r: VectorIndex)
        requires
            1 <= dimension <= DIM_MAX,
        ensures
            r@ == empty_index(dimension as nat),
            index_wf(r@),
    {
        let idx = VectorIndex {
            dimension,
            metric: Metric::Unknown,
            built: false,
            items: Vec::new(),
            graph: Vec::new(),
            entry: 0,
        };
        proof {
            assert(idx@ =~= empty_index(dimension as nat));
        }
        idx
    }

    /// The dimension every stored vector has.
    pub fn dimension(&self) -> (r: usize)
        ensures
            r as nat == self@.dimension,
    {
        self.dimension
    }

    /// How many items the index holds, staged or built.
    pub fn item_count(&self) -> (r: usize)
        ensures
            r as nat == self@.items.len(),
    {
        self.items.len()
    }

    /// Whether a build has succeeded.
    pub fn is_built(&self) -> (r: bool)
        ensures
            r == self@.built,
    {
        self.built
    }

    /// Appends `(vector, label)` to the items. Rejects exactly the vectors
    /// whose length differs from the index dimension; the graph never changes,
    /// so the addition is invisible to search until the next build.
    pub fn add(&mut self, vector: Vec<i64>, label: String) -> (r: Result<(), IndexError>)
        requires
            index_wf(old(self)@),
            forall|i: int| 0 <= i < vector@.len() ==> scalar_ok(#[trigger] vector@[i]),
        ensures
            index_wf(final(self)@),
            vector@.len() == old(self)@.dimension ==> r is Ok && final(self)@ == (IndexModel {
                items: old(self)@.items.push(ItemModel { vector: vector@, label: label@ }),
                ..old(self)@
            }),
            vector@.len() != old(self)@.dimension ==> r == Err::<(), IndexError>(
                IndexError::DimensionMismatch,
            ) && final(self)@ == old(self)@,
    {
        if vector.len() != self.dimension {
            return Err(IndexError::DimensionMismatch);
        }
        self.items.push(Item { vector, label });
        proof {
            assert(items_view(self.items@) =~= old(self)@.items.push(
                ItemModel { vector: vector@, label: label@ },
            ));
            assert(self@ =~= (IndexModel {
                items: old(self)@.items.push(ItemModel { vector: vector@, label: label@ }),
                ..old(self)@
            }));
        }
        Ok(())
    }

    /// Rebuilds the layered graph from scratch over the current items under
    /// `metric`. Each node's top layer comes from the fixed level assignment,
    /// so rebuilding the same items yields the same layer structure; the entry
    /// node is the first node of maximal level. Fails exactly when the index
    /// holds no items, leaving it unchanged.
    pub fn build(&mut self, metric: Metric) -> (r: Result<(), IndexError>)
        requires
            index_wf(old(self)@),
        ensures
            index_wf(final(self)@),
            old(self)@.items.len() == 0 ==> r == Err::<(), IndexError>(IndexError::EmptyIndex)
                && final(self)@ == old(self)@,
            old(self)@.items.len() > 0 ==> r is Ok && built_from(old(self)@, metric, final(self)@),
    {
        if self.items.len() == 0 {
            return Err(IndexError::EmptyIndex);
        }
        let ghost im = items_view(self.items@);
        let ghost dim = self@.dimension;
        let n: usize = self.items.len();
        let mut g: Vec<Vec<Vec<usize>>> = Vec::new();
        let mut ep: usize = 0;
        let mut i: usize = 0;
        while i < n
            invariant
                self.items == old(self).items,
                self.dimension == old(self).dimension,
                self.metric == old(self).metric,
                self.built == old(self).built,
                self.entry == old(self).entry,
                self.graph == old(self).graph,
                im == items_view(self.items@),
                dim == self@.dimension,
                items_ok(im, dim),
                1 <= dim <= DIM_MAX as nat,
                n == self.items@.len(),
                n >= 1,
                i <= n,
                graph_view(g@).len() == i,
                g@.len() == i,
                forall|x: int| 0 <= x < i ==> node_wf(graph_view(g@), x),
                forall|x: int|
                    0 <= x < i ==> (#[trigger] graph_view(g@)[x]).len() == 1 + level_of(x as u64),
                i > 0 ==> (ep as int) < i,
                i == 0 ==> ep == 0,
                forall|x: int|
                    0 <= x < i ==> (#[trigger] graph_view(g@)[x]).len() <= graph_view(g@)[
                        ep as int
                    ].len(),
                forall|x: int|
                    0 <= x < ep as int ==> (#[trigger] graph_view(g@)[x]).len() < graph_view(g@)[
                        ep as int
                    ].len(),
            decreases n - i,
        {
            let ghost gm0 = graph_view(g@);
            let li: usize = node_level(i as u64);
            let mut node: Vec<Vec<usize>> = Vec::new();
            let mut l0: usize = 0;
            while l0 < li + 1
                invariant
                    li <= MAX_LEVEL,
                    l0 <= li + 1,
                    node@.len() == l0,
                    forall|l2: int| 0 <= l2 < l0 ==> (#[trigger] node@[l2])@.len() == 0,
                decreases li + 1 - l0,
            {
                node.push(Vec::new());
                l0 += 1;
            }
            push_node(&mut g, node);
            proof {
                let gm1 = graph_view(g@);
                assert(gm1[i as int].len() == 1 + level_of(i as u64));
                lemma_wf_push_node(gm0, gm1, );
            }
            if i > 0 {
                proof {
                    assert(node_wf(graph_view(g@), ep as int));
                    assert(vec_ok(im[i as int].vector, dim));
                }
                let top: usize = g[ep].len() - 1;
                let mut cur: usize = ep;
                let mut l: usize = top;
                while l > li
                    invariant
                        im == items_view(self.items@),
                        items_ok(im, dim),
                        1 <= dim <= DIM_MAX as nat,
                        dim == self@.dimension,
                        n == self.items@.len(),
                        g@.len() == i + 1,
                        i < n,
                        graph_view(g@).len() == i + 1,
                        forall|x: int| 0 <= x < i + 1 ==> node_wf(graph_view(g@), x),
                        node_at_layer(graph_view(g@), l, cur),
                        vec_ok(im[i as int].vector, dim),
                    decreases l,
                {
                    let out = beam_layer(&g, &self.items, metric, &self.items[i].vector, l, cur, 1);
                    cur = out.0[0];
                    l -= 1;
                }
                let lc: usize = l;
                let mut l2: usize = lc + 1;
                while l2 > 0
                    invariant
                        self.items == old(self).items,
                        im == items_view(self.items@),
                        items_ok(im, dim),
                        1 <= dim <= DIM_MAX as nat,
                        dim == self@.dimension,
                        n == self.items@.len(),
                        i < n,
                        l2 <= lc + 1,
                        lc <= li,
                        g@.len() == i + 1,
                        graph_view(g@).len() == i + 1,
                        gm0.len() == i,
                        forall|x: int| 0 <= x < i + 1 ==> node_wf(graph_view(g@), x),
                        forall|x: int|
                            0 <= x < i + 1 ==> (#[trigger] graph_view(g@)[x]).len() == gm0.push(
                                Seq::new((li + 1) as nat, |t: int| Seq::<usize>::empty()),
                            )[x].len(),
                        l2 > 0 ==> node_at_layer(graph_view(g@), (l2 - 1) as usize, cur),
                    decreases l2,
                {
                    let layer: usize = l2 - 1;
                    proof {
                        assert(vec_ok(im[i as int].vector, dim));
                    }
                    let ghost gma = graph_view(g@);
                    let out = beam_layer(
                        &g,
                        &self.items,
                        metric,
                        &self.items[i].vector,
                        layer,
                        cur,
                        EF_CONSTRUCTION,
                    );
                    let cands: Vec<usize> = out.0;
                    let ckeys: Vec<DistKey> = out.1;
                    proof {
                        assert forall|j: int| 0 <= j < cands@.len() implies ((
                        #[trigger] cands@[j]) as int) < self.items@.len() by {
                            assert(node_at_layer(gma, layer, cands@[j]));
                        }
                    }
                    let sel: Vec<usize> = select_neighbors(
                        &self.items,
                        metric,
                        &self.items[i].vector,
                        &cands,
                        &ckeys,
                        M_NEIGHBORS,
                        i,
                    );
                    proof {
                        assert forall|j: int| 0 <= j < sel@.len() implies node_at_layer(
                            gma,
                            layer,
                            #[trigger] sel@[j],
                        ) && sel@[j] != i by {
                            assert(cands@.contains(sel@[j]));
                            let t = choose|t: int| 0 <= t < cands@.len() && cands@[t] == sel@[j];
                            assert(node_at_layer(gma, layer, cands@[t]));
                        }
                        assert(gma[i as int].len() == gm0.push(
                            Seq::new((li + 1) as nat, |u: int| Seq::<usize>::empty()),
                        )[i as int].len());
                        assert(gma[i as int].len() == li + 1);
                    }
                    set_edge_list(&mut g, i, layer, sel);
                    proof {
                        let gmb = graph_view(g@);
                        assert(gmb[i as int][layer as int].len() <= layer_cap(layer as int));
                        assert forall|j: int|
                            0 <= j < gmb[i as int][layer as int].len() implies {
                            let nb = (#[trigger] gmb[i as int][layer as int][j]) as int;
                            &&& nb < gmb.len()
                            &&& nb != i as int
                            &&& (layer as int) < gma[nb].len()
                        } by {
                            assert(node_at_layer(gma, layer, gmb[i as int][layer as int][j]));
                        }
                        lemma_wf_list_change(gma, gmb, i as int, layer as int);
                    }
                    // connect the kept neighbors back to the new node
                    let mut t: usize = 0;
                    while t < g[i][layer].len()
                        invariant
                            self.items == old(self).items,
                            im == items_view(self.items@),
                            items_ok(im, dim),
                            1 <= dim <= DIM_MAX as nat,
                            dim == self@.dimension,
                            n == self.items@.len(),
                            i < n,
                            (layer as int) < graph_view(g@)[i as int].len(),
                            g@.len() == i + 1,
                            graph_view(g@).len() == i + 1,
                            gm0.len() == i,
                            t <= graph_view(g@)[i as int][layer as int].len(),
                            forall|x: int| 0 <= x < i + 1 ==> node_wf(graph_view(g@), x),
                            forall|x: int|
                                0 <= x < i + 1 ==> (#[trigger] graph_view(g@)[x]).len() == gm0.push(
                                    Seq::new((li + 1) as nat, |u: int| Seq::<usize>::empty()),
                                )[x].len(),
                            node_at_layer(graph_view(g@), layer, cur),
                            graph_view(g@)[i as int][layer as int] == sel@,
                        decreases graph_view(g@)[i as int][layer as int].len() - t,
                    {
                        let s: usize = g[i][layer][t];
                        proof {
                            assert(node_wf(graph_view(g@), i as int));
                            assert(graph_view(g@)[i as int][layer as int][t as int] == s);
                        }
                        let cap: usize = if layer == 0 {
                            M0_NEIGHBORS
                        } else {
                            M_NEIGHBORS
                        };
                        let ghost gmc = graph_view(g@);
                        if g[s][layer].len() < cap {
                            let mut nl: Vec<usize> = Vec::new();
                            let mut t2: usize = 0;
                            while t2 < g[s][layer].len()
                                invariant
                                    (s as int) < g@.len(),
                                    (layer as int) < g@[s as int]@.len(),
                                    t2 <= g@[s as int]@[layer as int]@.len(),
                                    nl@ == g@[s as int]@[layer as int]@.take(t2 as int),
                                decreases g@[s as int]@[layer as int]@.len() - t2,
                            {
                                nl.push(g[s][layer][t2]);
                                proof {
                                    assert(nl@ =~= g@[s as int]@[layer as int]@.take(
                                        t2 as int + 1,
                                    ));
                                }
                                t2 += 1;
                            }
                            proof {
                                assert(nl@ =~= gmc[s as int][layer as int]);
                            }
                            nl.push(i);
                            set_edge_list(&mut g, s, layer, nl);
                            proof {
                                let gmd = graph_view(g@);
                                assert(gmd[s as int][layer as int] == gmc[s as int][
                                    layer as int
                                ].push(i));
                                assert forall|j: int|
                                    0 <= j < gmd[s as int][layer as int].len() implies {
                                    let nb = (#[trigger] gmd[s as int][layer as int][j]) as int;
                                    &&& nb < gmd.len()
                                    &&& nb != s as int
                                    &&& (layer as int) < gmc[nb].len()
                                } by {
                                    assert(node_wf(gmc, s as int));
                                    if j < gmc[s as int][layer as int].len() {
                                        assert(gmd[s as int][layer as int][j] == gmc[s as int][
                                            layer as int
                                        ][j]);
                                    } else {
                                        assert(gmd[s as int][layer as int][j] == i);
                                    }
                                }
                                lemma_wf_list_change(gmc, gmd, s as int, layer as int);
                            }
                        } else {
                            let mut cl: Vec<usize> = Vec::new();
                            let mut t2: usize = 0;
                            while t2 < g[s][layer].len()
                                invariant
                                    (s as int) < g@.len(),
                                    (layer as int) < g@[s as int]@.len(),
                                    t2 <= g@[s as int]@[layer as int]@.len(),
                                    cl@ == g@[s as int]@[layer as int]@.take(t2 as int),
                                decreases g@[s as int]@[layer as int]@.len() - t2,
                            {
                                cl.push(g[s][layer][t2]);
                                proof {
                                    assert(cl@ =~= g@[s as int]@[layer as int]@.take(
                                        t2 as int + 1,
                                    ));
                                }
                                t2 += 1;
                            }
                            proof {
                                assert(cl@ =~= gmc[s as int][layer as int]);
                            }
                            cl.push(i);
                            proof {
                                assert(node_wf(gmc, s as int));
                                assert forall|j: int| 0 <= j < cl@.len() implies ((
                                #[trigger] cl@[j]) as int) < self.items@.len() by {
                                    if j < gmc[s as int][layer as int].len() {
                                        assert(cl@[j] == gmc[s as int][layer as int][j]);
                                    }
                                }
                            }
                            proof {
                                assert(vec_ok(im[s as int].vector, dim));
                            }
                            let k2: Vec<DistKey> = keys_for(
                                &self.items,
                                metric,
                                &self.items[s].vector,
                                &cl,
                            );
                            let sel2: Vec<usize> = select_neighbors(
                                &self.items,
                                metric,
                                &self.items[s].vector,
                                &cl,
                                &k2,
                                cap,
                                s,
                            );
                            set_edge_list(&mut g, s, layer, sel2);
                            proof {
                                let gmd = graph_view(g@);
                                assert(gmd[s as int][layer as int] == sel2@);
                                assert forall|j: int|
                                    0 <= j < gmd[s as int][layer as int].len() implies {
                                    let nb = (#[trigger] gmd[s as int][layer as int][j]) as int;
                                    &&& nb < gmd.len()
                                    &&& nb != s as int
                                    &&& (layer as int) < gmc[nb].len()
                                } by {
                                    assert(cl@.contains(sel2@[j]));
                                    let u = choose|u: int|
                                        0 <= u < cl@.len() && cl@[u] == sel2@[j];
                                    assert(node_wf(gmc, s as int));
                                    if u < gmc[s as int][layer as int].len() {
                                        assert(cl@[u] == gmc[s as int][layer as int][u]);
                                    } else {
                                        assert(cl@[u] == i);
                                    }
                                }
                                lemma_wf_list_change(gmc, gmd, s as int, layer as int);
                            }
                        }
                        t += 1;
                    }
                    // move the descent start to the nearest candidate found
                    let b: usize = best_index(&ckeys);
                    cur = cands[b];
                    l2 -= 1;
                }
                if li > top {
                    ep = i;
                }
            }
            i += 1;
            proof {
                let gmz = graph_view(g@);
                assert forall|x: int| 0 <= x < ep as int implies (#[trigger] gmz[x]).len() < gmz[
                    ep as int
                ].len() by {}
            }
        }
        self.graph = g;
        self.entry = ep;
        self.metric = metric;
        self.built = true;
        proof {
            assert(items_view(self.items@) == im);
            assert(index_wf(self@));
        }
        Ok(())
    }

    /// The labels of up to `k` stored vectors near `q`, nearest-first under
    /// the metric of the last build. Once built, exactly `min(k, n)` labels
    /// of distinct nodes come back, where `n` is the item count at the last
    /// build; before any build the result is empty. Read-only.
    pub fn search(&self, q: &Vec<i64>, k: usize) -> (r: Vec<String>)
        requires
            index_wf(self@),
            vec_ok(q@, self@.dimension),
        ensures
            !self@.built ==> r@.len() == 0,
            self@.built ==> r@.len() == (if (k as int) <= self@.graph.len() {
                k as int
            } else {
                self@.graph.len() as int
            }),
            exists|ids: Seq<usize>| search_result_ok(self@, q@, ids, labels_view(r@)),
    {
        let ghost v = self@;
        let ghost im = items_view(self.items@);
        let ghost gm = graph_view(self.graph@);
        if !self.built || k == 0 {
            let r: Vec<String> = Vec::new();
            proof {
                assert(labels_view(r@) =~= Seq::<Seq<char>>::empty());
                assert(search_result_ok(v, q@, Seq::<usize>::empty(), labels_view(r@)));
            }
            return r;
        }
        let n: usize = self.graph.len();
        proof {
            assert(node_wf(gm, self.entry as int));
        }
        let mut cur: usize = self.entry;
        let top: usize = self.graph[self.entry].len() - 1;
        let mut l: usize = top;
        while l > 0
            invariant
                v == self@,
                im == items_view(self.items@),
                gm == graph_view(self.graph@),
                index_wf(v),
                v.built,
                vec_ok(q@, v.dimension),
                node_at_layer(gm, l, cur),
            decreases l,
        {
            let out = beam_layer(&self.graph, &self.items, self.metric, q, l, cur, 1);
            cur = out.0[0];
            l -= 1;
        }
        let ef: usize = if k > EF_SEARCH {
            k
        } else {
            EF_SEARCH
        };
        let out = beam_layer(&self.graph, &self.items, self.metric, q, 0, cur, ef);
        let ids: Vec<usize>;
        let keys: Vec<DistKey>;
        let use_beam: bool = out.0.len() >= k;
        if use_beam {
            ids = out.0;
            keys = out.1;
        } else {
            // too few reachable candidates: fall back to scanning every node
            let mut all: Vec<usize> = Vec::new();
            let mut x: usize = 0;
            while x < n
                invariant
                    x <= n,
                    all@.len() == x,
                    forall|j: int| 0 <= j < x ==> (#[trigger] all@[j]) == j,
                decreases n - x,
            {
                all.push(x);
                x += 1;
            }
            proof {
                assert(vec_ok(q@, q@.len()));
            }
            keys = keys_for(&self.items, self.metric, q, &all);
            ids = all;
        }
        proof {
            assert forall|j1: int, j2: int|
                #![trigger ids@[j1], ids@[j2]]
                0 <= j1 < j2 < ids@.len() implies ids@[j1] != ids@[j2] by {}
        }
        let so = sorted_by_key(&self.items, self.metric, q, &ids, &keys);
        let mut sids: Vec<usize> = so.0;
        let ghost skeys = so.1@;
        let ghost full = sids@;
        if sids.len() > k {
            sids.truncate(k);
        }
        proof {
            assert forall|j: int| 0 <= j < sids@.len() implies ((#[trigger] sids@[j]) as int)
                < gm.len() by {
                assert(sids@[j] == full[j]);
                assert(ids@.contains(full[j]));
                let t = choose|t: int| 0 <= t < ids@.len() && ids@[t] == full[j];
                if use_beam {
                    assert(node_at_layer(gm, 0, ids@[t]));
                }
            }
        }
        let mut r: Vec<String> = Vec::new();
        let mut j: usize = 0;
        while j < sids.len()
            invariant
                v == self@,
                im == items_view(self.items@),
                gm == graph_view(self.graph@),
                index_wf(v),
                j <= sids@.len(),
                r@.len() == j,
                forall|t: int| 0 <= t < sids@.len() ==> ((#[trigger] sids@[t]) as int) < gm.len(),
                forall|t: int| 0 <= t < j ==> (#[trigger] r@[t])@ == im[sids@[t] as int].label,
            decreases sids@.len() - j,
        {
            let id: usize = sids[j];
            r.push(self.items[id].label.clone());
            j += 1;
        }
        proof {
            assert forall|j1: int, j2: int|
                #![trigger sids@[j1], sids@[j2]]
                0 <= j1 < j2 < sids@.len() implies sids@[j1] != sids@[j2] && key_le(
                cand_key(v.metric, q@, v.items, sids@[j1]),
                cand_key(v.metric, q@, v.items, sids@[j2]),
            ) by {
                assert(sids@[j1] == full[j1]);
                assert(sids@[j2] == full[j2]);
                assert(skeys[j1]@ == cand_key(self.metric, q@, im, full[j1]));
                assert(skeys[j2]@ == cand_key(self.metric, q@, im, full[j2]));
                assert(key_le(skeys[j1]@, skeys[j2]@));
            }
            assert forall|j2: int| 0 <= j2 < sids@.len() implies labels_view(r@)[j2] == v.items[(
            #[trigger] sids@[j2]) as int].label by {}
            assert(search_result_ok(v, q@, sids@, labels_view(r@)));
        }
        r
    }
}

} // verus!
