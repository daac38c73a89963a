//! Binary persistence of an index.
//!
//! The byte layout is canonical: a magic tag and version, then dimension,
//! metric, built flag, the items (each vector scalar biased to a nonnegative
//! 64-bit little-endian word, then the label as length-prefixed UTF-8), the
//! graph (length-prefixed layer lists of node ids), and the entry node.
//! `from_bytes` accepts exactly the canonical encodings: whatever it returns
//! re-serializes to the very bytes it was given.
use vstd::prelude::*;
use vstd::string::StringSliceAdditionalSpecFns;
use crate::metric::Metric;
use crate::index::{
    VectorIndex, IndexModel, ItemModel, Item, index_wf, items_view, graph_view, items_ok, node_wf,
    graph_wf, M0_NEIGHBORS, M_NEIGHBORS,
};
use crate::dist::scalar_ok;
use crate::level::MAX_LEVEL;
use crate::DIM_MAX;
use crate::SCALAR_MAX;
use crate::IndexError;

verus! {

/// A 64-bit word as eight little-endian bytes.
pub open spec fn enc_u64(x: u64) -> Seq<u8> {
    seq![
        (x & 0xff) as u8,
        ((x >> 8) & 0xff) as u8,
        ((x >> 16) & 0xff) as u8,
        ((x >> 24) & 0xff) as u8,
        ((x >> 32) & 0xff) as u8,
        ((x >> 40) & 0xff) as u8,
        ((x >> 48) & 0xff) as u8,
        ((x >> 56) & 0xff) as u8,
    ]
}

/// The first `n` scalars of a vector, each biased by `SCALAR_MAX`.
pub open spec fn ser_vector_to(v: Seq<i64>, n: int) -> Seq<u8>
    decreases n,
{
    if n <= 0 {
        Seq::empty()
    } else {
        ser_vector_to(v, n - 1) + enc_u64((v[n - 1] + SCALAR_MAX) as u64)
    }
}

/// A label as its length-prefixed UTF-8 bytes.
pub open spec fn ser_label(l: Seq<char>) -> Seq<u8> {
    enc_u64(vstd::utf8::encode_utf8(l).len() as u64) + vstd::utf8::encode_utf8(l)
}

/// One item: its vector then its label.
pub open spec fn ser_item(it: ItemModel) -> Seq<u8> {
    ser_vector_to(it.vector, it.vector.len() as int) + ser_label(it.label)
}

/// The first `n` items, concatenated.
pub open spec fn ser_items_to(items: Seq<ItemModel>, n: int) -> Seq<u8>
    decreases n,
{
    if n <= 0 {
        Seq::empty()
    } else {
        ser_items_to(items, n - 1) + ser_item(items[n - 1])
    }
}

/// The first `n` ids of a neighbor list.
pub open spec fn ser_list_to(lst: Seq<usize>, n: int) -> Seq<u8>
    decreases n,
{
    if n <= 0 {
        Seq::empty()
    } else {
        ser_list_to(lst, n - 1) + enc_u64(lst[n - 1] as u64)
    }
}

/// A neighbor list, length-prefixed.
pub open spec fn ser_list(lst: Seq<usize>) -> Seq<u8> {
    enc_u64(lst.len() as u64) + ser_list_to(lst, lst.len() as int)
}

/// The first `n` layer lists of a node.
pub open spec fn ser_node_to(node: Seq<Seq<usize>>, n: int) -> Seq<u8>
    decreases n,
{
    if n <= 0 {
        Seq::empty()
    } else {
        ser_node_to(node, n - 1) + ser_list(node[n - 1])
    }
}

/// A node: its layer count then its layer lists.
pub open spec fn ser_node(node: Seq<Seq<usize>>) -> Seq<u8> {
    enc_u64(node.len() as u64) + ser_node_to(node, node.len() as int)
}

/// The first `n` nodes of a graph, concatenated.
pub open spec fn ser_graph_to(g: Seq<Seq<Seq<usize>>>, n: int) -> Seq<u8>
    decreases n,
{
    if n <= 0 {
        Seq::empty()
    } else {
        ser_graph_to(g, n - 1) + ser_node(g[n - 1])
    }
}

/// The byte tag of a metric.
pub open spec fn metric_tag(m: Metric) -> u8 {
    match m {
        Metric::Angular => 0,
        Metric::Manhattan => 1,
        Metric::DotProduct => 2,
        Metric::Euclidean => 3,
        Metric::CosineSimilarity => 4,
        Metric::Unknown => 5,
    }
}

/// The canonical byte stream of an index.
pub open spec fn ser_index(v: IndexModel) -> Seq<u8> {
    seq![86u8, 73u8, 68u8, 88u8, 1u8] + enc_u64(v.dimension as u64) + seq![
        metric_tag(v.metric),
        (if v.built {
            1u8
        } else {
            0u8
        }),
    ] + enc_u64(v.items.len() as u64) + ser_items_to(v.items, v.items.len() as int) + enc_u64(
        v.graph.len() as u64,
    ) + ser_graph_to(v.graph, v.graph.len() as int) + enc_u64(v.entry as u64)
}

/// Whether an index model fits machine sizes: every count that the byte
/// layout stores as one 64-bit word really fits one. Every index built by
/// this library does, since its sequences live in vectors.
pub open spec fn index_sized(v: IndexModel) -> bool {
    &&& v.items.len() < 0x1_0000_0000_0000_0000
    &&& v.graph.len() < 0x1_0000_0000_0000_0000
    &&& forall|i: int|
        0 <= i < v.items.len() ==> vstd::utf8::encode_utf8((#[trigger] v.items[i]).label).len()
            < 0x1_0000_0000_0000_0000
}

proof fn lemma_enc_u64_injective(x: u64, y: u64)
    requires
        enc_u64(x) == enc_u64(y),
    ensures
        x == y,
{
    assert(enc_u64(x)[0] == enc_u64(y)[0]);
    assert(enc_u64(x)[1] == enc_u64(y)[1]);
    assert(enc_u64(x)[2] == enc_u64(y)[2]);
    assert(enc_u64(x)[3] == enc_u64(y)[3]);
    assert(enc_u64(x)[4] == enc_u64(y)[4]);
    assert(enc_u64(x)[5] == enc_u64(y)[5]);
    assert(enc_u64(x)[6] == enc_u64(y)[6]);
    assert(enc_u64(x)[7] == enc_u64(y)[7]);
    assert(x == y) by (bit_vector)
        requires
            (x & 0xff) as u8 == (y & 0xff) as u8,
            ((x >> 8) & 0xff) as u8 == ((y >> 8) & 0xff) as u8,
            ((x >> 16) & 0xff) as u8 == ((y >> 16) & 0xff) as u8,
            ((x >> 24) & 0xff) as u8 == ((y >> 24) & 0xff) as u8,
            ((x >> 32) & 0xff) as u8 == ((y >> 32) & 0xff) as u8,
            ((x >> 40) & 0xff) as u8 == ((y >> 40) & 0xff) as u8,
            ((x >> 48) & 0xff) as u8 == ((y >> 48) & 0xff) as u8,
            ((x >> 56) & 0xff) as u8 == ((y >> 56) & 0xff) as u8,
    ;
}

proof fn lemma_concat_split<T>(a1: Seq<T>, b1: Seq<T>, a2: Seq<T>, b2: Seq<T>)
    requires
        a1 + b1 == a2 + b2,
        a1.len() == a2.len(),
    ensures
        a1 == a2,
        b1 == b2,
{
    assert forall|i: int| 0 <= i < a1.len() implies a1[i] == a2[i] by {
        assert((a1 + b1)[i] == a1[i]);
        assert((a2 + b2)[i] == a2[i]);
    }
    assert(a1 =~= a2);
    assert((a1 + b1).len() == a1.len() + b1.len());
    assert((a2 + b2).len() == a2.len() + b2.len());
    assert(b1.len() == b2.len());
    assert forall|i: int| 0 <= i < b1.len() implies b1[i] == b2[i] by {
        assert((a1 + b1)[a1.len() + i] == b1[i]);
        assert((a2 + b2)[a2.len() + i] == b2[i]);
    }
    assert(b1 =~= b2);
}

/// Splits equality of `enc_u64(x) + r1 == enc_u64(y) + r2` into its parts.
proof fn lemma_word_prefix(x: u64, y: u64, r1: Seq<u8>, r2: Seq<u8>)
    requires
        enc_u64(x) + r1 == enc_u64(y) + r2,
    ensures
        x == y,
        r1 == r2,
{
    lemma_concat_split(enc_u64(x), r1, enc_u64(y), r2);
    lemma_enc_u64_injective(x, y);
}

proof fn lemma_ser_vector_len(v: Seq<i64>, n: int)
    requires
        0 <= n,
    ensures
        ser_vector_to(v, n).len() == 8 * n,
    decreases n,
{
    if n > 0 {
        lemma_ser_vector_len(v, n - 1);
    }
}

/// Equal-length scalar blocks of in-range scalars encode equal vectors.
proof fn lemma_vector_block_injective(v1: Seq<i64>, v2: Seq<i64>, n: int)
    requires
        0 <= n <= v1.len(),
        n <= v2.len(),
        forall|i: int| 0 <= i < n ==> scalar_ok(#[trigger] v1[i]),
        forall|i: int| 0 <= i < n ==> scalar_ok(#[trigger] v2[i]),
        ser_vector_to(v1, n) == ser_vector_to(v2, n),
    ensures
        forall|i: int| 0 <= i < n ==> v1[i] == v2[i],
    decreases n,
{
    if n > 0 {
        lemma_ser_vector_len(v1, n - 1);
        lemma_ser_vector_len(v2, n - 1);
        lemma_concat_split(
            ser_vector_to(v1, n - 1),
            enc_u64((v1[n - 1] + SCALAR_MAX) as u64),
            ser_vector_to(v2, n - 1),
            enc_u64((v2[n - 1] + SCALAR_MAX) as u64),
        );
        lemma_enc_u64_injective(
            (v1[n - 1] + SCALAR_MAX) as u64,
            (v2[n - 1] + SCALAR_MAX) as u64,
        );
        lemma_vector_block_injective(v1, v2, n - 1);
    }
}

/// A serialized item determines the item and the rest of the stream, given
/// both items have the same dimension.
proof fn lemma_item_prefix(it1: ItemModel, it2: ItemModel, r1: Seq<u8>, r2: Seq<u8>)
    requires
        it1.vector.len() == it2.vector.len(),
        forall|i: int| 0 <= i < it1.vector.len() ==> scalar_ok(#[trigger] it1.vector[i]),
        forall|i: int| 0 <= i < it2.vector.len() ==> scalar_ok(#[trigger] it2.vector[i]),
        vstd::utf8::encode_utf8(it1.label).len() < 0x1_0000_0000_0000_0000,
        vstd::utf8::encode_utf8(it2.label).len() < 0x1_0000_0000_0000_0000,
        ser_item(it1) + r1 == ser_item(it2) + r2,
    ensures
        it1 == it2,
        r1 == r2,
{
    let n = it1.vector.len() as int;
    lemma_ser_vector_len(it1.vector, n);
    lemma_ser_vector_len(it2.vector, n);
    assert((ser_vector_to(it1.vector, n) + ser_label(it1.label)) + r1 == (ser_vector_to(
        it2.vector,
        n,
    ) + ser_label(it2.label)) + r2);
    assert(ser_vector_to(it1.vector, n) + (ser_label(it1.label) + r1) =~= (ser_vector_to(
        it1.vector,
        n,
    ) + ser_label(it1.label)) + r1);
    assert(ser_vector_to(it2.vector, n) + (ser_label(it2.label) + r2) =~= (ser_vector_to(
        it2.vector,
        n,
    ) + ser_label(it2.label)) + r2);
    lemma_concat_split(
        ser_vector_to(it1.vector, n),
        ser_label(it1.label) + r1,
        ser_vector_to(it2.vector, n),
        ser_label(it2.label) + r2,
    );
    lemma_vector_block_injective(it1.vector, it2.vector, n);
    assert(it1.vector =~= it2.vector);
    let b1 = vstd::utf8::encode_utf8(it1.label);
    let b2 = vstd::utf8::encode_utf8(it2.label);
    assert(enc_u64(b1.len() as u64) + (b1 + r1) =~= (enc_u64(b1.len() as u64) + b1) + r1);
    assert(enc_u64(b2.len() as u64) + (b2 + r2) =~= (enc_u64(b2.len() as u64) + b2) + r2);
    lemma_word_prefix(b1.len() as u64, b2.len() as u64, b1 + r1, b2 + r2);
    assert(b1.len() < 0x1_0000_0000_0000_0000);
    assert(b2.len() < 0x1_0000_0000_0000_0000);
    assert(b1.len() as u64 == b2.len() as u64);
    assert(b1.len() == b2.len());
    lemma_concat_split(b1, r1, b2, r2);
    vstd::utf8::encode_utf8_decode_utf8(it1.label);
    vstd::utf8::encode_utf8_decode_utf8(it2.label);
    assert(it1.label == it2.label);
    assert(it1 =~= it2);
}

proof fn lemma_ser_list_len(lst: Seq<usize>, n: int)
    requires
        0 <= n,
    ensures
        ser_list_to(lst, n).len() == 8 * n,
    decreases n,
{
    if n > 0 {
        lemma_ser_list_len(lst, n - 1);
    }
}

proof fn lemma_list_block_injective(l1: Seq<usize>, l2: Seq<usize>, n: int)
    requires
        0 <= n <= l1.len(),
        n <= l2.len(),
        ser_list_to(l1, n) == ser_list_to(l2, n),
    ensures
        forall|i: int| 0 <= i < n ==> l1[i] == l2[i],
    decreases n,
{
    if n > 0 {
        lemma_ser_list_len(l1, n - 1);
        lemma_ser_list_len(l2, n - 1);
        lemma_concat_split(
            ser_list_to(l1, n - 1),
            enc_u64(l1[n - 1] as u64),
            ser_list_to(l2, n - 1),
            enc_u64(l2[n - 1] as u64),
        );
        lemma_enc_u64_injective(l1[n - 1] as u64, l2[n - 1] as u64);
        lemma_list_block_injective(l1, l2, n - 1);
    }
}

proof fn lemma_list_prefix(l1: Seq<usize>, l2: Seq<usize>, r1: Seq<u8>, r2: Seq<u8>)
    requires
        l1.len() < 0x1_0000_0000_0000_0000,
        l2.len() < 0x1_0000_0000_0000_0000,
        ser_list(l1) + r1 == ser_list(l2) + r2,
    ensures
        l1 == l2,
        r1 == r2,
{
    let b1 = ser_list_to(l1, l1.len() as int);
    let b2 = ser_list_to(l2, l2.len() as int);
    assert(enc_u64(l1.len() as u64) + (b1 + r1) =~= (enc_u64(l1.len() as u64) + b1) + r1);
    assert(enc_u64(l2.len() as u64) + (b2 + r2) =~= (enc_u64(l2.len() as u64) + b2) + r2);
    lemma_word_prefix(l1.len() as u64, l2.len() as u64, b1 + r1, b2 + r2);
    assert(l1.len() == l2.len());
    lemma_ser_list_len(l1, l1.len() as int);
    lemma_ser_list_len(l2, l2.len() as int);
    lemma_concat_split(b1, r1, b2, r2);
    lemma_list_block_injective(l1, l2, l1.len() as int);
    assert(l1 =~= l2);
}

proof fn lemma_node_shift(node: Seq<Seq<usize>>, n: int)
    requires
        1 <= n <= node.len(),
    ensures
        ser_node_to(node, n) == ser_list(node[0]) + ser_node_to(node.drop_first(), n - 1),
    decreases n,
{
    if n == 1 {
        assert(ser_node_to(node, 0) == Seq::<u8>::empty());
        assert(ser_node_to(node.drop_first(), 0) == Seq::<u8>::empty());
        assert(ser_node_to(node, 1) =~= ser_list(node[0]) + ser_node_to(node.drop_first(), 0));
    } else {
        lemma_node_shift(node, n - 1);
        assert(node.drop_first()[n - 2] == node[n - 1]);
        assert((ser_list(node[0]) + ser_node_to(node.drop_first(), n - 2)) + ser_list(node[n - 1])
            =~= ser_list(node[0]) + (ser_node_to(node.drop_first(), n - 2) + ser_list(
            node[n - 1],
        )));
    }
}

proof fn lemma_layers_injective(nd1: Seq<Seq<usize>>, nd2: Seq<Seq<usize>>, n: int, r1: Seq<u8>, r2: Seq<u8>)
    requires
        0 <= n <= nd1.len(),
        n <= nd2.len(),
        forall|i: int| 0 <= i < n ==> (#[trigger] nd1[i]).len() < 0x1_0000_0000_0000_0000,
        forall|i: int| 0 <= i < n ==> (#[trigger] nd2[i]).len() < 0x1_0000_0000_0000_0000,
        ser_node_to(nd1, n) + r1 == ser_node_to(nd2, n) + r2,
    ensures
        forall|i: int| 0 <= i < n ==> nd1[i] == nd2[i],
        r1 == r2,
    decreases n,
{
    if n == 0 {
        assert(ser_node_to(nd1, 0) + r1 =~= r1);
        assert(ser_node_to(nd2, 0) + r2 =~= r2);
    } else {
        lemma_node_shift(nd1, n);
        lemma_node_shift(nd2, n);
        let t1 = ser_node_to(nd1.drop_first(), n - 1);
        let t2 = ser_node_to(nd2.drop_first(), n - 1);
        assert((ser_list(nd1[0]) + t1) + r1 =~= ser_list(nd1[0]) + (t1 + r1));
        assert((ser_list(nd2[0]) + t2) + r2 =~= ser_list(nd2[0]) + (t2 + r2));
        lemma_list_prefix(nd1[0], nd2[0], t1 + r1, t2 + r2);
        lemma_layers_injective(nd1.drop_first(), nd2.drop_first(), n - 1, r1, r2);
        assert forall|i: int| 0 <= i < n implies nd1[i] == nd2[i] by {
            if i > 0 {
                assert(nd1.drop_first()[i - 1] == nd2.drop_first()[i - 1]);
            }
        }
    }
}

proof fn lemma_node_prefix(nd1: Seq<Seq<usize>>, nd2: Seq<Seq<usize>>, r1: Seq<u8>, r2: Seq<u8>)
    requires
        nd1.len() < 0x1_0000_0000_0000_0000,
        nd2.len() < 0x1_0000_0000_0000_0000,
        forall|i: int| 0 <= i < nd1.len() ==> (#[trigger] nd1[i]).len() < 0x1_0000_0000_0000_0000,
        forall|i: int| 0 <= i < nd2.len() ==> (#[trigger] nd2[i]).len() < 0x1_0000_0000_0000_0000,
        ser_node(nd1) + r1 == ser_node(nd2) + r2,
    ensures
        nd1 == nd2,
        r1 == r2,
{
    let b1 = ser_node_to(nd1, nd1.len() as int);
    let b2 = ser_node_to(nd2, nd2.len() as int);
    assert(enc_u64(nd1.len() as u64) + (b1 + r1) =~= (enc_u64(nd1.len() as u64) + b1) + r1);
    assert(enc_u64(nd2.len() as u64) + (b2 + r2) =~= (enc_u64(nd2.len() as u64) + b2) + r2);
    lemma_word_prefix(nd1.len() as u64, nd2.len() as u64, b1 + r1, b2 + r2);
    assert(nd1.len() == nd2.len());
    lemma_layers_injective(nd1, nd2, nd1.len() as int, r1, r2);
    assert(nd1 =~= nd2);
}

proof fn lemma_items_shift(s: Seq<ItemModel>, n: int)
    requires
        1 <= n <= s.len(),
    ensures
        ser_items_to(s, n) == ser_item(s[0]) + ser_items_to(s.drop_first(), n - 1),
    decreases n,
{
    if n == 1 {
        assert(ser_items_to(s, 0) == Seq::<u8>::empty());
        assert(ser_items_to(s.drop_first(), 0) == Seq::<u8>::empty());
        assert(ser_items_to(s, 1) =~= ser_item(s[0]) + ser_items_to(s.drop_first(), 0));
    } else {
        lemma_items_shift(s, n - 1);
        assert(s.drop_first()[n - 2] == s[n - 1]);
        assert((ser_item(s[0]) + ser_items_to(s.drop_first(), n - 2)) + ser_item(s[n - 1]) =~= ser_item(
            s[0],
        ) + (ser_items_to(s.drop_first(), n - 2) + ser_item(s[n - 1])));
    }
}

proof fn lemma_items_injective(
    s1: Seq<ItemModel>,
    s2: Seq<ItemModel>,
    d: nat,
    n: int,
    r1: Seq<u8>,
    r2: Seq<u8>,
)
    requires
        0 <= n <= s1.len(),
        n <= s2.len(),
        forall|i: int| 0 <= i < n ==> crate::dist::vec_ok((#[trigger] s1[i]).vector, d),
        forall|i: int| 0 <= i < n ==> crate::dist::vec_ok((#[trigger] s2[i]).vector, d),
        forall|i: int|
            0 <= i < n ==> vstd::utf8::encode_utf8((#[trigger] s1[i]).label).len()
                < 0x1_0000_0000_0000_0000,
        forall|i: int|
            0 <= i < n ==> vstd::utf8::encode_utf8((#[trigger] s2[i]).label).len()
                < 0x1_0000_0000_0000_0000,
        ser_items_to(s1, n) + r1 == ser_items_to(s2, n) + r2,
    ensures
        forall|i: int| 0 <= i < n ==> s1[i] == s2[i],
        r1 == r2,
    decreases n,
{
    if n == 0 {
        assert(ser_items_to(s1, 0) + r1 =~= r1);
        assert(ser_items_to(s2, 0) + r2 =~= r2);
    } else {
        lemma_items_shift(s1, n);
        lemma_items_shift(s2, n);
        let t1 = ser_items_to(s1.drop_first(), n - 1);
        let t2 = ser_items_to(s2.drop_first(), n - 1);
        assert((ser_item(s1[0]) + t1) + r1 =~= ser_item(s1[0]) + (t1 + r1));
        assert((ser_item(s2[0]) + t2) + r2 =~= ser_item(s2[0]) + (t2 + r2));
        lemma_item_prefix(s1[0], s2[0], t1 + r1, t2 + r2);
        lemma_items_injective(s1.drop_first(), s2.drop_first(), d, n - 1, r1, r2);
        assert forall|i: int| 0 <= i < n implies s1[i] == s2[i] by {
            if i > 0 {
                assert(s1.drop_first()[i - 1] == s2.drop_first()[i - 1]);
            }
        }
    }
}

proof fn lemma_graph_shift(g: Seq<Seq<Seq<usize>>>, n: int)
    requires
        1 <= n <= g.len(),
    ensures
        ser_graph_to(g, n) == ser_node(g[0]) + ser_graph_to(g.drop_first(), n - 1),
    decreases n,
{
    if n == 1 {
        assert(ser_graph_to(g, 0) == Seq::<u8>::empty());
        assert(ser_graph_to(g.drop_first(), 0) == Seq::<u8>::empty());
        assert(ser_graph_to(g, 1) =~= ser_node(g[0]) + ser_graph_to(g.drop_first(), 0));
    } else {
        lemma_graph_shift(g, n - 1);
        assert(g.drop_first()[n - 2] == g[n - 1]);
        assert((ser_node(g[0]) + ser_graph_to(g.drop_first(), n - 2)) + ser_node(g[n - 1]) =~= ser_node(
            g[0],
        ) + (ser_graph_to(g.drop_first(), n - 2) + ser_node(g[n - 1])));
    }
}

proof fn lemma_graph_injective(
    g1: Seq<Seq<Seq<usize>>>,
    g2: Seq<Seq<Seq<usize>>>,
    n: int,
    r1: Seq<u8>,
    r2: Seq<u8>,
)
    requires
        0 <= n <= g1.len(),
        n <= g2.len(),
        forall|i: int| 0 <= i < n ==> (#[trigger] g1[i]).len() < 0x1_0000_0000_0000_0000,
        forall|i: int| 0 <= i < n ==> (#[trigger] g2[i]).len() < 0x1_0000_0000_0000_0000,
        forall|i: int, l: int|
            0 <= i < n && 0 <= l < g1[i].len() ==> (#[trigger] g1[i][l]).len()
                < 0x1_0000_0000_0000_0000,
        forall|i: int, l: int|
            0 <= i < n && 0 <= l < g2[i].len() ==> (#[trigger] g2[i][l]).len()
                < 0x1_0000_0000_0000_0000,
        ser_graph_to(g1, n) + r1 == ser_graph_to(g2, n) + r2,
    ensures
        forall|i: int| 0 <= i < n ==> g1[i] == g2[i],
        r1 == r2,
    decreases n,
{
    if n == 0 {
        assert(ser_graph_to(g1, 0) + r1 =~= r1);
        assert(ser_graph_to(g2, 0) + r2 =~= r2);
    } else {
        lemma_graph_shift(g1, n);
        lemma_graph_shift(g2, n);
        let t1 = ser_graph_to(g1.drop_first(), n - 1);
        let t2 = ser_graph_to(g2.drop_first(), n - 1);
        assert((ser_node(g1[0]) + t1) + r1 =~= ser_node(g1[0]) + (t1 + r1));
        assert((ser_node(g2[0]) + t2) + r2 =~= ser_node(g2[0]) + (t2 + r2));
        lemma_node_prefix(g1[0], g2[0], t1 + r1, t2 + r2);
        lemma_graph_injective(g1.drop_first(), g2.drop_first(), n - 1, r1, r2);
        assert forall|i: int| 0 <= i < n implies g1[i] == g2[i] by {
            if i > 0 {
                assert(g1.drop_first()[i - 1] == g2.drop_first()[i - 1]);
            }
        }
    }
}

/// Two well-formed, machine-sized indexes with the same byte stream are the
/// same index: the dump format loses nothing. Together with `from_bytes`'s
/// contract, which says a successful load re-serializes to the loaded bytes,
/// loading a dump of a well-formed index restores exactly the index that was
/// dumped, so a reloaded index carries the same items, metric, state and
/// graph as the one that was dumped.
#[verifier::rlimit(100)]
pub proof fn lemma_ser_index_injective(v1: IndexModel, v2: IndexModel)
    requires
        index_wf(v1),
        index_wf(v2),
        index_sized(v1),
        index_sized(v2),
        ser_index(v1) == ser_index(v2),
    ensures
        v1 == v2,
{
    let head1 = seq![
        86u8,
        73u8,
        68u8,
        88u8,
        1u8,
    ] + enc_u64(v1.dimension as u64) + seq![
        metric_tag(v1.metric),
        (if v1.built {
            1u8
        } else {
            0u8
        }),
    ] + enc_u64(v1.items.len() as u64);
    let head2 = seq![
        86u8,
        73u8,
        68u8,
        88u8,
        1u8,
    ] + enc_u64(v2.dimension as u64) + seq![
        metric_tag(v2.metric),
        (if v2.built {
            1u8
        } else {
            0u8
        }),
    ] + enc_u64(v2.items.len() as u64);
    let tail1 = ser_items_to(v1.items, v1.items.len() as int) + (enc_u64(v1.graph.len() as u64)
        + (ser_graph_to(v1.graph, v1.graph.len() as int) + enc_u64(v1.entry as u64)));
    let tail2 = ser_items_to(v2.items, v2.items.len() as int) + (enc_u64(v2.graph.len() as u64)
        + (ser_graph_to(v2.graph, v2.graph.len() as int) + enc_u64(v2.entry as u64)));
    assert(ser_index(v1) =~= head1 + tail1);
    assert(ser_index(v2) =~= head2 + tail2);
    assert(head1.len() == head2.len());
    lemma_concat_split(head1, tail1, head2, tail2);
    assert(head1[5] == head2[5]);
    assert(head1[6] == head2[6]);
    assert(head1[7] == head2[7]);
    assert(head1[8] == head2[8]);
    assert(head1[9] == head2[9]);
    assert(head1[10] == head2[10]);
    assert(head1[11] == head2[11]);
    assert(head1[12] == head2[12]);
    assert(enc_u64(v1.dimension as u64) =~= enc_u64(v2.dimension as u64));
    lemma_enc_u64_injective(v1.dimension as u64, v2.dimension as u64);
    assert(v1.dimension == v2.dimension);
    assert(head1[13] == head2[13]);
    assert(metric_tag(v1.metric) == metric_tag(v2.metric));
    assert(v1.metric == v2.metric);
    assert(head1[14] == head2[14]);
    assert(v1.built == v2.built);
    assert(head1[15] == head2[15]);
    assert(head1[16] == head2[16]);
    assert(head1[17] == head2[17]);
    assert(head1[18] == head2[18]);
    assert(head1[19] == head2[19]);
    assert(head1[20] == head2[20]);
    assert(head1[21] == head2[21]);
    assert(head1[22] == head2[22]);
    assert(enc_u64(v1.items.len() as u64) =~= enc_u64(v2.items.len() as u64));
    lemma_enc_u64_injective(v1.items.len() as u64, v2.items.len() as u64);
    assert(v1.items.len() == v2.items.len());
    let mid1 = enc_u64(v1.graph.len() as u64) + (ser_graph_to(v1.graph, v1.graph.len() as int)
        + enc_u64(v1.entry as u64));
    let mid2 = enc_u64(v2.graph.len() as u64) + (ser_graph_to(v2.graph, v2.graph.len() as int)
        + enc_u64(v2.entry as u64));
    lemma_items_injective(
        v1.items,
        v2.items,
        v1.dimension,
        v1.items.len() as int,
        mid1,
        mid2,
    );
    assert(v1.items =~= v2.items);
    lemma_word_prefix(
        v1.graph.len() as u64,
        v2.graph.len() as u64,
        ser_graph_to(v1.graph, v1.graph.len() as int) + enc_u64(v1.entry as u64),
        ser_graph_to(v2.graph, v2.graph.len() as int) + enc_u64(v2.entry as u64),
    );
    assert(v1.graph.len() == v2.graph.len());
    {
        assert forall|i: int, l: int|
            0 <= i < v1.graph.len() && 0 <= l < v1.graph[i].len() implies (
        #[trigger] v1.graph[i][l]).len() < 0x1_0000_0000_0000_0000 by {
            if v1.built {
                assert(node_wf(v1.graph, i));
            }
        }
        assert forall|i: int, l: int|
            0 <= i < v2.graph.len() && 0 <= l < v2.graph[i].len() implies (
        #[trigger] v2.graph[i][l]).len() < 0x1_0000_0000_0000_0000 by {
            if v2.built {
                assert(node_wf(v2.graph, i));
            }
        }
        assert forall|i: int| 0 <= i < v1.graph.len() implies (#[trigger] v1.graph[i]).len()
            < 0x1_0000_0000_0000_0000 by {
            if v1.built {
                assert(node_wf(v1.graph, i));
            }
        }
        assert forall|i: int| 0 <= i < v2.graph.len() implies (#[trigger] v2.graph[i]).len()
            < 0x1_0000_0000_0000_0000 by {
            if v2.built {
                assert(node_wf(v2.graph, i));
            }
        }
    }
    lemma_graph_injective(
        v1.graph,
        v2.graph,
        v1.graph.len() as int,
        enc_u64(v1.entry as u64),
        enc_u64(v2.entry as u64),
    );
    assert(v1.graph =~= v2.graph);
    lemma_enc_u64_injective(v1.entry as u64, v2.entry as u64);
    assert(v1.entry == v2.entry);
    assert(v1 =~= v2);
}

/// Appends the eight little-endian bytes of `x`.
fn write_u64(out: &mut Vec<u8>, x: u64)
    ensures
        final(out)@ == old(out)@ + enc_u64(x),
{
    out.push((x & 0xff) as u8);
    out.push(((x >> 8) & 0xff) as u8);
    out.push(((x >> 16) & 0xff) as u8);
    out.push(((x >> 24) & 0xff) as u8);
    out.push(((x >> 32) & 0xff) as u8);
    out.push(((x >> 40) & 0xff) as u8);
    out.push(((x >> 48) & 0xff) as u8);
    out.push(((x >> 56) & 0xff) as u8);
    proof {
        assert(out@ =~= old(out)@ + enc_u64(x));
    }
}

/// Whether two byte vectors hold the same bytes.
fn bytes_eq(a: &Vec<u8>, b: &Vec<u8>) -> (r: bool)
    ensures
        r == (a@ == b@),
{
    if a.len() != b.len() {
        proof {
            if a@ == b@ {
                assert(false);
            }
        }
        return false;
    }
    let n: usize = a.len();
    let mut i: usize = 0;
    while i < n
        invariant
            n == a@.len() == b@.len(),
            i <= n,
            forall|j: int| 0 <= j < i ==> a@[j] == b@[j],
        decreases n - i,
    {
        if a[i] != b[i] {
            return false;
        }
        i += 1;
    }
    proof {
        assert(a@ =~= b@);
    }
    true
}

/// Relies on `String::from_utf8`: it succeeds exactly on valid UTF-8 and the
/// returned string decodes those very bytes.
#[verifier::external_body]
fn string_from_utf8(bytes: Vec<u8>) -> (r: Option<String>)
    ensures
        match r {
            Some(s) => vstd::utf8::valid_utf8(bytes@) && s@ == vstd::utf8::decode_utf8(bytes@),
            None => !vstd::utf8::valid_utf8(bytes@),
        },
{
    match String::from_utf8(bytes) {
        Ok(s) => Some(s),
        Err(_) => None,
    }
}

/// The eight little-endian bytes at `pos`, with the position after them.
fn read_u64(bytes: &Vec<u8>, pos: usize) -> (r: Option<(u64, usize)>)
    ensures
        match r {
            Some(p) => pos + 8 <= bytes@.len() && p.1 == pos + 8,
            None => true,
        },
{
    if bytes.len() >= 8 && pos <= bytes.len() - 8 {
        let b0: u64 = bytes[pos] as u64;
        let b1: u64 = bytes[pos + 1] as u64;
        let b2: u64 = bytes[pos + 2] as u64;
        let b3: u64 = bytes[pos + 3] as u64;
        let b4: u64 = bytes[pos + 4] as u64;
        let b5: u64 = bytes[pos + 5] as u64;
        let b6: u64 = bytes[pos + 6] as u64;
        let b7: u64 = bytes[pos + 7] as u64;
        let x: u64 = b0 | (b1 << 8) | (b2 << 16) | (b3 << 24) | (b4 << 32) | (b5 << 40) | (b6
            << 48) | (b7 << 56);
        Some((x, pos + 8))
    } else {
        None
    }
}

/// A structural read of the byte layout; the caller still checks the result
/// for well-formedness and canonicality.
fn parse_loose(bytes: &Vec<u8>) -> (r: Option<VectorIndex>) {
    if bytes.len() < 5 {
        return None;
    }
    if !(bytes[0] == 86 && bytes[1] == 73 && bytes[2] == 68 && bytes[3] == 88 && bytes[4] == 1) {
        return None;
    }
    let mut pos: usize = 5;
    let dim64: u64;
    match read_u64(bytes, pos) {
        Some(t) => {
            dim64 = t.0;
            pos = t.1;
        },
        None => {
            return None;
        },
    }
    if dim64 == 0 || dim64 > DIM_MAX as u64 {
        return None;
    }
    let dimension: usize = dim64 as usize;
    if pos >= bytes.len() {
        return None;
    }
    let tag: u8 = bytes[pos];
    pos = pos + 1;
    let metric: Metric = match tag {
        0 => Metric::Angular,
        1 => Metric::Manhattan,
        2 => Metric::DotProduct,
        3 => Metric::Euclidean,
        4 => Metric::CosineSimilarity,
        5 => Metric::Unknown,
        _ => {
            return None;
        },
    };
    if pos >= bytes.len() {
        return None;
    }
    let built_b: u8 = bytes[pos];
    pos = pos + 1;
    let built: bool = match built_b {
        0 => false,
        1 => true,
        _ => {
            return None;
        },
    };
    let cnt64: u64;
    match read_u64(bytes, pos) {
        Some(t) => {
            cnt64 = t.0;
            pos = t.1;
        },
        None => {
            return None;
        },
    }
    if cnt64 > usize::MAX as u64 {
        return None;
    }
    let count: usize = cnt64 as usize;
    let mut items: Vec<Item> = Vec::new();
    let mut i: usize = 0;
    while i < count
        invariant
            pos <= bytes@.len(),
            dimension <= DIM_MAX,
        decreases count - i,
    {
        let mut vecv: Vec<i64> = Vec::new();
        let mut c: usize = 0;
        while c < dimension
            invariant
                pos <= bytes@.len(),
            decreases dimension - c,
        {
            let raw: u64;
            match read_u64(bytes, pos) {
                Some(t) => {
                    raw = t.0;
                    pos = t.1;
                },
                None => {
                    return None;
                },
            }
            if raw > 65536 {
                return None;
            }
            vecv.push((raw as i64) - SCALAR_MAX);
            c += 1;
        }
        let ll: u64;
        match read_u64(bytes, pos) {
            Some(t) => {
                ll = t.0;
                pos = t.1;
            },
            None => {
                return None;
            },
        }
        if ll > bytes.len() as u64 {
            return None;
        }
        let llen: usize = ll as usize;
        if bytes.len() - pos < llen {
            return None;
        }
        let mut lb: Vec<u8> = Vec::new();
        let mut t2: usize = 0;
        while t2 < llen
            invariant
                pos + llen <= bytes@.len(),
                pos + llen <= usize::MAX,
                t2 <= llen,
            decreases llen - t2,
        {
            lb.push(bytes[pos + t2]);
            t2 += 1;
        }
        pos = pos + llen;
        let label: String;
        match string_from_utf8(lb) {
            Some(s) => {
                label = s;
            },
            None => {
                return None;
            },
        }
        items.push(Item { vector: vecv, label });
        i += 1;
    }
    let gc64: u64;
    match read_u64(bytes, pos) {
        Some(t) => {
            gc64 = t.0;
            pos = t.1;
        },
        None => {
            return None;
        },
    }
    if gc64 > usize::MAX as u64 {
        return None;
    }
    let gcount: usize = gc64 as usize;
    let mut graph: Vec<Vec<Vec<usize>>> = Vec::new();
    let mut x: usize = 0;
    while x < gcount
        invariant
            pos <= bytes@.len(),
        decreases gcount - x,
    {
        let lc64: u64;
        match read_u64(bytes, pos) {
            Some(t) => {
                lc64 = t.0;
                pos = t.1;
            },
            None => {
                return None;
            },
        }
        if lc64 > (MAX_LEVEL + 1) as u64 {
            return None;
        }
        let lcount: usize = lc64 as usize;
        let mut node: Vec<Vec<usize>> = Vec::new();
        let mut l: usize = 0;
        while l < lcount
            invariant
                pos <= bytes@.len(),
            decreases lcount - l,
        {
            let ec64: u64;
            match read_u64(bytes, pos) {
                Some(t) => {
                    ec64 = t.0;
                    pos = t.1;
                },
                None => {
                    return None;
                },
            }
            if ec64 > M0_NEIGHBORS as u64 {
                return None;
            }
            let ec: usize = ec64 as usize;
            let mut lst: Vec<usize> = Vec::new();
            let mut e: usize = 0;
            while e < ec
                invariant
                    pos <= bytes@.len(),
                decreases ec - e,
            {
                let id64: u64;
                match read_u64(bytes, pos) {
                    Some(t) => {
                        id64 = t.0;
                        pos = t.1;
                    },
                    None => {
                        return None;
                    },
                }
                if id64 > usize::MAX as u64 {
                    return None;
                }
                lst.push(id64 as usize);
                e += 1;
            }
            node.push(lst);
            l += 1;
        }
        graph.push(node);
        x += 1;
    }
    let ep64: u64;
    match read_u64(bytes, pos) {
        Some(t) => {
            ep64 = t.0;
            pos = t.1;
        },
        None => {
            return None;
        },
    }
    if ep64 > usize::MAX as u64 {
        return None;
    }
    let entry: usize = ep64 as usize;
    if pos != bytes.len() {
        return None;
    }
    Some(VectorIndex { dimension, metric, built, items, graph, entry })
}

/// Whether the index satisfies the library invariant, checked in full.
fn check_wf(idx: &VectorIndex) -> (r: bool)
    ensures
        r == index_wf(idx@),
{
    let ghost v = idx@;
    let ghost gm = graph_view(idx.graph@);
    if idx.dimension < 1 || idx.dimension > DIM_MAX {
        return false;
    }
    let mut i: usize = 0;
    while i < idx.items.len()
        invariant
            v == idx@,
            gm == graph_view(idx.graph@),
            i <= idx.items@.len(),
            1 <= v.dimension <= DIM_MAX as nat,
            forall|t: int|
                0 <= t < i ==> crate::dist::vec_ok(
                    (#[trigger] items_view(idx.items@)[t]).vector,
                    v.dimension,
                ),
        decreases idx.items@.len() - i,
    {
        let it: &Item = &idx.items[i];
        if it.vector.len() != idx.dimension {
            proof {
                assert(!crate::dist::vec_ok(items_view(idx.items@)[i as int].vector, v.dimension));
            }
            return false;
        }
        let mut c: usize = 0;
        while c < it.vector.len()
            invariant
                v == idx@,
                i < idx.items@.len(),
                it == &idx.items@[i as int],
                c <= it.vector@.len(),
                forall|t: int| 0 <= t < c ==> scalar_ok(#[trigger] it.vector@[t]),
            decreases it.vector@.len() - c,
        {
            let xv: i64 = it.vector[c];
            if xv < -SCALAR_MAX || xv > SCALAR_MAX {
                proof {
                    assert(!scalar_ok(it.vector@[c as int]));
                    assert(!crate::dist::vec_ok(
                        items_view(idx.items@)[i as int].vector,
                        v.dimension,
                    ));
                }
                return false;
            }
            c += 1;
        }
        proof {
            assert(crate::dist::vec_ok(items_view(idx.items@)[i as int].vector, v.dimension));
        }
        i += 1;
    }
    proof {
        assert(items_ok(v.items, v.dimension));
    }
    if idx.graph.len() > idx.items.len() {
        return false;
    }
    if !idx.built {
        if idx.graph.len() != 0 {
            return false;
        }
        if idx.entry != 0 {
            return false;
        }
        proof {
            assert(index_wf(v));
        }
        return true;
    }
    if idx.graph.len() == 0 {
        return false;
    }
    if idx.entry >= idx.graph.len() {
        return false;
    }
    let mut x: usize = 0;
    while x < idx.graph.len()
        invariant
            v == idx@,
            gm == graph_view(idx.graph@),
            x <= idx.graph@.len(),
            v.built,
            (v.entry as int) < gm.len(),
            forall|t: int| 0 <= t < x ==> node_wf(gm, t),
            forall|t: int| 0 <= t < x ==> (#[trigger] gm[t]).len() <= gm[v.entry as int].len(),
        decreases idx.graph@.len() - x,
    {
        let nl: usize = idx.graph[x].len();
        if nl < 1 || nl > MAX_LEVEL + 1 {
            proof {
                assert(!node_wf(gm, x as int));
            }
            return false;
        }
        if nl > idx.graph[idx.entry].len() {
            proof {
                assert(gm[x as int].len() > gm[v.entry as int].len());
                assert(!graph_wf(v.graph, v.entry));
            }
            return false;
        }
        let mut l: usize = 0;
        while l < nl
            invariant
                v == idx@,
                gm == graph_view(idx.graph@),
                x < idx.graph@.len(),
                nl == gm[x as int].len(),
                1 <= nl <= MAX_LEVEL + 1,
                l <= nl,
                forall|l2: int|
                    0 <= l2 < l ==> (#[trigger] gm[x as int][l2]).len() <= crate::index::layer_cap(
                        l2,
                    ),
                forall|l2: int, u: int|
                    0 <= l2 < l && 0 <= u < gm[x as int][l2].len() ==> {
                        let nb = (#[trigger] gm[x as int][l2][u]) as int;
                        &&& nb < gm.len()
                        &&& nb != x as int
                        &&& l2 < gm[nb].len()
                    },
            decreases nl - l,
        {
            let cap: usize = if l == 0 {
                M0_NEIGHBORS
            } else {
                M_NEIGHBORS
            };
            if idx.graph[x][l].len() > cap {
                proof {
                    assert(gm[x as int][l as int].len() > crate::index::layer_cap(l as int));
                    assert(!node_wf(gm, x as int));
                }
                return false;
            }
            let mut e: usize = 0;
            while e < idx.graph[x][l].len()
                invariant
                    v == idx@,
                    gm == graph_view(idx.graph@),
                    x < idx.graph@.len(),
                    l < gm[x as int].len(),
                    e <= gm[x as int][l as int].len(),
                    forall|u: int|
                        0 <= u < e ==> {
                            let nb = (#[trigger] gm[x as int][l as int][u]) as int;
                            &&& nb < gm.len()
                            &&& nb != x as int
                            &&& (l as int) < gm[nb].len()
                        },
                decreases gm[x as int][l as int].len() - e,
            {
                let nb: usize = idx.graph[x][l][e];
                if nb >= idx.graph.len() || nb == x || l >= idx.graph[nb].len() {
                    proof {
                        assert(gm[x as int][l as int][e as int] == nb);
                        assert(!((nb as int) < gm.len() && nb as int != x as int && (l as int)
                            < gm[nb as int].len()));
                        assert(!node_wf(gm, x as int));
                    }
                    return false;
                }
                e += 1;
            }
            l += 1;
        }
        proof {
            assert(node_wf(gm, x as int));
        }
        x += 1;
    }
    proof {
        assert(graph_wf(v.graph, v.entry));
        assert(index_wf(v));
    }
    true
}

/// Observes, from the machine representation alone, that every count the
/// byte layout stores as one 64-bit word fits one.
pub fn observe_index_sized(idx: &VectorIndex)
    ensures
        index_sized(idx@),
{
    let ghost v = idx@;
    let mut i: usize = 0;
    while i < idx.items.len()
        invariant
            v == idx@,
            i <= idx.items@.len(),
            forall|t: int|
                0 <= t < i ==> vstd::utf8::encode_utf8(
                    (#[trigger] items_view(idx.items@)[t]).label,
                ).len() < 0x1_0000_0000_0000_0000,
        decreases idx.items@.len() - i,
    {
        let b: &[u8] = idx.items[i].label.as_str().as_bytes();
        let n: usize = b.len();
        proof {
            assert(b@ == vstd::utf8::encode_utf8(idx.items@[i as int].label@));
            assert(vstd::utf8::encode_utf8(items_view(idx.items@)[i as int].label).len()
                == n as nat);
        }
        i += 1;
    }
    let ni: usize = idx.items.len();
    let ng: usize = idx.graph.len();
    proof {
        assert(v.items.len() == ni as nat);
        assert(v.graph.len() == ng as nat);
    }
}

/// Reconstructs an index from `from_bytes` input. Accepts exactly the
/// canonical byte streams: on success the result is well formed and
/// re-serializes to the given bytes; every other input is `CorruptData`.
pub fn from_bytes(bytes: &Vec<u8>) -> (r: Result<VectorIndex, IndexError>)
    ensures
        r is Ok ==> index_wf(r->Ok_0@) && index_sized(r->Ok_0@) && ser_index(r->Ok_0@) == bytes@,
        r is Err ==> r == Err::<VectorIndex, IndexError>(IndexError::CorruptData),
{
    match parse_loose(bytes) {
        None => Err(IndexError::CorruptData),
        Some(idx) => {
            if !check_wf(&idx) {
                return Err(IndexError::CorruptData);
            }
            observe_index_sized(&idx);
            let re: Vec<u8> = idx.to_bytes();
            if !bytes_eq(&re, bytes) {
                return Err(IndexError::CorruptData);
            }
            Ok(idx)
        },
    }
}

impl VectorIndex {
    /// The canonical byte stream of this index, for persistence. Dumping does
    /// not require a build: an unbuilt index serializes with an empty graph.
    pub fn to_bytes(&self) -> (out: Vec<u8>)
        requires
            index_wf(self@),
        ensures
            out@ == ser_index(self@),
    {
        let ghost v = self@;
        let mut out: Vec<u8> = Vec::new();
        out.push(86);
        out.push(73);
        out.push(68);
        out.push(88);
        out.push(1);
        proof {
            assert(out@ =~= seq![86u8, 73u8, 68u8, 88u8, 1u8]);
        }
        write_u64(&mut out, self.dimension as u64);
        let tag: u8 = match self.metric {
            Metric::Angular => 0,
            Metric::Manhattan => 1,
            Metric::DotProduct => 2,
            Metric::Euclidean => 3,
            Metric::CosineSimilarity => 4,
            Metric::Unknown => 5,
        };
        out.push(tag);
        out.push(
            if self.built {
                1
            } else {
                0
            },
        );
        write_u64(&mut out, self.items.len() as u64);
        let ghost head1 = out@;
        let mut i: usize = 0;
        while i < self.items.len()
            invariant
                v == self@,
                index_wf(v),
                i <= self.items@.len(),
                out@ == head1 + ser_items_to(v.items, i as int),
            decreases self.items@.len() - i,
        {
            let it: &Item = &self.items[i];
            proof {
                assert(crate::dist::vec_ok(items_view(self.items@)[i as int].vector, v.dimension));
            }
            let ghost head2 = out@;
            let mut c: usize = 0;
            while c < it.vector.len()
                invariant
                    v == self@,
                    index_wf(v),
                    i < self.items@.len(),
                    it == &self.items@[i as int],
                    c <= it.vector@.len(),
                    forall|t: int| 0 <= t < it.vector@.len() ==> scalar_ok(#[trigger] it.vector@[t]),
                    out@ == head2 + ser_vector_to(it.vector@, c as int),
                decreases it.vector@.len() - c,
            {
                let x: i64 = it.vector[c];
                write_u64(&mut out, (x + SCALAR_MAX) as u64);
                c += 1;
            }
            let lb: &[u8] = it.label.as_str().as_bytes();
            write_u64(&mut out, lb.len() as u64);
            out.extend_from_slice(lb);
            proof {
                assert(items_view(self.items@)[i as int] == it@);
                assert(out@ =~= head2 + ser_item(v.items[i as int]));
                assert(out@ =~= head1 + ser_items_to(v.items, i as int + 1));
            }
            i += 1;
        }
        proof {
            assert(items_view(self.items@).len() == self.items@.len());
        }
        write_u64(&mut out, self.graph.len() as u64);
        let ghost head3 = out@;
        let mut x: usize = 0;
        while x < self.graph.len()
            invariant
                v == self@,
                index_wf(v),
                x <= self.graph@.len(),
                out@ == head3 + ser_graph_to(v.graph, x as int),
            decreases self.graph@.len() - x,
        {
            let ghost head4 = out@;
            write_u64(&mut out, self.graph[x].len() as u64);
            let mut l: usize = 0;
            while l < self.graph[x].len()
                invariant
                    v == self@,
                    index_wf(v),
                    x < self.graph@.len(),
                    l <= self.graph@[x as int]@.len(),
                    out@ == head4 + enc_u64(self.graph@[x as int]@.len() as u64) + ser_node_to(
                        v.graph[x as int],
                        l as int,
                    ),
                decreases self.graph@[x as int]@.len() - l,
            {
                let ghost head5 = out@;
                write_u64(&mut out, self.graph[x][l].len() as u64);
                let mut e: usize = 0;
                while e < self.graph[x][l].len()
                    invariant
                        v == self@,
                        index_wf(v),
                        x < self.graph@.len(),
                        l < self.graph@[x as int]@.len(),
                        e <= self.graph@[x as int]@[l as int]@.len(),
                        out@ == head5 + enc_u64(self.graph@[x as int]@[l as int]@.len() as u64)
                            + ser_list_to(v.graph[x as int][l as int], e as int),
                    decreases self.graph@[x as int]@[l as int]@.len() - e,
                {
                    write_u64(&mut out, self.graph[x][l][e] as u64);
                    e += 1;
                }
                proof {
                    assert(v.graph[x as int][l as int] == self.graph@[x as int]@[l as int]@);
                    assert(out@ =~= head4 + enc_u64(self.graph@[x as int]@.len() as u64)
                        + ser_node_to(v.graph[x as int], l as int + 1));
                }
                l += 1;
            }
            proof {
                assert(v.graph[x as int].len() == self.graph@[x as int]@.len());
                assert(out@ =~= head4 + ser_node(v.graph[x as int]));
                assert(out@ =~= head3 + ser_graph_to(v.graph, x as int + 1));
            }
            x += 1;
        }
        write_u64(&mut out, self.entry as u64);
        proof {
            assert(graph_view(self.graph@).len() == self.graph@.len());
            assert(out@ =~= ser_index(v));
        }
        out
    }
}

} // verus!
