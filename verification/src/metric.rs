//! The distance metrics an index can be built under, and the mapping from
//! their textual names.
use vstd::prelude::*;
use vstd::string::StringSliceAdditionalSpecFns;

verus! {

broadcast use vstd::utf8::encode_utf8_decode_utf8;

/// The metric a graph is built and searched under.
///
/// `Angular` and `CosineSimilarity` both order candidates by exact comparison
/// of the cosine of the angle between vectors (larger cosine means closer);
/// the two names select the same comparator. `DotProduct` treats a larger raw
/// inner product as closer; it is not a true metric. `Unknown` has no distance
/// guarantee: it compares all vectors as equally close, so build and search
/// under it are well defined but the ranking is arbitrary.
#[derive(Clone, Copy, PartialEq, Eq, Structural, Debug)]
pub enum Metric {
    Angular,
    Manhattan,
    DotProduct,
    Euclidean,
    CosineSimilarity,
    Unknown,
}

/// The metric named by a string, `Unknown` for any unrecognised name.
pub open spec fn metric_of(s: Seq<char>) -> Metric {
    if s == "angular"@ {
        Metric::Angular
    } else if s == "manhattan"@ {
        Metric::Manhattan
    } else if s == "dot_product"@ {
        Metric::DotProduct
    } else if s == "euclidean"@ {
        Metric::Euclidean
    } else if s == "cosine_similarity"@ {
        Metric::CosineSimilarity
    } else {
        Metric::Unknown
    }
}

/// Whether two strings hold the same characters.
pub fn str_eq(a: &str, b: &str) -> (r: bool)
    ensures
        r == (a@ == b@),
{
    let ba: &[u8] = a.as_bytes();
    let bb: &[u8] = b.as_bytes();
    if ba.len() != bb.len() {
        proof {
            if a@ == b@ {
                assert(a.spec_bytes() =~= b.spec_bytes());
            }
        }
        return false;
    }
    let n: usize = ba.len();
    let mut i: usize = 0;
    while i < n
        invariant
            n == ba@.len() == bb@.len(),
            i <= n,
            ba@ == a.spec_bytes(),
            bb@ == b.spec_bytes(),
            forall|j: int| 0 <= j < i ==> ba@[j] == bb@[j],
        decreases n - i,
    {
        if ba[i] != bb[i] {
            proof {
                if a@ == b@ {
                    assert(a.spec_bytes() =~= b.spec_bytes());
                }
            }
            return false;
        }
        i += 1;
    }
    proof {
        assert(a.spec_bytes() =~= b.spec_bytes());
        assert(a@ == vstd::utf8::decode_utf8(vstd::utf8::encode_utf8(a@)));
        assert(b@ == vstd::utf8::decode_utf8(vstd::utf8::encode_utf8(b@)));
    }
    true
}

/// Maps a metric name to its `Metric`, any unrecognised name to `Unknown`.
pub fn metrics_transform(s: &str) -> (r: Metric)
    ensures
        r == metric_of(s@),
{
    if str_eq(s, "angular") {
        Metric::Angular
    } else if str_eq(s, "manhattan") {
        Metric::Manhattan
    } else if str_eq(s, "dot_product") {
        Metric::DotProduct
    } else if str_eq(s, "euclidean") {
        Metric::Euclidean
    } else if str_eq(s, "cosine_similarity") {
        Metric::CosineSimilarity
    } else {
        Metric::Unknown
    }
}

} // verus!
