//! Exact integer distance keys for every metric.
//!
//! A key is a rational `num / den` (`den > 0`): a vector `a` is at least as
//! close to the query as `b` exactly when `key(a) <= key(b)` as rationals.
//! Euclidean uses the summed squared difference, Manhattan the summed absolute
//! difference, dot product the negated inner product, and the two cosine
//! metrics the negated signed square of the inner product over the squared
//! norm, which orders exactly as the cosine of the angle does. All values fit
//! `i128` because scalars are bounded by `SCALAR_MAX` and dimensions by
//! `DIM_MAX`.
use vstd::prelude::*;
use crate::metric::Metric;
use crate::DIM_MAX;
use crate::SCALAR_MAX;

verus! {

/// A scalar squared, at its largest magnitude.
pub const SCALAR_SQ: i128 = 32768 * 32768;

/// Largest denominator a key can hold: a squared norm over a full vector.
pub const KEY_DEN_MAX: i128 = 4096 * (32768 * 32768);

/// Largest numerator magnitude a key can hold: a squared dot product.
pub const KEY_NUM_MAX: i128 = (4096 * (32768 * 32768)) * (4096 * (32768 * 32768));

/// Whether a scalar is within the representable fixed-point range.
pub open spec fn scalar_ok(x: i64) -> bool {
    -SCALAR_MAX <= x <= SCALAR_MAX
}

/// Whether a vector has the given dimension and in-range scalars.
pub open spec fn vec_ok(v: Seq<i64>, dim: nat) -> bool {
    &&& v.len() == dim
    &&& forall|i: int| 0 <= i < v.len() ==> scalar_ok(#[trigger] v[i])
}

/// Inner product of the first `n` coordinates.
pub open spec fn dot_to(a: Seq<i64>, b: Seq<i64>, n: int) -> int
    decreases n,
{
    if n <= 0 {
        0
    } else {
        dot_to(a, b, n - 1) + a[n - 1] * b[n - 1]
    }
}

/// Summed squared difference of the first `n` coordinates.
pub open spec fn euc_to(a: Seq<i64>, b: Seq<i64>, n: int) -> int
    decreases n,
{
    if n <= 0 {
        0
    } else {
        euc_to(a, b, n - 1) + (a[n - 1] - b[n - 1]) * (a[n - 1] - b[n - 1])
    }
}

/// Summed absolute difference of the first `n` coordinates.
pub open spec fn man_to(a: Seq<i64>, b: Seq<i64>, n: int) -> int
    decreases n,
{
    if n <= 0 {
        0
    } else {
        man_to(a, b, n - 1) + (if a[n - 1] - b[n - 1] < 0 {
            b[n - 1] - a[n - 1]
        } else {
            a[n - 1] - b[n - 1]
        })
    }
}

/// A distance key as a mathematical rational.
#[verifier::ext_equal]
pub ghost struct KeyModel {
    pub num: int,
    pub den: int,
}

/// Whether a key is within the ranges the exec comparison relies on.
pub open spec fn key_wf(k: KeyModel) -> bool {
    &&& 1 <= k.den <= KEY_DEN_MAX as int
    &&& -(KEY_NUM_MAX as int) <= k.num <= KEY_NUM_MAX as int
}

/// The distance key of `x` against query `q` under metric `m`; smaller keys
/// are closer. Under `Unknown` every key is zero.
pub open spec fn key_of(m: Metric, q: Seq<i64>, x: Seq<i64>) -> KeyModel {
    let n = q.len() as int;
    match m {
        Metric::Euclidean => KeyModel { num: euc_to(q, x, n), den: 1 },
        Metric::Manhattan => KeyModel { num: man_to(q, x, n), den: 1 },
        Metric::DotProduct => KeyModel { num: -dot_to(q, x, n), den: 1 },
        Metric::Angular | Metric::CosineSimilarity => {
            let d = dot_to(q, x, n);
            let nx = dot_to(x, x, n);
            if nx == 0 {
                KeyModel { num: 0, den: 1 }
            } else if d >= 0 {
                KeyModel { num: -(d * d), den: nx }
            } else {
                KeyModel { num: d * d, den: nx }
            }
        },
        Metric::Unknown => KeyModel { num: 0, den: 1 },
    }
}

/// Rational order on keys: `a` is at least as close as `b`.
pub open spec fn key_le(a: KeyModel, b: KeyModel) -> bool {
    a.num * b.den <= b.num * a.den
}

/// Bounds of the coordinate sums, and nonnegativity of the squared forms.
pub proof fn lemma_sum_bounds(a: Seq<i64>, b: Seq<i64>, n: int)
    requires
        0 <= n,
        n <= a.len(),
        n <= b.len(),
        forall|i: int| 0 <= i < n ==> scalar_ok(#[trigger] a[i]),
        forall|i: int| 0 <= i < n ==> scalar_ok(#[trigger] b[i]),
    ensures
        -(n * (SCALAR_SQ as int)) <= dot_to(a, b, n) <= n * (SCALAR_SQ as int),
        0 <= euc_to(a, b, n) <= n * 4 * (SCALAR_SQ as int),
        0 <= man_to(a, b, n) <= n * 2 * (SCALAR_MAX as int),
        0 <= dot_to(a, a, n),
    decreases n,
{
    if n > 0 {
        lemma_sum_bounds(a, b, n - 1);
        assert(-(SCALAR_SQ as int) <= a[n - 1] * b[n - 1] <= SCALAR_SQ as int) by (nonlinear_arith)
            requires
                scalar_ok(a[n - 1]),
                scalar_ok(b[n - 1]),
        ;
        assert(0 <= (a[n - 1] - b[n - 1]) * (a[n - 1] - b[n - 1]) <= 4 * (SCALAR_SQ as int))
            by (nonlinear_arith)
            requires
                scalar_ok(a[n - 1]),
                scalar_ok(b[n - 1]),
        ;
        assert(0 <= a[n - 1] * a[n - 1]) by (nonlinear_arith);
    }
}

/// Every key of in-range vectors is well formed.
pub proof fn lemma_key_of_wf(m: Metric, q: Seq<i64>, x: Seq<i64>, dim: nat)
    requires
        vec_ok(q, dim),
        vec_ok(x, dim),
        dim <= DIM_MAX,
    ensures
        key_wf(key_of(m, q, x)),
{
    let n = q.len() as int;
    lemma_sum_bounds(q, x, n);
    lemma_sum_bounds(x, x, n);
    assert((KEY_DEN_MAX as int) <= KEY_NUM_MAX as int) by (nonlinear_arith);
    assert(n * (SCALAR_SQ as int) <= KEY_DEN_MAX as int) by (nonlinear_arith)
        requires
            0 <= n <= 4096,
    ;
    assert(n * 4 * (SCALAR_SQ as int) <= KEY_NUM_MAX as int) by (nonlinear_arith)
        requires
            0 <= n <= 4096,
    ;
    assert(n * 2 * (SCALAR_MAX as int) <= KEY_NUM_MAX as int) by (nonlinear_arith)
        requires
            0 <= n <= 4096,
    ;
    let d = dot_to(q, x, n);
    assert(0 <= d * d <= KEY_NUM_MAX as int) by (nonlinear_arith)
        requires
            -(KEY_DEN_MAX as int) <= d <= KEY_DEN_MAX as int,
    ;
}

/// The key order is transitive.
pub proof fn lemma_key_le_trans(a: KeyModel, b: KeyModel, c: KeyModel)
    requires
        a.den > 0,
        b.den > 0,
        c.den > 0,
        key_le(a, b),
        key_le(b, c),
    ensures
        key_le(a, c),
{
    assert(a.num * c.den <= c.num * a.den) by (nonlinear_arith)
        requires
            a.den > 0,
            b.den > 0,
            c.den > 0,
            a.num * b.den <= b.num * a.den,
            b.num * c.den <= c.num * b.den,
    ;
}

/// A distance key held in machine integers.
#[derive(Clone, Copy)]
pub struct DistKey {
    pub num: i128,
    pub den: i128,
}

impl View for DistKey {
    type V = KeyModel;

    open spec fn view(&self) -> KeyModel {
        KeyModel { num: self.num as int, den: self.den as int }
    }
}

/// Whether `a` is at least as close as `b`, by exact cross multiplication.
pub fn key_le_exec(a: &DistKey, b: &DistKey) -> (r: bool)
    requires
        key_wf(a@),
        key_wf(b@),
    ensures
        r == key_le(a@, b@),
{
    proof {
        assert(-(KEY_NUM_MAX as int) * (KEY_DEN_MAX as int) <= (a.num as int) * (b.den as int)
            <= (KEY_NUM_MAX as int) * (KEY_DEN_MAX as int)) by (nonlinear_arith)
            requires
                -(KEY_NUM_MAX as int) <= a.num as int <= KEY_NUM_MAX as int,
                1 <= b.den as int <= KEY_DEN_MAX as int,
        ;
        assert(-(KEY_NUM_MAX as int) * (KEY_DEN_MAX as int) <= (b.num as int) * (a.den as int)
            <= (KEY_NUM_MAX as int) * (KEY_DEN_MAX as int)) by (nonlinear_arith)
            requires
                -(KEY_NUM_MAX as int) <= b.num as int <= KEY_NUM_MAX as int,
                1 <= a.den as int <= KEY_DEN_MAX as int,
        ;
    }
    a.num * b.den <= b.num * a.den
}

/// Inner product of two in-range vectors of equal dimension.
fn dot_i128(a: &Vec<i64>, b: &Vec<i64>) -> (r: i128)
    requires
        a@.len() == b@.len() <= DIM_MAX,
        forall|i: int| 0 <= i < a@.len() ==> scalar_ok(#[trigger] a@[i]),
        forall|i: int| 0 <= i < b@.len() ==> scalar_ok(#[trigger] b@[i]),
    ensures
        r as int == dot_to(a@, b@, a@.len() as int),
{
    let n: usize = a.len();
    let mut acc: i128 = 0;
    let mut i: usize = 0;
    while i < n
        invariant
            n == a@.len() == b@.len(),
            n <= DIM_MAX,
            i <= n,
            forall|j: int| 0 <= j < n ==> scalar_ok(#[trigger] a@[j]),
            forall|j: int| 0 <= j < n ==> scalar_ok(#[trigger] b@[j]),
            acc as int == dot_to(a@, b@, i as int),
            -((i as int) * (SCALAR_SQ as int)) <= acc as int <= (i as int) * (SCALAR_SQ as int),
        decreases n - i,
    {
        proof {
            assert(-(SCALAR_SQ as int) <= (a@[i as int] as int) * (b@[i as int] as int)
                <= SCALAR_SQ as int) by (nonlinear_arith)
                requires
                    scalar_ok(a@[i as int]),
                    scalar_ok(b@[i as int]),
            ;
            assert((i as int) * (SCALAR_SQ as int) + SCALAR_SQ as int
                == (i as int + 1) * (SCALAR_SQ as int)) by (nonlinear_arith);
        }
        let p: i128 = (a[i] as i128) * (b[i] as i128);
        acc = acc + p;
        i += 1;
    }
    acc
}

/// Summed squared difference of two in-range vectors of equal dimension.
fn euc_i128(a: &Vec<i64>, b: &Vec<i64>) -> (r: i128)
    requires
        a@.len() == b@.len() <= DIM_MAX,
        forall|i: int| 0 <= i < a@.len() ==> scalar_ok(#[trigger] a@[i]),
        forall|i: int| 0 <= i < b@.len() ==> scalar_ok(#[trigger] b@[i]),
    ensures
        r as int == euc_to(a@, b@, a@.len() as int),
{
    let n: usize = a.len();
    let mut acc: i128 = 0;
    let mut i: usize = 0;
    while i < n
        invariant
            n == a@.len() == b@.len(),
            n <= DIM_MAX,
            i <= n,
            forall|j: int| 0 <= j < n ==> scalar_ok(#[trigger] a@[j]),
            forall|j: int| 0 <= j < n ==> scalar_ok(#[trigger] b@[j]),
            acc as int == euc_to(a@, b@, i as int),
            0 <= acc as int <= (i as int) * 4 * (SCALAR_SQ as int),
        decreases n - i,
    {
        proof {
            assert(0 <= ((a@[i as int] as int) - (b@[i as int] as int)) * ((a@[i as int] as int)
                - (b@[i as int] as int)) <= 4 * (SCALAR_SQ as int)) by (nonlinear_arith)
                requires
                    scalar_ok(a@[i as int]),
                    scalar_ok(b@[i as int]),
            ;
            assert((i as int) * 4 * (SCALAR_SQ as int) + 4 * (SCALAR_SQ as int)
                == (i as int + 1) * 4 * (SCALAR_SQ as int)) by (nonlinear_arith);
        }
        let d: i128 = (a[i] as i128) - (b[i] as i128);
        let p: i128 = d * d;
        acc = acc + p;
        i += 1;
    }
    acc
}

/// Summed absolute difference of two in-range vectors of equal dimension.
fn man_i128(a: &Vec<i64>, b: &Vec<i64>) -> (r: i128)
    requires
        a@.len() == b@.len() <= DIM_MAX,
        forall|i: int| 0 <= i < a@.len() ==> scalar_ok(#[trigger] a@[i]),
        forall|i: int| 0 <= i < b@.len() ==> scalar_ok(#[trigger] b@[i]),
    ensures
        r as int == man_to(a@, b@, a@.len() as int),
{
    let n: usize = a.len();
    let mut acc: i128 = 0;
    let mut i: usize = 0;
    while i < n
        invariant
            n == a@.len() == b@.len(),
            n <= DIM_MAX,
            i <= n,
            forall|j: int| 0 <= j < n ==> scalar_ok(#[trigger] a@[j]),
            forall|j: int| 0 <= j < n ==> scalar_ok(#[trigger] b@[j]),
            acc as int == man_to(a@, b@, i as int),
            0 <= acc as int <= (i as int) * 2 * (SCALAR_MAX as int),
        decreases n - i,
    {
        let d: i128 = (a[i] as i128) - (b[i] as i128);
        let p: i128 = if d < 0 {
            -d
        } else {
            d
        };
        proof {
            assert((i as int) * 2 * (SCALAR_MAX as int) + 2 * (SCALAR_MAX as int)
                == (i as int + 1) * 2 * (SCALAR_MAX as int)) by (nonlinear_arith);
        }
        acc = acc + p;
        i += 1;
    }
    acc
}

/// The distance key of `x` against query `q` under metric `m`.
pub fn dist_key(m: Metric, q: &Vec<i64>, x: &Vec<i64>) -> (k: DistKey)
    requires
        vec_ok(q@, q@.len()),
        vec_ok(x@, q@.len()),
        q@.len() <= DIM_MAX,
    ensures
        k@ == key_of(m, q@, x@),
        key_wf(k@),
{
    proof {
        lemma_key_of_wf(m, q@, x@, q@.len());
        lemma_sum_bounds(q@, x@, q@.len() as int);
        lemma_sum_bounds(x@, x@, q@.len() as int);
    }
    match m {
        Metric::Euclidean => DistKey { num: euc_i128(q, x), den: 1 },
        Metric::Manhattan => DistKey { num: man_i128(q, x), den: 1 },
        Metric::DotProduct => DistKey { num: -dot_i128(q, x), den: 1 },
        Metric::Angular | Metric::CosineSimilarity => {
            let d: i128 = dot_i128(q, x);
            let nx: i128 = dot_i128(x, x);
            proof {
                assert(d as int * (d as int) <= KEY_NUM_MAX as int) by (nonlinear_arith)
                    requires
                        -(KEY_DEN_MAX as int) <= d as int <= KEY_DEN_MAX as int,
                ;
                assert(0 <= d as int * (d as int)) by (nonlinear_arith);
            }
            if nx == 0 {
                DistKey { num: 0, den: 1 }
            } else if d >= 0 {
                DistKey { num: -(d * d), den: nx }
            } else {
                DistKey { num: d * d, den: nx }
            }
        },
        Metric::Unknown => DistKey { num: 0, den: 1 },
    }
}

} // verus!
