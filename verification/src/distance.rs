//! The registry of named, stateless distance measures.
//!
//! Every measure is a pure function of two equal-length vectors of bounded
//! integer components. Fractional measures (cosine, Jaccard, L2) are
//! represented as exact fixed-point integers: a value `d` stands for the
//! real number `d / SCALE`. Measures that are natively similarities (the
//! dot-product family) return the negated similarity, so that for every
//! measure a smaller value means more similar.

use vstd::prelude::*;
use vstd::string::StringSliceAdditionalSpecFns;

use crate::dataset::DatapointPtr;
use crate::error::ErrorKind;
use crate::error::ScannError;
use crate::error::invalid_argument_error;

verus! {

/// The largest dimensionality any measure accepts.
pub const MAX_DIM: usize = 1048576;

/// The component bound for the measures whose intermediate values stay
/// small (sums of products of pairs): 2^50.
pub const MAX_WIDE: i64 = 1125899906842624;

/// The component bound for the measures that square sums of products
/// (cosine, limited inner product) or scale squared sums (L2): 2^15.
pub const MAX_COMPONENT: i64 = 32768;

/// One fixed-point unit: a distance value `d` stands for `d / SCALE`.
pub const SCALE: i64 = 1048576;

/// Components no larger than `bound` in magnitude, and a bounded length.
pub open spec fn bounded_vector(v: Seq<i64>, bound: int) -> bool {
    v.len() <= MAX_DIM && forall|i: int| 0 <= i < v.len() ==> -bound <= #[trigger] v[i] <= bound
}

/// The loose bound: enough for every sum-of-pairwise-products measure.
pub open spec fn wide_vector(v: Seq<i64>) -> bool {
    bounded_vector(v, MAX_WIDE as int)
}

/// The tight bound: needed by cosine, limited inner product, and L2.
pub open spec fn narrow_vector(v: Seq<i64>) -> bool {
    bounded_vector(v, MAX_COMPONENT as int)
}

/// The inner product of two equal-length vectors.
pub open spec fn spec_dot(a: Seq<i64>, b: Seq<i64>) -> int
    decreases a.len(),
{
    if a.len() == 0 || b.len() == 0 {
        0
    } else {
        spec_dot(a.drop_last(), b.drop_last()) + a.last() * b.last()
    }
}

/// The sum of absolute component differences.
pub open spec fn spec_l1(a: Seq<i64>, b: Seq<i64>) -> int
    decreases a.len(),
{
    if a.len() == 0 || b.len() == 0 {
        0
    } else {
        spec_l1(a.drop_last(), b.drop_last()) + vstd::math::abs(a.last() - b.last())
    }
}

/// The sum of squared component differences.
pub open spec fn spec_squared_l2(a: Seq<i64>, b: Seq<i64>) -> int
    decreases a.len(),
{
    if a.len() == 0 || b.len() == 0 {
        0
    } else {
        spec_squared_l2(a.drop_last(), b.drop_last()) + (a.last() - b.last()) * (a.last()
            - b.last())
    }
}

/// The number of positions where the components differ.
pub open spec fn spec_hamming(a: Seq<i64>, b: Seq<i64>) -> int
    decreases a.len(),
{
    if a.len() == 0 || b.len() == 0 {
        0
    } else {
        spec_hamming(a.drop_last(), b.drop_last()) + if a.last() == b.last() {
            0int
        } else {
            1int
        }
    }
}

/// The number of positions where exactly one component is nonzero.
pub open spec fn spec_binary_hamming(a: Seq<i64>, b: Seq<i64>) -> int
    decreases a.len(),
{
    if a.len() == 0 || b.len() == 0 {
        0
    } else {
        spec_binary_hamming(a.drop_last(), b.drop_last()) + if (a.last() != 0) == (b.last() != 0) {
            0int
        } else {
            1int
        }
    }
}

/// The number of positions where both components are nonzero.
pub open spec fn spec_intersect(a: Seq<i64>, b: Seq<i64>) -> int
    decreases a.len(),
{
    if a.len() == 0 || b.len() == 0 {
        0
    } else {
        spec_intersect(a.drop_last(), b.drop_last()) + if a.last() != 0 && b.last() != 0 {
            1int
        } else {
            0int
        }
    }
}

/// The number of positions where at least one component is nonzero.
pub open spec fn spec_union_count(a: Seq<i64>, b: Seq<i64>) -> int
    decreases a.len(),
{
    if a.len() == 0 || b.len() == 0 {
        0
    } else {
        spec_union_count(a.drop_last(), b.drop_last()) + if a.last() != 0 || b.last() != 0 {
            1int
        } else {
            0int
        }
    }
}

/// The sum of pointwise minima.
pub open spec fn spec_sum_min(a: Seq<i64>, b: Seq<i64>) -> int
    decreases a.len(),
{
    if a.len() == 0 || b.len() == 0 {
        0
    } else {
        spec_sum_min(a.drop_last(), b.drop_last()) + vstd::math::min(
            a.last() as int,
            b.last() as int,
        )
    }
}

/// The sum of pointwise maxima.
pub open spec fn spec_sum_max(a: Seq<i64>, b: Seq<i64>) -> int
    decreases a.len(),
{
    if a.len() == 0 || b.len() == 0 {
        0
    } else {
        spec_sum_max(a.drop_last(), b.drop_last()) + vstd::math::max(
            a.last() as int,
            b.last() as int,
        )
    }
}

/// Extends each sum spec by one position at the end of a prefix.
proof fn lemma_prefix_extend(a: Seq<i64>, b: Seq<i64>, i: int)
    requires
        a.len() == b.len(),
        0 <= i < a.len(),
    ensures
        spec_dot(a.subrange(0, i + 1), b.subrange(0, i + 1)) == spec_dot(
            a.subrange(0, i),
            b.subrange(0, i),
        ) + a[i] * b[i],
        spec_l1(a.subrange(0, i + 1), b.subrange(0, i + 1)) == spec_l1(
            a.subrange(0, i),
            b.subrange(0, i),
        ) + vstd::math::abs(a[i] - b[i]),
        spec_squared_l2(a.subrange(0, i + 1), b.subrange(0, i + 1)) == spec_squared_l2(
            a.subrange(0, i),
            b.subrange(0, i),
        ) + (a[i] - b[i]) * (a[i] - b[i]),
        spec_hamming(a.subrange(0, i + 1), b.subrange(0, i + 1)) == spec_hamming(
            a.subrange(0, i),
            b.subrange(0, i),
        ) + if a[i] == b[i] {
            0int
        } else {
            1int
        },
        spec_binary_hamming(a.subrange(0, i + 1), b.subrange(0, i + 1)) == spec_binary_hamming(
            a.subrange(0, i),
            b.subrange(0, i),
        ) + if (a[i] != 0) == (b[i] != 0) {
            0int
        } else {
            1int
        },
        spec_intersect(a.subrange(0, i + 1), b.subrange(0, i + 1)) == spec_intersect(
            a.subrange(0, i),
            b.subrange(0, i),
        ) + if a[i] != 0 && b[i] != 0 {
            1int
        } else {
            0int
        },
        spec_union_count(a.subrange(0, i + 1), b.subrange(0, i + 1)) == spec_union_count(
            a.subrange(0, i),
            b.subrange(0, i),
        ) + if a[i] != 0 || b[i] != 0 {
            1int
        } else {
            0int
        },
        spec_sum_min(a.subrange(0, i + 1), b.subrange(0, i + 1)) == spec_sum_min(
            a.subrange(0, i),
            b.subrange(0, i),
        ) + vstd::math::min(a[i] as int, b[i] as int),
        spec_sum_max(a.subrange(0, i + 1), b.subrange(0, i + 1)) == spec_sum_max(
            a.subrange(0, i),
            b.subrange(0, i),
        ) + vstd::math::max(a[i] as int, b[i] as int),
{
    let a1 = a.subrange(0, i + 1);
    let b1 = b.subrange(0, i + 1);
    assert(a1.drop_last() =~= a.subrange(0, i));
    assert(b1.drop_last() =~= b.subrange(0, i));
    assert(a1.last() == a[i]);
    assert(b1.last() == b[i]);
}

/// A whole sequence is its own full prefix.
proof fn lemma_full_prefix(a: Seq<i64>, b: Seq<i64>)
    requires
        a.len() == b.len(),
    ensures
        a.subrange(0, a.len() as int) =~= a,
        b.subrange(0, b.len() as int) =~= b,
{
}

/// The inner product is symmetric in its arguments.
pub proof fn lemma_dot_symmetric(a: Seq<i64>, b: Seq<i64>)
    ensures
        spec_dot(a, b) == spec_dot(b, a),
    decreases a.len(),
{
    if a.len() > 0 && b.len() > 0 {
        lemma_dot_symmetric(a.drop_last(), b.drop_last());
    }
}

/// The inner product of a vector with itself is non-negative, and zero
/// only when every component is zero.
pub proof fn lemma_dot_self_nonneg(a: Seq<i64>)
    ensures
        spec_dot(a, a) >= 0,
        spec_dot(a, a) == 0 ==> forall|i: int| 0 <= i < a.len() ==> a[i] == 0,
    decreases a.len(),
{
    if a.len() > 0 {
        lemma_dot_self_nonneg(a.drop_last());
        assert(a.last() * a.last() >= 0) by (nonlinear_arith);
        if spec_dot(a, a) == 0 {
            assert(a.last() * a.last() == 0);
            assert(a.last() == 0) by (nonlinear_arith)
                requires
                    a.last() * a.last() == 0,
            ;
            assert(forall|i: int| 0 <= i < a.len() - 1 ==> a[i] == a.drop_last()[i]);
        }
    }
}

/// Every distance of a vector from itself is zero for the L1, squared-L2,
/// and Hamming families.
pub proof fn lemma_self_distance_zero(a: Seq<i64>)
    ensures
        spec_l1(a, a) == 0,
        spec_squared_l2(a, a) == 0,
        spec_hamming(a, a) == 0,
        spec_binary_hamming(a, a) == 0,
    decreases a.len(),
{
    if a.len() > 0 {
        lemma_self_distance_zero(a.drop_last());
    }
}

/// The squared L2 distance is never negative.
pub proof fn lemma_squared_l2_nonneg(a: Seq<i64>, b: Seq<i64>)
    ensures
        spec_squared_l2(a, b) >= 0,
    decreases a.len(),
{
    if a.len() > 0 && b.len() > 0 {
        lemma_squared_l2_nonneg(a.drop_last(), b.drop_last());
        assert((a.last() - b.last()) * (a.last() - b.last()) >= 0) by (nonlinear_arith);
    }
}

/// The inner product of two equal-length vectors, exact in 128 bits.
pub fn dot_product(a: &DatapointPtr<i64>, b: &DatapointPtr<i64>) -> (r: i128)
    requires
        a@.len() == b@.len(),
        wide_vector(a@),
        wide_vector(b@),
    ensures
        r == spec_dot(a@, b@),
{
    sum_products(a.values(), b.values())
}

/// The inner product over slices; the loop behind `dot_product`.
pub fn sum_products(a: &[i64], b: &[i64]) -> (r: i128)
    requires
        a@.len() == b@.len(),
        wide_vector(a@),
        wide_vector(b@),
    ensures
        r == spec_dot(a@, b@),
{
    let n = a.len();
    let mut i: usize = 0;
    let mut acc: i128 = 0;
    proof {
        assert(a@.subrange(0, 0) =~= Seq::<i64>::empty());
        assert(b@.subrange(0, 0) =~= Seq::<i64>::empty());
    }
    while i < n
        invariant
            i <= n,
            n == a@.len() && n == b@.len(),
            wide_vector(a@),
            wide_vector(b@),
            acc == spec_dot(a@.subrange(0, i as int), b@.subrange(0, i as int)),
            -(i as int) * (MAX_WIDE as int) * (MAX_WIDE as int) <= acc <= (i as int) * (
            MAX_WIDE as int) * (MAX_WIDE as int),
        decreases n - i,
    {
        proof {
            lemma_prefix_extend(a@, b@, i as int);
            assert(-(MAX_WIDE as int) * (MAX_WIDE as int) <= (a@[i as int] as int) * (
            b@[i as int] as int) <= (MAX_WIDE as int) * (MAX_WIDE as int)) by (nonlinear_arith)
                requires
                    -(MAX_WIDE as int) <= a@[i as int] <= (MAX_WIDE as int),
                    -(MAX_WIDE as int) <= b@[i as int] <= (MAX_WIDE as int),
            ;
            assert((i as int + 1) * (MAX_WIDE as int) * (MAX_WIDE as int) == (i as int) * (
            MAX_WIDE as int) * (MAX_WIDE as int) + (MAX_WIDE as int) * (MAX_WIDE as int))
                by (nonlinear_arith);
        }
        let term: i128 = (a[i] as i128) * (b[i] as i128);
        acc = acc + term;
        i += 1;
    }
    proof {
        lemma_full_prefix(a@, b@);
    }
    acc
}

/// Bounds on every sum spec, from a shared component bound.
pub proof fn lemma_sums_bounded(a: Seq<i64>, b: Seq<i64>, bound: int)
    requires
        a.len() == b.len(),
        bounded_vector(a, bound),
        bounded_vector(b, bound),
        bound >= 0,
    ensures
        -(a.len() * bound * bound) <= spec_dot(a, b) <= a.len() * bound * bound,
        0 <= spec_l1(a, b) <= a.len() * 2 * bound,
        0 <= spec_squared_l2(a, b) <= a.len() * 4 * bound * bound,
        0 <= spec_hamming(a, b) <= a.len(),
        0 <= spec_binary_hamming(a, b) <= a.len(),
        0 <= spec_intersect(a, b) <= a.len(),
        0 <= spec_union_count(a, b) <= a.len(),
        spec_intersect(a, b) <= spec_union_count(a, b),
        -(a.len() * bound) <= spec_sum_min(a, b) <= a.len() * bound,
        -(a.len() * bound) <= spec_sum_max(a, b) <= a.len() * bound,
        spec_sum_min(a, b) <= spec_sum_max(a, b),
    decreases a.len(),
{
    if a.len() > 0 {
        let a1 = a.drop_last();
        let b1 = b.drop_last();
        assert(bounded_vector(a1, bound) && bounded_vector(b1, bound)) by {
            assert(forall|i: int| 0 <= i < a1.len() ==> a1[i] == a[i] && b1[i] == b[i]);
        }
        lemma_sums_bounded(a1, b1, bound);
        let x = a.last() as int;
        let y = b.last() as int;
        assert(-(bound * bound) <= x * y <= bound * bound) by (nonlinear_arith)
            requires
                -bound <= x <= bound,
                -bound <= y <= bound,
                bound >= 0,
        ;
        assert(0 <= (x - y) * (x - y) <= 4 * bound * bound) by (nonlinear_arith)
            requires
                -bound <= x <= bound,
                -bound <= y <= bound,
                bound >= 0,
        ;
        let n1 = a1.len() as int;
        assert((n1 + 1) * bound == n1 * bound + bound) by (nonlinear_arith);
        assert((n1 + 1) * bound * bound == n1 * bound * bound + bound * bound) by (nonlinear_arith);
        assert((n1 + 1) * 2 * bound == n1 * 2 * bound + 2 * bound) by (nonlinear_arith);
        assert((n1 + 1) * 4 * bound * bound == n1 * 4 * bound * bound + 4 * bound * bound)
            by (nonlinear_arith);
    }
}

/// The sum of absolute component differences over slices.
pub fn sum_abs_diffs(a: &[i64], b: &[i64]) -> (r: i128)
    requires
        a@.len() == b@.len(),
        wide_vector(a@),
        wide_vector(b@),
    ensures
        r == spec_l1(a@, b@),
{
    let n = a.len();
    let mut i: usize = 0;
    let mut acc: i128 = 0;
    proof {
        assert(a@.subrange(0, 0) =~= Seq::<i64>::empty());
        assert(b@.subrange(0, 0) =~= Seq::<i64>::empty());
    }
    while i < n
        invariant
            i <= n,
            n == a@.len() && n == b@.len(),
            wide_vector(a@),
            wide_vector(b@),
            acc == spec_l1(a@.subrange(0, i as int), b@.subrange(0, i as int)),
            0 <= acc <= (i as int) * 2 * (MAX_WIDE as int),
        decreases n - i,
    {
        proof {
            lemma_prefix_extend(a@, b@, i as int);
        }
        let d: i128 = (a[i] as i128) - (b[i] as i128);
        let term: i128 = if d < 0 {
            -d
        } else {
            d
        };
        acc = acc + term;
        i += 1;
    }
    proof {
        lemma_full_prefix(a@, b@);
    }
    acc
}

/// The sum of squared component differences over slices.
pub fn sum_squared_diffs(a: &[i64], b: &[i64]) -> (r: i128)
    requires
        a@.len() == b@.len(),
        wide_vector(a@),
        wide_vector(b@),
    ensures
        r == spec_squared_l2(a@, b@),
{
    let n = a.len();
    let mut i: usize = 0;
    let mut acc: i128 = 0;
    proof {
        assert(a@.subrange(0, 0) =~= Seq::<i64>::empty());
        assert(b@.subrange(0, 0) =~= Seq::<i64>::empty());
    }
    while i < n
        invariant
            i <= n,
            n == a@.len() && n == b@.len(),
            wide_vector(a@),
            wide_vector(b@),
            acc == spec_squared_l2(a@.subrange(0, i as int), b@.subrange(0, i as int)),
            0 <= acc <= (i as int) * 4 * (MAX_WIDE as int) * (MAX_WIDE as int),
        decreases n - i,
    {
        proof {
            lemma_prefix_extend(a@, b@, i as int);
            let x = a@[i as int] as int;
            let y = b@[i as int] as int;
            assert(0 <= (x - y) * (x - y) <= 4 * (MAX_WIDE as int) * (MAX_WIDE as int))
                by (nonlinear_arith)
                requires
                    -(MAX_WIDE as int) <= x <= (MAX_WIDE as int),
                    -(MAX_WIDE as int) <= y <= (MAX_WIDE as int),
            ;
        }
        let d: i128 = (a[i] as i128) - (b[i] as i128);
        let term: i128 = d * d;
        acc = acc + term;
        i += 1;
    }
    proof {
        lemma_full_prefix(a@, b@);
    }
    acc
}

/// Counts, in one pass: positions that differ, positions whose nonzero
/// patterns differ, positions where both are nonzero, and positions where
/// at least one is nonzero.
pub fn count_positions(a: &[i64], b: &[i64]) -> (r: (i128, i128, i128, i128))
    requires
        a@.len() == b@.len(),
        a@.len() <= MAX_DIM,
    ensures
        r.0 == spec_hamming(a@, b@),
        r.1 == spec_binary_hamming(a@, b@),
        r.2 == spec_intersect(a@, b@),
        r.3 == spec_union_count(a@, b@),
        0 <= r.0 <= a@.len() && 0 <= r.1 <= a@.len(),
        0 <= r.2 <= a@.len() && 0 <= r.3 <= a@.len(),
        r.2 <= r.3,
{
    let n = a.len();
    let mut i: usize = 0;
    let mut ham: i128 = 0;
    let mut bham: i128 = 0;
    let mut inter: i128 = 0;
    let mut uni: i128 = 0;
    proof {
        assert(a@.subrange(0, 0) =~= Seq::<i64>::empty());
        assert(b@.subrange(0, 0) =~= Seq::<i64>::empty());
    }
    while i < n
        invariant
            i <= n,
            n == a@.len() && n == b@.len(),
            n <= MAX_DIM,
            ham == spec_hamming(a@.subrange(0, i as int), b@.subrange(0, i as int)),
            bham == spec_binary_hamming(a@.subrange(0, i as int), b@.subrange(0, i as int)),
            inter == spec_intersect(a@.subrange(0, i as int), b@.subrange(0, i as int)),
            uni == spec_union_count(a@.subrange(0, i as int), b@.subrange(0, i as int)),
            0 <= ham <= i && 0 <= bham <= i && 0 <= inter <= i && 0 <= uni <= i,
            inter <= uni,
        decreases n - i,
    {
        proof {
            lemma_prefix_extend(a@, b@, i as int);
        }
        let x = a[i];
        let y = b[i];
        if x != y {
            ham = ham + 1;
        }
        if (x != 0) != (y != 0) {
            bham = bham + 1;
        }
        if x != 0 && y != 0 {
            inter = inter + 1;
        }
        if x != 0 || y != 0 {
            uni = uni + 1;
        }
        i += 1;
    }
    proof {
        lemma_full_prefix(a@, b@);
    }
    (ham, bham, inter, uni)
}

/// The sums of pointwise minima and maxima, in one pass.
pub fn sum_min_max(a: &[i64], b: &[i64]) -> (r: (i128, i128))
    requires
        a@.len() == b@.len(),
        wide_vector(a@),
        wide_vector(b@),
    ensures
        r.0 == spec_sum_min(a@, b@),
        r.1 == spec_sum_max(a@, b@),
{
    let n = a.len();
    let mut i: usize = 0;
    let mut smin: i128 = 0;
    let mut smax: i128 = 0;
    proof {
        assert(a@.subrange(0, 0) =~= Seq::<i64>::empty());
        assert(b@.subrange(0, 0) =~= Seq::<i64>::empty());
    }
    while i < n
        invariant
            i <= n,
            n == a@.len() && n == b@.len(),
            wide_vector(a@),
            wide_vector(b@),
            smin == spec_sum_min(a@.subrange(0, i as int), b@.subrange(0, i as int)),
            smax == spec_sum_max(a@.subrange(0, i as int), b@.subrange(0, i as int)),
            -((i as int) * (MAX_WIDE as int)) <= smin <= (i as int) * (MAX_WIDE as int),
            -((i as int) * (MAX_WIDE as int)) <= smax <= (i as int) * (MAX_WIDE as int),
        decreases n - i,
    {
        proof {
            lemma_prefix_extend(a@, b@, i as int);
        }
        let x = a[i];
        let y = b[i];
        let lo: i128 = if x < y {
            x as i128
        } else {
            y as i128
        };
        let hi: i128 = if x < y {
            y as i128
        } else {
            x as i128
        };
        smin = smin + lo;
        smax = smax + hi;
        i += 1;
    }
    proof {
        lemma_full_prefix(a@, b@);
    }
    (smin, smax)
}

/// `r` is the integer square root of `x`: the largest integer whose
/// square does not exceed `x`.
pub open spec fn is_floor_sqrt(x: int, r: int) -> bool {
    0 <= r && r * r <= x && x < (r + 1) * (r + 1)
}

/// The integer square root of a non-negative integer.
pub open spec fn floor_sqrt(x: int) -> int {
    choose|r: int| is_floor_sqrt(x, r)
}

/// Constructs the integer square root, proving it exists.
proof fn sqrt_exists(x: int) -> (r: int)
    requires
        x >= 0,
    ensures
        is_floor_sqrt(x, r),
    decreases x,
{
    if x == 0 {
        assert(is_floor_sqrt(0, 0));
        0
    } else {
        let p = sqrt_exists(x - 1);
        if (p + 1) * (p + 1) <= x {
            assert(x < (p + 2) * (p + 2)) by (nonlinear_arith)
                requires
                    x - 1 < (p + 1) * (p + 1),
                    p >= 0,
            ;
            assert(is_floor_sqrt(x, p + 1));
            p + 1
        } else {
            assert(p * p <= x);
            assert(is_floor_sqrt(x, p));
            p
        }
    }
}

/// `floor_sqrt` satisfies its characterization on non-negative inputs.
pub proof fn lemma_floor_sqrt(x: int)
    requires
        x >= 0,
    ensures
        is_floor_sqrt(x, floor_sqrt(x)),
{
    let r = sqrt_exists(x);
    assert(is_floor_sqrt(x, r));
}

/// The integer square root is unique.
pub proof fn lemma_floor_sqrt_unique(x: int, r: int)
    requires
        is_floor_sqrt(x, r),
    ensures
        r == floor_sqrt(x),
{
    assert(x >= 0) by (nonlinear_arith)
        requires
            0 <= r && r * r <= x,
    ;
    lemma_floor_sqrt(x);
    let s = floor_sqrt(x);
    if r < s {
        assert(false) by (nonlinear_arith)
            requires
                0 <= r < s,
                x < (r + 1) * (r + 1),
                s * s <= x,
        ;
    }
    if s < r {
        assert(false) by (nonlinear_arith)
            requires
                0 <= s < r,
                x < (s + 1) * (s + 1),
                r * r <= x,
        ;
    }
}

/// The integer square root of a perfect square is its root.
pub proof fn lemma_floor_sqrt_square(n: int)
    requires
        n >= 0,
    ensures
        floor_sqrt(n * n) == n,
{
    assert(is_floor_sqrt(n * n, n)) by (nonlinear_arith)
        requires
            n >= 0,
    ;
    lemma_floor_sqrt_unique(n * n, n);
}

/// The largest argument `isqrt` accepts: 2^126.
pub const MAX_SQRT_ARG: i128 = 85070591730234615865843651857942052864;

/// The integer square root, by binary search.
pub fn isqrt(x: i128) -> (r: i128)
    requires
        0 <= x <= MAX_SQRT_ARG,
    ensures
        r == floor_sqrt(x as int),
        is_floor_sqrt(x as int, r as int),
        0 <= r,
{
    let mut lo: i128 = 0;
    let mut hi: i128 = 9223372036854775809;  // 2^63 + 1
    proof {
        assert((9223372036854775809int) * (9223372036854775809int)
            > 85070591730234615865843651857942052864int) by (nonlinear_arith);
    }
    while lo + 1 < hi
        invariant
            0 <= lo < hi <= 9223372036854775809,
            (lo as int) * (lo as int) <= x as int,
            (x as int) < (hi as int) * (hi as int),
        decreases hi - lo,
    {
        let mid: i128 = lo + (((hi - lo) as u128 / 2) as i128);
        proof {
            assert(lo < mid < hi);
            assert((mid as int) * (mid as int) <= (9223372036854775808int) * (
            9223372036854775808int)) by (nonlinear_arith)
                requires
                    0 <= mid as int <= 9223372036854775808int,
            ;
        }
        if mid * mid <= x {
            lo = mid;
        } else {
            hi = mid;
        }
    }
    proof {
        assert(is_floor_sqrt(x as int, lo as int));
        lemma_floor_sqrt_unique(x as int, lo as int);
    }
    lo
}

/// Floor division of a non-negative value by a positive one.
pub fn div_floor_nonneg(x: i128, y: i128) -> (r: i128)
    requires
        x >= 0,
        y >= 1,
    ensures
        r == (x as int) / (y as int),
        0 <= r <= x,
{
    let q: u128 = (x as u128) / (y as u128);
    proof {
        vstd::arithmetic::div_mod::lemma_div_pos_is_pos(x as int, y as int);
        vstd::arithmetic::div_mod::lemma_div_nonincreasing(x as int, y as int);
    }
    q as i128
}

/// The closed set of distance measures the registry can hand out.
#[derive(Clone, Copy, PartialEq, Eq, Structural, Debug)]
pub enum DistanceMeasure {
    DotProductDistance,
    BinaryDotProductDistance,
    AbsDotProductDistance,
    L2Distance,
    SquaredL2Distance,
    NegatedSquaredL2Distance,
    L1Distance,
    CosineDistance,
    BinaryCosineDistance,
    GeneralJaccardDistance,
    BinaryJaccardDistance,
    LimitedInnerProductDistance,
    GeneralHammingDistance,
    BinaryHammingDistance,
    NonzeroIntersectDistance,
}

/// The negated inner product: ascending distance is descending dot
/// product.
pub open spec fn spec_dot_product_distance(a: Seq<i64>, b: Seq<i64>) -> int {
    -spec_dot(a, b)
}

/// The negated absolute inner product.
pub open spec fn spec_abs_dot_product_distance(a: Seq<i64>, b: Seq<i64>) -> int {
    -vstd::math::abs(spec_dot(a, b))
}

/// The negated count of positions where both vectors are nonzero: the
/// inner product of the binarized vectors.
pub open spec fn spec_binary_dot_product_distance(a: Seq<i64>, b: Seq<i64>) -> int {
    -spec_intersect(a, b)
}

/// The L2 distance in fixed point: the integer square root of the squared
/// distance times `SCALE` squared, so the value stands for `SCALE` times
/// the real L2 distance, rounded down.
pub open spec fn spec_l2_distance_scaled(a: Seq<i64>, b: Seq<i64>) -> int {
    floor_sqrt(spec_squared_l2(a, b) * (SCALE as int) * (SCALE as int))
}

/// The cosine distance in fixed point: `SCALE` stands for a distance of
/// one. The similarity is the inner product divided by the integer square
/// root of the product of the squared norms, clamped to `[-1, 1]`; a zero
/// norm gives the maximum distance of one rather than dividing by zero.
pub open spec fn spec_cosine_distance_scaled(a: Seq<i64>, b: Seq<i64>) -> int {
    let dot = spec_dot(a, b);
    let aa = spec_dot(a, a);
    let bb = spec_dot(b, b);
    if aa == 0 || bb == 0 {
        SCALE as int
    } else {
        let den = floor_sqrt(aa * bb);
        let q = vstd::math::abs(dot) * (SCALE as int) / den;
        let sim = if dot >= 0 {
            q
        } else {
            -q
        };
        let clamped = if sim > SCALE as int {
            SCALE as int
        } else if sim < -(SCALE as int) {
            -(SCALE as int)
        } else {
            sim
        };
        SCALE as int - clamped
    }
}

/// The cosine distance of the binarized vectors, in fixed point.
pub open spec fn spec_binary_cosine_distance_scaled(a: Seq<i64>, b: Seq<i64>) -> int {
    let inter = spec_intersect(a, b);
    let ca = spec_intersect(a, a);
    let cb = spec_intersect(b, b);
    if ca == 0 || cb == 0 {
        SCALE as int
    } else {
        let den = floor_sqrt(ca * cb);
        let sim = inter * (SCALE as int) / den;
        let clamped = if sim > SCALE as int {
            SCALE as int
        } else {
            sim
        };
        SCALE as int - clamped
    }
}

/// The general (weighted) Jaccard distance in fixed point: one minus the
/// ratio of the sum of pointwise minima to the sum of pointwise maxima.
/// Defined for non-negative components; as a total extension, the minimum
/// sum is clamped to `[0, max sum]`, and when the maximum sum is not
/// positive the distance is zero for equal sums and one otherwise.
pub open spec fn spec_general_jaccard_distance_scaled(a: Seq<i64>, b: Seq<i64>) -> int {
    let smin = spec_sum_min(a, b);
    let smax = spec_sum_max(a, b);
    if smax > 0 {
        let c = if smin < 0 {
            0int
        } else if smin > smax {
            smax
        } else {
            smin
        };
        (smax - c) * (SCALE as int) / smax
    } else if smin == smax {
        0int
    } else {
        SCALE as int
    }
}

/// The Jaccard distance of the binarized vectors, in fixed point: one
/// minus intersection over union; an empty union gives zero.
pub open spec fn spec_binary_jaccard_distance_scaled(a: Seq<i64>, b: Seq<i64>) -> int {
    let inter = spec_intersect(a, b);
    let uni = spec_union_count(a, b);
    if uni == 0 {
        0int
    } else {
        (uni - inter) * (SCALE as int) / uni
    }
}

/// The limited inner product distance in fixed point: the negated inner
/// product divided by the integer square root of the larger squared norm;
/// zero when either norm is zero.
pub open spec fn spec_limited_inner_distance_scaled(a: Seq<i64>, b: Seq<i64>) -> int {
    let dot = spec_dot(a, b);
    let aa = spec_dot(a, a);
    let bb = spec_dot(b, b);
    if aa == 0 || bb == 0 {
        0int
    } else {
        let den = floor_sqrt(vstd::math::max(aa, bb));
        let q = vstd::math::abs(dot) * (SCALE as int) / den;
        if dot >= 0 {
            -q
        } else {
            q
        }
    }
}

/// The negated count of dimensions where both vectors are nonzero.
pub open spec fn spec_nonzero_intersect_distance(a: Seq<i64>, b: Seq<i64>) -> int {
    -spec_intersect(a, b)
}

/// True for the measures that need the tight component bound
/// (`MAX_COMPONENT`): they square sums of products or scale squared sums.
pub open spec fn measure_needs_narrow(m: DistanceMeasure) -> bool {
    m == DistanceMeasure::L2Distance || m == DistanceMeasure::CosineDistance || m
        == DistanceMeasure::LimitedInnerProductDistance
}

/// The inputs a measure accepts: equal lengths and the component bounds
/// that keep every intermediate value inside 128 bits.
pub open spec fn measure_inputs_ok(m: DistanceMeasure, a: Seq<i64>, b: Seq<i64>) -> bool {
    a.len() == b.len() && wide_vector(a) && wide_vector(b) && (measure_needs_narrow(m)
        ==> narrow_vector(a) && narrow_vector(b))
}

/// The value every measure returns, as one total function.
pub open spec fn spec_distance(m: DistanceMeasure, a: Seq<i64>, b: Seq<i64>) -> int {
    match m {
        DistanceMeasure::DotProductDistance => spec_dot_product_distance(a, b),
        DistanceMeasure::BinaryDotProductDistance => spec_binary_dot_product_distance(a, b),
        DistanceMeasure::AbsDotProductDistance => spec_abs_dot_product_distance(a, b),
        DistanceMeasure::L2Distance => spec_l2_distance_scaled(a, b),
        DistanceMeasure::SquaredL2Distance => spec_squared_l2(a, b),
        DistanceMeasure::NegatedSquaredL2Distance => -spec_squared_l2(a, b),
        DistanceMeasure::L1Distance => spec_l1(a, b),
        DistanceMeasure::CosineDistance => spec_cosine_distance_scaled(a, b),
        DistanceMeasure::BinaryCosineDistance => spec_binary_cosine_distance_scaled(a, b),
        DistanceMeasure::GeneralJaccardDistance => spec_general_jaccard_distance_scaled(a, b),
        DistanceMeasure::BinaryJaccardDistance => spec_binary_jaccard_distance_scaled(a, b),
        DistanceMeasure::LimitedInnerProductDistance => spec_limited_inner_distance_scaled(a, b),
        DistanceMeasure::GeneralHammingDistance => spec_hamming(a, b),
        DistanceMeasure::BinaryHammingDistance => spec_binary_hamming(a, b),
        DistanceMeasure::NonzeroIntersectDistance => spec_nonzero_intersect_distance(a, b),
    }
}

/// The negated inner product distance.
pub fn dot_product_distance(a: &[i64], b: &[i64]) -> (r: i128)
    requires
        a@.len() == b@.len(),
        wide_vector(a@),
        wide_vector(b@),
    ensures
        r == spec_dot_product_distance(a@, b@),
{
    proof {
        lemma_sums_bounded(a@, b@, MAX_WIDE as int);
    }
    -sum_products(a, b)
}

/// The negated absolute inner product distance.
pub fn abs_dot_product_distance(a: &[i64], b: &[i64]) -> (r: i128)
    requires
        a@.len() == b@.len(),
        wide_vector(a@),
        wide_vector(b@),
    ensures
        r == spec_abs_dot_product_distance(a@, b@),
{
    proof {
        lemma_sums_bounded(a@, b@, MAX_WIDE as int);
    }
    let dot = sum_products(a, b);
    if dot < 0 {
        dot
    } else {
        -dot
    }
}

/// The binarized inner product distance.
pub fn binary_dot_product_distance(a: &[i64], b: &[i64]) -> (r: i128)
    requires
        a@.len() == b@.len(),
        a@.len() <= MAX_DIM,
    ensures
        r == spec_binary_dot_product_distance(a@, b@),
{
    let counts = count_positions(a, b);
    -counts.2
}

/// The L1 distance.
pub fn l1_distance(a: &[i64], b: &[i64]) -> (r: i128)
    requires
        a@.len() == b@.len(),
        wide_vector(a@),
        wide_vector(b@),
    ensures
        r == spec_l1(a@, b@),
{
    sum_abs_diffs(a, b)
}

/// The squared L2 distance.
pub fn squared_l2_distance(a: &[i64], b: &[i64]) -> (r: i128)
    requires
        a@.len() == b@.len(),
        wide_vector(a@),
        wide_vector(b@),
    ensures
        r == spec_squared_l2(a@, b@),
{
    sum_squared_diffs(a, b)
}

/// The negated squared L2 distance.
pub fn negated_squared_l2_distance(a: &[i64], b: &[i64]) -> (r: i128)
    requires
        a@.len() == b@.len(),
        wide_vector(a@),
        wide_vector(b@),
    ensures
        r == -spec_squared_l2(a@, b@),
{
    proof {
        lemma_sums_bounded(a@, b@, MAX_WIDE as int);
    }
    -sum_squared_diffs(a, b)
}

/// The L2 distance in fixed point.
pub fn l2_distance(a: &[i64], b: &[i64]) -> (r: i128)
    requires
        a@.len() == b@.len(),
        narrow_vector(a@),
        narrow_vector(b@),
    ensures
        r == spec_l2_distance_scaled(a@, b@),
        r >= 0,
        spec_squared_l2(a@, b@) == 0 ==> r == 0,
{
    proof {
        lemma_narrow_implies_wide(a@);
        lemma_narrow_implies_wide(b@);
        lemma_dot_bounds_narrow(a@, b@);
        assert(spec_squared_l2(a@, b@) * (SCALE as int) * (SCALE as int) <= MAX_SQRT_ARG as int)
            by (nonlinear_arith)
            requires
                0 <= spec_squared_l2(a@, b@) <= 4503599627370496int,
        ;
    }
    let sq = sum_squared_diffs(a, b);
    let r = isqrt(sq * (SCALE as i128) * (SCALE as i128));
    proof {
        if spec_squared_l2(a@, b@) == 0 {
            lemma_floor_sqrt_square(0);
        }
    }
    r
}

/// The narrow bound implies the wide bound.
pub proof fn lemma_narrow_implies_wide(v: Seq<i64>)
    requires
        narrow_vector(v),
    ensures
        wide_vector(v),
{
    assert forall|i: int| 0 <= i < v.len() implies -(MAX_WIDE as int) <= #[trigger] v[i] <= (
    MAX_WIDE as int) by {
        assert(-(MAX_COMPONENT as int) <= v[i] <= (MAX_COMPONENT as int));
    }
}

/// Concrete bounds on the sums of narrow vectors: the inner product fits
/// in 2^50 and the squared L2 distance in 2^52.
pub proof fn lemma_dot_bounds_narrow(a: Seq<i64>, b: Seq<i64>)
    requires
        a.len() == b.len(),
        narrow_vector(a),
        narrow_vector(b),
    ensures
        -1125899906842624 <= spec_dot(a, b) <= 1125899906842624,
        0 <= spec_dot(a, a) <= 1125899906842624,
        0 <= spec_dot(b, b) <= 1125899906842624,
        0 <= spec_squared_l2(a, b) <= 4503599627370496,
{
    lemma_sums_bounded(a, b, MAX_COMPONENT as int);
    lemma_sums_bounded(a, a, MAX_COMPONENT as int);
    lemma_sums_bounded(b, b, MAX_COMPONENT as int);
    lemma_dot_self_nonneg(a);
    lemma_dot_self_nonneg(b);
    assert(a.len() * (MAX_COMPONENT as int) * (MAX_COMPONENT as int) <= 1125899906842624int)
        by (nonlinear_arith)
        requires
            a.len() <= 1048576,
    ;
    assert(a.len() * 4 * (MAX_COMPONENT as int) * (MAX_COMPONENT as int) <= 4503599627370496int)
        by (nonlinear_arith)
        requires
            a.len() <= 1048576,
    ;
}

/// The cosine distance in fixed point.
pub fn cosine_distance(a: &[i64], b: &[i64]) -> (r: i128)
    requires
        a@.len() == b@.len(),
        narrow_vector(a@),
        narrow_vector(b@),
    ensures
        r == spec_cosine_distance_scaled(a@, b@),
        0 <= r <= 2 * (SCALE as int),
{
    proof {
        lemma_narrow_implies_wide(a@);
        lemma_narrow_implies_wide(b@);
        lemma_dot_self_nonneg(a@);
        lemma_dot_self_nonneg(b@);
    }
    let dot = sum_products(a, b);
    let aa = sum_products(a, a);
    let bb = sum_products(b, b);
    if aa == 0 || bb == 0 {
        return SCALE as i128;
    }
    proof {
        lemma_dot_bounds_narrow(a@, b@);
        assert(aa * bb <= 1267650600228229401496703205376int && 1 <= aa * bb) by (nonlinear_arith)
            requires
                1 <= aa <= 1125899906842624int,
                1 <= bb <= 1125899906842624int,
        ;
    }
    let den = isqrt(aa * bb);
    proof {
        assert(den >= 1) by {
            if den == 0 {
                assert((den + 1) * (den + 1) == 1) by (nonlinear_arith)
                    requires
                        den == 0,
                ;
            }
        }
    }
    let absdot: i128 = if dot < 0 {
        -dot
    } else {
        dot
    };
    let q = div_floor_nonneg(absdot * (SCALE as i128), den);
    let sim: i128 = if dot >= 0 {
        q
    } else {
        -q
    };
    let clamped: i128 = if sim > SCALE as i128 {
        SCALE as i128
    } else if sim < -(SCALE as i128) {
        -(SCALE as i128)
    } else {
        sim
    };
    (SCALE as i128) - clamped
}

/// The binarized cosine distance in fixed point.
pub fn binary_cosine_distance(a: &[i64], b: &[i64]) -> (r: i128)
    requires
        a@.len() == b@.len(),
        a@.len() <= MAX_DIM,
    ensures
        r == spec_binary_cosine_distance_scaled(a@, b@),
        0 <= r <= SCALE as int,
{
    let inter = count_positions(a, b).2;
    let ca = count_positions(a, a).2;
    let cb = count_positions(b, b).2;
    if ca == 0 || cb == 0 {
        return SCALE as i128;
    }
    proof {
        assert(ca * cb <= (MAX_DIM as int) * (MAX_DIM as int) && 1 <= ca * cb) by (nonlinear_arith)
            requires
                1 <= ca <= MAX_DIM as int,
                1 <= cb <= MAX_DIM as int,
        ;
        assert((MAX_DIM as int) * (MAX_DIM as int) <= MAX_SQRT_ARG as int) by (nonlinear_arith);
    }
    let den = isqrt(ca * cb);
    proof {
        assert(den >= 1) by {
            if den == 0 {
                assert((den + 1) * (den + 1) == 1) by (nonlinear_arith)
                    requires
                        den == 0,
                ;
            }
        }
    }
    let sim = div_floor_nonneg(inter * (SCALE as i128), den);
    let clamped: i128 = if sim > SCALE as i128 {
        SCALE as i128
    } else {
        sim
    };
    proof {
        vstd::arithmetic::div_mod::lemma_div_pos_is_pos(
            inter * (SCALE as int),
            den as int,
        );
    }
    (SCALE as i128) - clamped
}

/// The general Jaccard distance in fixed point.
pub fn general_jaccard_distance(a: &[i64], b: &[i64]) -> (r: i128)
    requires
        a@.len() == b@.len(),
        wide_vector(a@),
        wide_vector(b@),
    ensures
        r == spec_general_jaccard_distance_scaled(a@, b@),
        0 <= r <= SCALE as int,
{
    proof {
        lemma_sums_bounded(a@, b@, MAX_WIDE as int);
    }
    let sums = sum_min_max(a, b);
    let smin = sums.0;
    let smax = sums.1;
    if smax > 0 {
        let c: i128 = if smin < 0 {
            0
        } else if smin > smax {
            smax
        } else {
            smin
        };
        let num = (smax - c) * (SCALE as i128);
        let r = div_floor_nonneg(num, smax);
        proof {
            assert((smax - c) * (SCALE as int) <= smax * (SCALE as int)) by (nonlinear_arith)
                requires
                    0 <= smax - c <= smax,
            ;
            vstd::arithmetic::div_mod::lemma_div_multiples_vanish(SCALE as int, smax as int);
            vstd::arithmetic::div_mod::lemma_div_is_ordered(
                (smax - c) * (SCALE as int),
                smax * (SCALE as int),
                smax as int,
            );
            assert(smax * (SCALE as int) == (smax as int) * (SCALE as int));
        }
        r
    } else if smin == smax {
        0
    } else {
        SCALE as i128
    }
}

/// The binarized Jaccard distance in fixed point.
pub fn binary_jaccard_distance(a: &[i64], b: &[i64]) -> (r: i128)
    requires
        a@.len() == b@.len(),
        a@.len() <= MAX_DIM,
    ensures
        r == spec_binary_jaccard_distance_scaled(a@, b@),
        0 <= r <= SCALE as int,
{
    let counts = count_positions(a, b);
    let inter = counts.2;
    let uni = counts.3;
    if uni == 0 {
        0
    } else {
        let r = div_floor_nonneg((uni - inter) * (SCALE as i128), uni);
        proof {
            assert((uni - inter) * (SCALE as int) <= uni * (SCALE as int)) by (nonlinear_arith)
                requires
                    0 <= uni - inter <= uni,
            ;
            vstd::arithmetic::div_mod::lemma_div_multiples_vanish(SCALE as int, uni as int);
            vstd::arithmetic::div_mod::lemma_div_is_ordered(
                (uni - inter) * (SCALE as int),
                uni * (SCALE as int),
                uni as int,
            );
        }
        r
    }
}

/// The limited inner product distance in fixed point.
pub fn limited_inner_product_distance(a: &[i64], b: &[i64]) -> (r: i128)
    requires
        a@.len() == b@.len(),
        narrow_vector(a@),
        narrow_vector(b@),
    ensures
        r == spec_limited_inner_distance_scaled(a@, b@),
{
    proof {
        lemma_narrow_implies_wide(a@);
        lemma_narrow_implies_wide(b@);
        lemma_dot_bounds_narrow(a@, b@);
        lemma_dot_self_nonneg(a@);
        lemma_dot_self_nonneg(b@);
    }
    let dot = sum_products(a, b);
    let aa = sum_products(a, a);
    let bb = sum_products(b, b);
    if aa == 0 || bb == 0 {
        return 0;
    }
    let m: i128 = if aa > bb {
        aa
    } else {
        bb
    };
    let den = isqrt(m);
    proof {
        assert(den >= 1) by {
            if den == 0 {
                assert((den + 1) * (den + 1) == 1) by (nonlinear_arith)
                    requires
                        den == 0,
                ;
            }
        }
    }
    let absdot: i128 = if dot < 0 {
        -dot
    } else {
        dot
    };
    let q = div_floor_nonneg(absdot * (SCALE as i128), den);
    if dot >= 0 {
        -q
    } else {
        q
    }
}

/// The general Hamming distance: the count of differing positions.
pub fn general_hamming_distance(a: &[i64], b: &[i64]) -> (r: i128)
    requires
        a@.len() == b@.len(),
        a@.len() <= MAX_DIM,
    ensures
        r == spec_hamming(a@, b@),
{
    count_positions(a, b).0
}

/// The binarized Hamming distance: the count of positions whose nonzero
/// patterns differ.
pub fn binary_hamming_distance(a: &[i64], b: &[i64]) -> (r: i128)
    requires
        a@.len() == b@.len(),
        a@.len() <= MAX_DIM,
    ensures
        r == spec_binary_hamming(a@, b@),
{
    count_positions(a, b).1
}

/// The negated nonzero-intersection count.
pub fn nonzero_intersect_distance(a: &[i64], b: &[i64]) -> (r: i128)
    requires
        a@.len() == b@.len(),
        a@.len() <= MAX_DIM,
    ensures
        r == spec_nonzero_intersect_distance(a@, b@),
{
    -count_positions(a, b).2
}

impl DistanceMeasure {
    /// Computes this measure on two vector views. Fails with
    /// `InvalidArgument`, and only then, when the lengths differ.
    pub fn compute_distance(&self, a: &DatapointPtr<i64>, b: &DatapointPtr<i64>) -> (r: Result<
        i128,
        ScannError,
    >)
        requires
            wide_vector(a@),
            wide_vector(b@),
            measure_needs_narrow(*self) ==> narrow_vector(a@) && narrow_vector(b@),
        ensures
            a@.len() == b@.len() ==> (r matches Ok(d) && d == spec_distance(*self, a@, b@)),
            a@.len() != b@.len() ==> (r matches Err(e) && e.kind == ErrorKind::InvalidArgument),
    {
        let av = a.values();
        let bv = b.values();
        if av.len() != bv.len() {
            return Err(
                invalid_argument_error("Distance measures need two vectors of equal length"),
            );
        }
        Ok(distance_on_slices(self, av, bv))
    }
}

/// Dispatches a measure over two equal-length slices.
pub fn distance_on_slices(m: &DistanceMeasure, a: &[i64], b: &[i64]) -> (r: i128)
    requires
        a@.len() == b@.len(),
        wide_vector(a@),
        wide_vector(b@),
        measure_needs_narrow(*m) ==> narrow_vector(a@) && narrow_vector(b@),
    ensures
        r == spec_distance(*m, a@, b@),
{
    match m {
        DistanceMeasure::DotProductDistance => dot_product_distance(a, b),
        DistanceMeasure::BinaryDotProductDistance => binary_dot_product_distance(a, b),
        DistanceMeasure::AbsDotProductDistance => abs_dot_product_distance(a, b),
        DistanceMeasure::L2Distance => l2_distance(a, b),
        DistanceMeasure::SquaredL2Distance => squared_l2_distance(a, b),
        DistanceMeasure::NegatedSquaredL2Distance => negated_squared_l2_distance(a, b),
        DistanceMeasure::L1Distance => l1_distance(a, b),
        DistanceMeasure::CosineDistance => cosine_distance(a, b),
        DistanceMeasure::BinaryCosineDistance => binary_cosine_distance(a, b),
        DistanceMeasure::GeneralJaccardDistance => general_jaccard_distance(a, b),
        DistanceMeasure::BinaryJaccardDistance => binary_jaccard_distance(a, b),
        DistanceMeasure::LimitedInnerProductDistance => limited_inner_product_distance(a, b),
        DistanceMeasure::GeneralHammingDistance => general_hamming_distance(a, b),
        DistanceMeasure::BinaryHammingDistance => binary_hamming_distance(a, b),
        DistanceMeasure::NonzeroIntersectDistance => nonzero_intersect_distance(a, b),
    }
}

/// Law: the fixed-point L2 distance of a vector from itself is zero.
pub proof fn lemma_l2_self_zero(a: Seq<i64>)
    ensures
        spec_l2_distance_scaled(a, a) == 0,
{
    lemma_self_distance_zero(a);
    lemma_floor_sqrt_square(0);
}

/// Law: the cosine distance of a vector from itself is zero whenever the
/// vector has a nonzero component.
pub proof fn lemma_cosine_self_zero(a: Seq<i64>)
    requires
        spec_dot(a, a) != 0,
    ensures
        spec_cosine_distance_scaled(a, a) == 0,
{
    lemma_dot_self_nonneg(a);
    let aa = spec_dot(a, a);
    lemma_floor_sqrt_square(aa);
    assert(vstd::math::abs(aa) == aa);
    vstd::arithmetic::div_mod::lemma_div_multiples_vanish(SCALE as int, aa);
    assert(aa * (SCALE as int) == (SCALE as int) * aa) by (nonlinear_arith);
}

/// Law: the cosine distance always lies between zero and two, in fixed
/// point between `0` and `2 * SCALE`.
pub proof fn lemma_cosine_range(a: Seq<i64>, b: Seq<i64>)
    ensures
        0 <= spec_cosine_distance_scaled(a, b) <= 2 * (SCALE as int),
{
}

/// Character-exact string equality, decided by comparing UTF-8 bytes.
fn str_eq(a: &str, b: &str) -> (r: bool)
    ensures
        r == (a@ == b@),
{
    proof {
        vstd::utf8::encode_utf8_decode_utf8(a@);
        vstd::utf8::encode_utf8_decode_utf8(b@);
    }
    let ab = a.as_bytes();
    let bb = b.as_bytes();
    let n = ab.len();
    if n != bb.len() {
        proof {
            if a@ == b@ {
                assert(a.spec_bytes() == b.spec_bytes());
            }
        }
        return false;
    }
    let mut i: usize = 0;
    while i < n
        invariant
            i <= n,
            n == ab@.len() && n == bb@.len(),
            ab@ == a.spec_bytes() && bb@ == b.spec_bytes(),
            forall|j: int| 0 <= j < i ==> ab@[j] == bb@[j],
        decreases n - i,
    {
        if ab[i] != bb[i] {
            proof {
                if a@ == b@ {
                    assert(a.spec_bytes() == b.spec_bytes());
                    assert(ab@[i as int] == bb@[i as int]);
                }
            }
            return false;
        }
        i += 1;
    }
    proof {
        assert(ab@ =~= bb@);
    }
    true
}

/// The measure a registry name denotes, if any.
pub open spec fn measure_of_name(name: Seq<char>) -> Option<DistanceMeasure> {
    if name == "DotProductDistance"@ {
        Some(DistanceMeasure::DotProductDistance)
    } else if name == "BinaryDotProductDistance"@ {
        Some(DistanceMeasure::BinaryDotProductDistance)
    } else if name == "AbsDotProductDistance"@ {
        Some(DistanceMeasure::AbsDotProductDistance)
    } else if name == "L2Distance"@ {
        Some(DistanceMeasure::L2Distance)
    } else if name == "SquaredL2Distance"@ {
        Some(DistanceMeasure::SquaredL2Distance)
    } else if name == "NegatedSquaredL2Distance"@ {
        Some(DistanceMeasure::NegatedSquaredL2Distance)
    } else if name == "L1Distance"@ {
        Some(DistanceMeasure::L1Distance)
    } else if name == "CosineDistance"@ {
        Some(DistanceMeasure::CosineDistance)
    } else if name == "BinaryCosineDistance"@ {
        Some(DistanceMeasure::BinaryCosineDistance)
    } else if name == "GeneralJaccardDistance"@ {
        Some(DistanceMeasure::GeneralJaccardDistance)
    } else if name == "BinaryJaccardDistance"@ {
        Some(DistanceMeasure::BinaryJaccardDistance)
    } else if name == "LimitedInnerProductDistance"@ {
        Some(DistanceMeasure::LimitedInnerProductDistance)
    } else if name == "GeneralHammingDistance"@ {
        Some(DistanceMeasure::GeneralHammingDistance)
    } else if name == "BinaryHammingDistance"@ {
        Some(DistanceMeasure::BinaryHammingDistance)
    } else if name == "NonzeroIntersectDistance"@ {
        Some(DistanceMeasure::NonzeroIntersectDistance)
    } else {
        None
    }
}

/// Looks a measure up by its registry name. Fails with `InvalidArgument`,
/// and only then, when the name is not in the registry (the empty name
/// never is).
pub fn get_distance_measure_by_name(name: &str) -> (r: Result<DistanceMeasure, ScannError>)
    ensures
        measure_of_name(name@) matches Some(m) ==> (r matches Ok(got) && got == m),
        measure_of_name(name@) is None ==> (r matches Err(e) && e.kind
            == ErrorKind::InvalidArgument),
{
    if str_eq(name, "DotProductDistance") {
        Ok(DistanceMeasure::DotProductDistance)
    } else if str_eq(name, "BinaryDotProductDistance") {
        Ok(DistanceMeasure::BinaryDotProductDistance)
    } else if str_eq(name, "AbsDotProductDistance") {
        Ok(DistanceMeasure::AbsDotProductDistance)
    } else if str_eq(name, "L2Distance") {
        Ok(DistanceMeasure::L2Distance)
    } else if str_eq(name, "SquaredL2Distance") {
        Ok(DistanceMeasure::SquaredL2Distance)
    } else if str_eq(name, "NegatedSquaredL2Distance") {
        Ok(DistanceMeasure::NegatedSquaredL2Distance)
    } else if str_eq(name, "L1Distance") {
        Ok(DistanceMeasure::L1Distance)
    } else if str_eq(name, "CosineDistance") {
        Ok(DistanceMeasure::CosineDistance)
    } else if str_eq(name, "BinaryCosineDistance") {
        Ok(DistanceMeasure::BinaryCosineDistance)
    } else if str_eq(name, "GeneralJaccardDistance") {
        Ok(DistanceMeasure::GeneralJaccardDistance)
    } else if str_eq(name, "BinaryJaccardDistance") {
        Ok(DistanceMeasure::BinaryJaccardDistance)
    } else if str_eq(name, "LimitedInnerProductDistance") {
        Ok(DistanceMeasure::LimitedInnerProductDistance)
    } else if str_eq(name, "GeneralHammingDistance") {
        Ok(DistanceMeasure::GeneralHammingDistance)
    } else if str_eq(name, "BinaryHammingDistance") {
        Ok(DistanceMeasure::BinaryHammingDistance)
    } else if str_eq(name, "NonzeroIntersectDistance") {
        Ok(DistanceMeasure::NonzeroIntersectDistance)
    } else {
        Err(invalid_argument_error("Invalid distance_measure name"))
    }
}

/// Looks a measure up from a configuration. Fails with `InvalidArgument`
/// when the configured name is empty or unrecognized.
pub fn get_distance_measure(config: &crate::proto::DistanceMeasureConfig) -> (r: Result<
    DistanceMeasure,
    ScannError,
>)
    ensures
        measure_of_name(config.distance_measure@) matches Some(m) ==> (r matches Ok(got) && got
            == m),
        measure_of_name(config.distance_measure@) is None ==> (r matches Err(e) && e.kind
            == ErrorKind::InvalidArgument),
{
    let name = config.distance_measure();
    if name.is_empty() {
        proof {
            assert(name@.len() == 0);
            proof_nonempty_names();
        }
        return Err(
            invalid_argument_error(
                "Empty DistanceMeasureConfig proto! Must specify distance_measure.",
            ),
        );
    }
    get_distance_measure_by_name(name)
}

/// Every registry name is nonempty, so the empty name maps to nothing.
proof fn proof_nonempty_names()
    ensures
        forall|name: Seq<char>| name.len() == 0 ==> measure_of_name(name) is None,
{
    assert forall|name: Seq<char>| name.len() == 0 implies measure_of_name(name) is None by {
        reveal_strlit("DotProductDistance");
        reveal_strlit("BinaryDotProductDistance");
        reveal_strlit("AbsDotProductDistance");
        reveal_strlit("L2Distance");
        reveal_strlit("SquaredL2Distance");
        reveal_strlit("NegatedSquaredL2Distance");
        reveal_strlit("L1Distance");
        reveal_strlit("CosineDistance");
        reveal_strlit("BinaryCosineDistance");
        reveal_strlit("GeneralJaccardDistance");
        reveal_strlit("BinaryJaccardDistance");
        reveal_strlit("LimitedInnerProductDistance");
        reveal_strlit("GeneralHammingDistance");
        reveal_strlit("BinaryHammingDistance");
        reveal_strlit("NonzeroIntersectDistance");
    }
}

} // verus!
