//! Dimensionality reduction: a linear projection onto basis rows.
//!
//! A `PcaProjection` holds an immutable `projected_dims x input_dims`
//! basis (rows are basis vectors) installed from eigenvectors or from a
//! serialized form; `project_input` is the exact linear map
//! `projected[i] = dot(basis_row[i], input)`. A
//! `RandomOrthogonalProjection` generates a seeded orthonormal integer
//! basis: a signed permutation matrix, the integer matrices whose rows
//! are exactly orthonormal. Rotating a basis by such a matrix decorrelates
//! axis-aligned error while preserving the spanned subspace.

use vstd::prelude::*;

use crate::dataset::DatapointPtr;
use crate::dataset::DenseDataset;
use crate::distance::MAX_COMPONENT;
use crate::distance::MAX_DIM;
use crate::distance::MAX_WIDE;
use crate::distance::narrow_vector;
use crate::distance::spec_dot;
use crate::distance::wide_vector;
use crate::error::ErrorKind;
use crate::error::ScannError;
use crate::error::failed_precondition_error;
use crate::error::invalid_argument_error;
use crate::proto::GenericFeatureVector;
use crate::proto::SerializedProjection;

verus! {

/// `row` is zero everywhere except position `pos`, which holds 1 or -1.
pub open spec fn one_hot(row: Seq<i64>, pos: int) -> bool {
    &&& 0 <= pos < row.len()
    &&& (row[pos] == 1 || row[pos] == -1)
    &&& forall|j: int| 0 <= j < row.len() && j != pos ==> #[trigger] row[j] == 0
}

/// A dot product over pointwise-zero products is zero.
pub proof fn lemma_dot_zero_products(a: Seq<i64>, b: Seq<i64>)
    requires
        a.len() == b.len(),
        forall|i: int| 0 <= i < a.len() ==> #[trigger] (a[i] * b[i]) == 0,
    ensures
        spec_dot(a, b) == 0,
    decreases a.len(),
{
    if a.len() > 0 {
        let a1 = a.drop_last();
        let b1 = b.drop_last();
        assert(forall|i: int| 0 <= i < a1.len() ==> #[trigger] (a1[i] * b1[i]) == a[i] * b[i]);
        lemma_dot_zero_products(a1, b1);
    }
}

/// A dot product whose pointwise products vanish away from one position
/// is the product at that position.
pub proof fn lemma_dot_single(a: Seq<i64>, b: Seq<i64>, p: int)
    requires
        a.len() == b.len(),
        0 <= p < a.len(),
        forall|i: int| 0 <= i < a.len() && i != p ==> #[trigger] (a[i] * b[i]) == 0,
    ensures
        spec_dot(a, b) == a[p] * b[p],
    decreases a.len(),
{
    let a1 = a.drop_last();
    let b1 = b.drop_last();
    if p == a.len() - 1 {
        assert(forall|i: int| 0 <= i < a1.len() ==> #[trigger] (a1[i] * b1[i]) == a[i] * b[i]);
        lemma_dot_zero_products(a1, b1);
    } else {
        assert(forall|i: int|
            0 <= i < a1.len() && i != p ==> #[trigger] (a1[i] * b1[i]) == a[i] * b[i]);
        lemma_dot_single(a1, b1, p);
        assert(a.last() * b.last() == 0);
    }
}

/// One step of a 64-bit linear congruential generator.
pub open spec fn spec_lcg(state: u64) -> u64 {
    (((state as int) * 6364136223846793005 + 1442695040888963407) % 0x1_0000_0000_0000_0000) as u64
}

/// `k` steps of the generator.
pub open spec fn spec_lcg_iter(state: u64, k: int) -> u64
    decreases k,
{
    if k <= 0 {
        state
    } else {
        spec_lcg(spec_lcg_iter(state, k - 1))
    }
}

/// One step of a 64-bit linear congruential generator.
pub(crate) fn lcg_next(state: u64) -> (r: u64)
    ensures
        r == spec_lcg(state),
{
    let wide: u128 = (state as u128) * 6364136223846793005u128 + 1442695040888963407u128;
    (wide % 340282366920938463444927863358058659840u128 % 18446744073709551616u128) as u64
}

/// The seeded shuffle: swaps position `i` with a generator-chosen earlier
/// position, then continues downward, returning the permutation and the
/// generator state it leaves behind.
pub open spec fn spec_shuffle(perm: Seq<usize>, state: u64, i: int) -> (Seq<usize>, u64)
    decreases i,
{
    if i <= 0 {
        (perm, state)
    } else {
        let s2 = spec_lcg(state);
        let j = ((s2 >> 16) % ((i + 1) as u64)) as int;
        spec_shuffle(perm.update(i, perm[j]).update(j, perm[i]), s2, i - 1)
    }
}

/// The identity permutation of `n` positions.
pub open spec fn spec_identity_perm(n: nat) -> Seq<usize> {
    Seq::new(n, |v: int| v as usize)
}

/// The basis `create` generates, as a function of the shape and the seed
/// alone: the seeded shuffle of the axes, then one signed one-hot row per
/// kept axis, the sign drawn from the continuing generator stream.
pub open spec fn spec_signed_permutation_basis(
    input_dims: nat,
    projected_dims: nat,
    seed: u64,
) -> Seq<Seq<i64>> {
    let shuffled = spec_shuffle(spec_identity_perm(input_dims), seed, input_dims as int - 1);
    Seq::new(
        projected_dims,
        |r: int|
            {
                let s = spec_lcg_iter(shuffled.1, r + 1);
                Seq::new(
                    input_dims,
                    |c: int|
                        if c == shuffled.0[r] as int {
                            if s % 2 == 0 {
                                1i64
                            } else {
                                -1i64
                            }
                        } else {
                            0i64
                        },
                )
            },
    )
}

/// A deterministically seeded orthonormal integer basis: a signed
/// permutation of the axes.
#[derive(Debug)]
pub struct RandomOrthogonalProjection {
    pub input_dims: usize,
    pub projected_dims: usize,
    pub seed: u64,
    pub directions: Option<DenseDataset<i64>>,
}

/// The generated basis is a signed permutation: every entry is -1, 0 or
/// 1, and the rows are exactly orthonormal. A row of such entries with a
/// unit self-product is one-hot: exactly one entry is nonzero.
pub open spec fn orthonormal_basis(d: DenseDataset<i64>, input_dims: int, projected_dims: int) -> bool {
    &&& d.dimensionality == input_dims
    &&& d@.len() == projected_dims
    &&& forall|r: int| 0 <= r < d@.len() ==> (#[trigger] d@[r]).len() == input_dims
    &&& forall|r: int, j: int|
        0 <= r < d@.len() && 0 <= j < input_dims ==> -1 <= #[trigger] d@[r][j] <= 1
    &&& forall|r1: int, r2: int|
        0 <= r1 < d@.len() && 0 <= r2 < d@.len() ==> spec_dot(#[trigger] d@[r1], #[trigger] d@[r2])
            == if r1 == r2 {
            1int
        } else {
            0int
        }
}

impl RandomOrthogonalProjection {
    /// Declares the shape and seed; no basis is generated yet.
    pub fn new(input_dims: usize, projected_dims: usize, seed: u64) -> (r: Self)
        ensures
            r.input_dims == input_dims,
            r.projected_dims == projected_dims,
            r.seed == seed,
            r.directions is None,
    {
        RandomOrthogonalProjection { input_dims, projected_dims, seed, directions: None }
    }

    /// Generates the seeded signed-permutation basis. Fails with
    /// `InvalidArgument`, leaving the state unchanged, exactly when more
    /// rows than input dimensions are asked for or the shape is degenerate.
    pub fn create(&mut self) -> (r: Result<(), ScannError>)
        ensures
            old(self).projected_dims <= old(self).input_dims && old(self).input_dims > 0 && old(self).input_dims <= MAX_DIM ==> (r is Ok && (final(self).directions matches Some(d)
                && orthonormal_basis(
                d,
                old(self).input_dims as int,
                old(self).projected_dims as int,
            ) && d@ == spec_signed_permutation_basis(
                old(self).input_dims as nat,
                old(self).projected_dims as nat,
                old(self).seed,
            ))),
            !(old(self).projected_dims <= old(self).input_dims && old(self).input_dims > 0 && old(self).input_dims <= MAX_DIM) ==> (r matches Err(e) && e.kind == ErrorKind::InvalidArgument
                && final(self).directions == old(self).directions),
            final(self).input_dims == old(self).input_dims,
            final(self).projected_dims == old(self).projected_dims,
            final(self).seed == old(self).seed,
    {
        let n = self.input_dims;
        let p = self.projected_dims;
        if !(p <= n && n > 0 && n <= MAX_DIM) {
            return Err(
                invalid_argument_error(
                    "An orthonormal basis needs 0 < projected <= input dimensions, input bounded",
                ),
            );
        }
        // a seeded permutation of the axes
        let mut perm: Vec<usize> = Vec::new();
        let mut i: usize = 0;
        while i < n
            invariant
                i <= n,
                perm@.len() == i,
                forall|v: int| 0 <= v < i ==> #[trigger] perm@[v] == v,
            decreases n - i,
        {
            perm.push(i);
            i += 1;
        }
        let ghost ident = perm@;
        let ghost target = spec_shuffle(spec_identity_perm(n as nat), self.seed, n as int - 1);
        proof {
            assert(forall|v1: int, v2: int|
                0 <= v1 < v2 < ident.len() ==> #[trigger] ident[v1] != #[trigger] ident[v2]);
            assert(ident.no_duplicates());
            ident.lemma_multiset_has_no_duplicates();
            assert(ident =~= spec_identity_perm(n as nat));
        }
        let mut state: u64 = self.seed;
        let mut i: usize = n - 1;
        while i > 0
            invariant
                i < n,
                perm@.len() == n,
                perm@.to_multiset() == ident.to_multiset(),
                forall|v: int| 0 <= v < n ==> #[trigger] perm@[v] < n,
                target == spec_shuffle(perm@, state, i as int),
            decreases i,
        {
            let ghost state0 = state;
            state = lcg_next(state);
            let j: usize = ((state >> 16) % ((i as u64) + 1)) as usize;
            let ghost before = perm@;
            let a = perm[i];
            let b = perm[j];
            perm.set(i, b);
            perm.set(j, a);
            proof {
                broadcast use vstd::seq_lib::to_multiset_update;
                broadcast use vstd::seq_lib::group_to_multiset_ensures;
                broadcast use vstd::multiset::group_multiset_axioms;

                assert(perm@ =~= before.update(i as int, b).update(j as int, a));
                assert(perm@.to_multiset() =~= before.to_multiset());
                assert(spec_shuffle(before, state0, i as int) == spec_shuffle(
                    perm@,
                    state,
                    i as int - 1,
                ));
            }
            i -= 1;
        }
        proof {
            perm@.lemma_multiset_has_no_duplicates_conv();
            assert(target == (perm@, state));
        }
        // one signed one-hot row per basis vector
        let ghost basis = spec_signed_permutation_basis(n as nat, p as nat, self.seed);
        let mut rows: DenseDataset<i64> = DenseDataset::with_dimensionality(n);
        let mut r: usize = 0;
        while r < p
            invariant
                r <= p <= n,
                perm@.len() == n,
                perm@.no_duplicates(),
                forall|v: int| 0 <= v < n ==> #[trigger] perm@[v] < n,
                rows.dimensionality == n,
                rows@.len() == r,
                target == spec_shuffle(spec_identity_perm(n as nat), self.seed, n as int - 1),
                basis == spec_signed_permutation_basis(n as nat, p as nat, self.seed),
                perm@ == target.0,
                state == spec_lcg_iter(target.1, r as int),
                forall|v: int| 0 <= v < r ==> (#[trigger] rows@[v]).len() == n,
                forall|v: int| 0 <= v < r ==> one_hot(#[trigger] rows@[v], perm@[v] as int),
                forall|v: int| 0 <= v < r ==> #[trigger] rows@[v] == basis[v],
            decreases p - r,
        {
            state = lcg_next(state);
            proof {
                assert(state == spec_lcg_iter(target.1, r + 1));
            }
            let sign: i64 = if state % 2 == 0 {
                1
            } else {
                -1
            };
            let mut row: Vec<i64> = vec![0i64; n];
            let pos = perm[r];
            row.set(pos, sign);
            let ghost prev = rows@;
            rows.data.push(row);
            proof {
                assert(rows@ =~= prev.push(row@));
                assert(row@ =~= Seq::new(n as nat, |j: int| 0i64).update(
                    perm@[r as int] as int,
                    sign,
                ));
                assert(one_hot(rows@[r as int], perm@[r as int] as int));
                assert(forall|v: int| 0 <= v < r + 1 ==> (#[trigger] rows@[v]).len() == n);
                assert(rows@[r as int] =~= basis[r as int]);
            }
            r += 1;
        }
        proof {
            assert forall|r1: int, r2: int|
                0 <= r1 < rows@.len() && 0 <= r2 < rows@.len() implies spec_dot(
                #[trigger] rows@[r1],
                #[trigger] rows@[r2],
            ) == if r1 == r2 {
                1int
            } else {
                0int
            } by {
                let row1 = rows@[r1];
                let row2 = rows@[r2];
                let p1 = perm@[r1] as int;
                let p2 = perm@[r2] as int;
                if r1 == r2 {
                    assert(forall|j: int|
                        0 <= j < row1.len() && j != p1 ==> #[trigger] (row1[j] * row2[j]) == 0);
                    lemma_dot_single(row1, row2, p1);
                    assert(row1[p1] * row2[p1] == 1) by (nonlinear_arith)
                        requires
                            row1 == row2,
                            row1[p1] == 1 || row1[p1] == -1,
                    ;
                } else {
                    assert(p1 != p2);
                    assert(forall|j: int|
                        0 <= j < row1.len() ==> #[trigger] (row1[j] * row2[j]) == 0) by {
                        assert(forall|j: int| 0 <= j < row1.len() && j != p1 ==> row1[j] == 0);
                        assert(forall|j: int| 0 <= j < row2.len() && j != p2 ==> row2[j] == 0);
                        assert(row2[p1] == 0);
                        assert(row1[p1] * row2[p1] == 0) by (nonlinear_arith)
                            requires
                                row2[p1] == 0,
                        ;
                        assert(forall|j: int|
                            0 <= j < row1.len() && j != p1 ==> #[trigger] (row1[j] * row2[j])
                                == 0);
                    }
                    lemma_dot_zero_products(row1, row2);
                }
            }
            assert forall|v: int, j: int|
                0 <= v < rows@.len() && 0 <= j < n as int implies -1 <= #[trigger] rows@[v][j]
                <= 1 by {
                assert(one_hot(rows@[v], perm@[v] as int));
            }
            assert(orthonormal_basis(rows, n as int, p as int));
            assert(rows@ =~= basis);
        }
        self.directions = Some(rows);
        Ok(())
    }

    /// The generated basis, if `create` has run.
    pub fn get_directions(&self) -> (r: &Option<DenseDataset<i64>>)
        ensures
            r == &self.directions,
    {
        &self.directions
    }
}

/// Column `c` of a row-major matrix.
pub open spec fn column(m: Seq<Seq<i64>>, c: int) -> Seq<i64> {
    Seq::new(m.len(), |s: int| m[s][c])
}

/// `newb` is `o * oldb`: every entry is the inner product of an `o` row
/// with an `oldb` column.
pub open spec fn rotated(o: Seq<Seq<i64>>, oldb: Seq<Seq<i64>>, newb: Seq<Seq<i64>>) -> bool {
    &&& newb.len() == oldb.len()
    &&& forall|r: int, c: int|
        0 <= r < newb.len() && 0 <= c < oldb[0].len() ==> #[trigger] newb[r][c] == spec_dot(
            o[r],
            column(oldb, c),
        )
}

/// A row of entries in `{-1, 0, 1}` whose self-product is one has exactly
/// one nonzero entry; returns its position.
pub proof fn lemma_unit_row_one_hot(row: Seq<i64>) -> (pos: int)
    requires
        forall|j: int| 0 <= j < row.len() ==> -1 <= #[trigger] row[j] <= 1,
        spec_dot(row, row) == 1,
    ensures
        one_hot(row, pos),
    decreases row.len(),
{
    assert(row.len() > 0);
    let lastv = row.last();
    let row1 = row.drop_last();
    assert(forall|j: int| 0 <= j < row1.len() ==> #[trigger] row1[j] == row[j]);
    if lastv == 0 {
        let pos = lemma_unit_row_one_hot(row1);
        assert(one_hot(row, pos)) by {
            assert(row[pos] == row1[pos]);
            assert(forall|j: int|
                0 <= j < row.len() - 1 && j != pos ==> #[trigger] row[j] == row1[j]);
        }
        pos
    } else {
        assert(lastv * lastv == 1) by (nonlinear_arith)
            requires
                lastv == 1 || lastv == -1,
        ;
        assert(spec_dot(row1, row1) == 0);
        crate::distance::lemma_dot_self_nonneg(row1);
        let pos = row.len() - 1;
        assert(row[pos] == lastv);
        assert forall|j: int| 0 <= j < row.len() && j != pos implies #[trigger] row[j] == 0 by {
            assert(row1[j] == 0);
        }
        assert(one_hot(row, pos));
        pos
    }
}

/// The sum of column `c` over all rows.
pub open spec fn col_sum(m: Seq<Seq<i64>>, c: int) -> int
    decreases m.len(),
{
    if m.len() == 0 {
        0
    } else {
        col_sum(m.drop_last(), c) + m.last()[c]
    }
}

/// The rows scaled by the row count and centered: entry `(k, c)` becomes
/// `len * m[k][c] - col_sum(m, c)`, which is the centered value scaled
/// by `len`, kept exact in integers.
pub open spec fn centered_scaled(m: Seq<Seq<i64>>) -> Seq<Seq<i64>> {
    Seq::new(
        m.len(),
        |k: int| Seq::new(m[k].len(), |c: int| (m.len() * m[k][c] - col_sum(m, c)) as i64),
    )
}

/// Extends a column sum by one row at the end of a prefix.
proof fn lemma_col_sum_prefix(m: Seq<Seq<i64>>, k: int, c: int)
    requires
        0 <= k < m.len(),
    ensures
        col_sum(m.subrange(0, k + 1), c) == col_sum(m.subrange(0, k), c) + m[k][c],
{
    let m1 = m.subrange(0, k + 1);
    assert(m1.drop_last() =~= m.subrange(0, k));
    assert(m1.last() == m[k]);
}

/// A whole matrix is its own full prefix.
proof fn lemma_col_sum_full(m: Seq<Seq<i64>>, c: int)
    ensures
        col_sum(m.subrange(0, m.len() as int), c) == col_sum(m, c),
{
    assert(m.subrange(0, m.len() as int) =~= m);
}

/// Scales every row by the row count and subtracts the column sums: the
/// exact, integer part of mean-centering, scaled by the row count so
/// that nothing is rounded. The result's components stay within the
/// loose bound, so distance sums over them stay exact.
pub fn center_scaled(ds: &DenseDataset<i64>) -> (r: DenseDataset<i64>)
    requires
        crate::trees::trainable(*ds),
        1 <= ds@.len() <= MAX_DIM,
    ensures
        r.dimensionality == ds.dimensionality,
        r@ == centered_scaled(ds@),
        r.is_well_formed(),
        forall|k: int| 0 <= k < r@.len() ==> wide_vector(#[trigger] r@[k]),
{
    let n = ds.size();
    let dim = ds.dimensionality();
    let mut sums: Vec<i64> = Vec::new();
    let mut c: usize = 0;
    while c < dim
        invariant
            c <= dim,
            n == ds@.len(),
            1 <= n <= MAX_DIM,
            dim == ds.dimensionality,
            crate::trees::trainable(*ds),
            sums@.len() == c,
            forall|v: int| 0 <= v < c ==> #[trigger] sums@[v] == col_sum(ds@, v),
            forall|v: int|
                0 <= v < c ==> -(n as int) * (MAX_COMPONENT as int) <= #[trigger] sums@[v] <= (
                n as int) * (MAX_COMPONENT as int),
        decreases dim - c,
    {
        let mut acc: i64 = 0;
        let mut k: usize = 0;
        proof {
            assert(ds@.subrange(0, 0) =~= Seq::<Seq<i64>>::empty());
        }
        while k < n
            invariant
                k <= n,
                c < dim,
                n == ds@.len(),
                n <= MAX_DIM,
                dim == ds.dimensionality,
                crate::trees::trainable(*ds),
                acc == col_sum(ds@.subrange(0, k as int), c as int),
                -(k as int) * (MAX_COMPONENT as int) <= acc <= (k as int) * (MAX_COMPONENT as int),
            decreases n - k,
        {
            proof {
                lemma_col_sum_prefix(ds@, k as int, c as int);
                assert(-(MAX_COMPONENT as int) <= ds@[k as int][c as int] <= MAX_COMPONENT as int);
            }
            acc = acc + ds.row(k)[c];
            k += 1;
        }
        proof {
            lemma_col_sum_full(ds@, c as int);
        }
        sums.push(acc);
        c += 1;
    }
    let mut out: DenseDataset<i64> = DenseDataset::with_dimensionality(dim);
    let mut k: usize = 0;
    while k < n
        invariant
            k <= n,
            n == ds@.len(),
            1 <= n <= MAX_DIM,
            dim == ds.dimensionality,
            crate::trees::trainable(*ds),
            sums@.len() == dim,
            forall|v: int| 0 <= v < dim ==> #[trigger] sums@[v] == col_sum(ds@, v),
            forall|v: int|
                0 <= v < dim ==> -(n as int) * (MAX_COMPONENT as int) <= #[trigger] sums@[v] <= (
                n as int) * (MAX_COMPONENT as int),
            out.dimensionality == dim,
            out@.len() == k,
            forall|v: int| 0 <= v < k ==> #[trigger] out@[v] == centered_scaled(ds@)[v],
            forall|v: int| 0 <= v < k ==> (#[trigger] out@[v]).len() == dim,
            forall|v: int| 0 <= v < k ==> wide_vector(#[trigger] out@[v]),
        decreases n - k,
    {
        let row = ds.row(k);
        let mut new_row: Vec<i64> = Vec::new();
        let mut c2: usize = 0;
        while c2 < dim
            invariant
                c2 <= dim,
                k < n,
                n == ds@.len(),
                1 <= n <= MAX_DIM,
                dim == ds.dimensionality,
                crate::trees::trainable(*ds),
                row@ == ds@[k as int],
                sums@.len() == dim,
                forall|v: int| 0 <= v < dim ==> #[trigger] sums@[v] == col_sum(ds@, v),
                forall|v: int|
                    0 <= v < dim ==> -(n as int) * (MAX_COMPONENT as int) <= #[trigger] sums@[v]
                        <= (n as int) * (MAX_COMPONENT as int),
                new_row@.len() == c2,
                forall|v: int|
                    0 <= v < c2 ==> #[trigger] new_row@[v] == (n as int) * (ds@[k as int][v] as int)
                        - col_sum(ds@, v),
                forall|v: int|
                    0 <= v < c2 ==> -(MAX_WIDE as int) <= #[trigger] new_row@[v] <= MAX_WIDE as int,
            decreases dim - c2,
        {
            proof {
                assert(-(MAX_DIM as int) * (MAX_COMPONENT as int) <= (n as int) * (
                ds@[k as int][c2 as int] as int) <= (MAX_DIM as int) * (MAX_COMPONENT as int))
                    by (nonlinear_arith)
                    requires
                        1 <= n as int <= MAX_DIM as int,
                        -(MAX_COMPONENT as int) <= ds@[k as int][c2 as int] as int <= (
                        MAX_COMPONENT as int),
                ;
                assert(-(MAX_DIM as int) * (MAX_COMPONENT as int) <= sums@[c2 as int] as int <= (
                MAX_DIM as int) * (MAX_COMPONENT as int)) by (nonlinear_arith)
                    requires
                        -(n as int) * (MAX_COMPONENT as int) <= sums@[c2 as int] as int <= (
                        n as int) * (MAX_COMPONENT as int),
                        1 <= n as int <= MAX_DIM as int,
                ;
            }
            let scaled: i64 = (n as i64) * row[c2];
            new_row.push(scaled - sums[c2]);
            c2 += 1;
        }
        let ghost prev = out@;
        out.data.push(new_row);
        proof {
            assert(out@ =~= prev.push(new_row@));
            assert(out@[k as int] =~= centered_scaled(ds@)[k as int]);
        }
        k += 1;
    }
    proof {
        assert(out@ =~= centered_scaled(ds@));
    }
    out
}

/// The Gram matrix of the rows' columns: entry `(i, j)` is the inner
/// product of columns `i` and `j`. Applied to `center_scaled` output it
/// is the data covariance scaled by the squared row count, exact in
/// integers; an eigensolver can take it from here.
pub fn column_gram(ds: &DenseDataset<i64>) -> (r: Vec<Vec<i128>>)
    requires
        ds.is_well_formed(),
        ds@.len() <= MAX_DIM,
        ds.dimensionality <= MAX_DIM,
        forall|k: int| 0 <= k < ds@.len() ==> wide_vector(#[trigger] ds@[k]),
    ensures
        r@.len() == ds.dimensionality,
        forall|i: int| 0 <= i < r@.len() ==> (#[trigger] r@[i])@.len() == ds.dimensionality,
        forall|i: int, j: int|
            0 <= i < ds.dimensionality && 0 <= j < ds.dimensionality ==> #[trigger] r@[i]@[j]
                == spec_dot(column(ds@, i), column(ds@, j)),
{
    let n = ds.size();
    let dim = ds.dimensionality();
    let mut out: Vec<Vec<i128>> = Vec::new();
    let mut i: usize = 0;
    while i < dim
        invariant
            i <= dim,
            n == ds@.len(),
            n <= MAX_DIM,
            dim == ds.dimensionality,
            dim <= MAX_DIM,
            ds.is_well_formed(),
            forall|k: int| 0 <= k < ds@.len() ==> wide_vector(#[trigger] ds@[k]),
            out@.len() == i,
            forall|v: int| 0 <= v < i ==> (#[trigger] out@[v])@.len() == dim,
            forall|v: int, j: int|
                0 <= v < i && 0 <= j < dim ==> #[trigger] out@[v]@[j] == spec_dot(
                    column(ds@, v),
                    column(ds@, j),
                ),
        decreases dim - i,
    {
        let mut coli: Vec<i64> = Vec::new();
        let mut k: usize = 0;
        while k < n
            invariant
                k <= n,
                i < dim,
                n == ds@.len(),
                dim == ds.dimensionality,
                ds.is_well_formed(),
                forall|w: int| 0 <= w < ds@.len() ==> wide_vector(#[trigger] ds@[w]),
                coli@.len() == k,
                forall|w: int| 0 <= w < k ==> #[trigger] coli@[w] == ds@[w][i as int],
            decreases n - k,
        {
            coli.push(ds.row(k)[i]);
            k += 1;
        }
        proof {
            assert(coli@ =~= column(ds@, i as int));
            assert(wide_vector(coli@)) by {
                assert(forall|w: int|
                    0 <= w < coli@.len() ==> -(MAX_WIDE as int) <= #[trigger] coli@[w]
                        <= MAX_WIDE as int);
            }
        }
        let mut row_out: Vec<i128> = Vec::new();
        let mut j: usize = 0;
        while j < dim
            invariant
                j <= dim,
                i < dim,
                n == ds@.len(),
                n <= MAX_DIM,
                dim == ds.dimensionality,
                dim <= MAX_DIM,
                ds.is_well_formed(),
                forall|w: int| 0 <= w < ds@.len() ==> wide_vector(#[trigger] ds@[w]),
                coli@ == column(ds@, i as int),
                wide_vector(coli@),
                row_out@.len() == j,
                forall|v: int|
                    0 <= v < j ==> #[trigger] row_out@[v] == spec_dot(
                        column(ds@, i as int),
                        column(ds@, v),
                    ),
            decreases dim - j,
        {
            let mut colj: Vec<i64> = Vec::new();
            let mut k2: usize = 0;
            while k2 < n
                invariant
                    k2 <= n,
                    i < dim,
                    j < dim,
                    n == ds@.len(),
                    dim == ds.dimensionality,
                    ds.is_well_formed(),
                    forall|w: int| 0 <= w < ds@.len() ==> wide_vector(#[trigger] ds@[w]),
                    colj@.len() == k2,
                    forall|w: int| 0 <= w < k2 ==> #[trigger] colj@[w] == ds@[w][j as int],
                decreases n - k2,
            {
                colj.push(ds.row(k2)[j]);
                k2 += 1;
            }
            proof {
                assert(colj@ =~= column(ds@, j as int));
                assert(wide_vector(colj@)) by {
                    assert(forall|w: int|
                        0 <= w < colj@.len() ==> -(MAX_WIDE as int) <= #[trigger] colj@[w]
                            <= MAX_WIDE as int);
                }
            }
            let d = crate::distance::sum_products(coli.as_slice(), colj.as_slice());
            row_out.push(d);
            j += 1;
        }
        out.push(row_out);
        i += 1;
    }
    out
}

/// The sum of the first `upto` eigenvalues.
pub open spec fn prefix_sum_vals(vals: Seq<i64>, upto: int) -> int
    decreases upto,
{
    if upto <= 0 {
        0
    } else {
        prefix_sum_vals(vals, upto - 1) + vals[upto - 1]
    }
}

/// The first `n` eigenvalues cover the significance threshold: their
/// share of the total variance, in fixed point, reaches
/// `significance_fp / SCALE`.
pub open spec fn covers_significance(vals: Seq<i64>, n: int, significance_fp: i64) -> bool {
    prefix_sum_vals(vals, n) * (crate::distance::SCALE as int) >= (significance_fp as int)
        * prefix_sum_vals(vals, vals.len() as int)
}

/// Eigenvalue `i` falls below `truncation_fp / SCALE` of the largest.
pub open spec fn truncated_component(vals: Seq<i64>, i: int, truncation_fp: i64) -> bool {
    (vals[i] as int) * (crate::distance::SCALE as int) < (truncation_fp as int) * (vals[0] as int)
}

/// How many leading eigenvectors a thresholded fit retains: components
/// are kept, in eigenvalue order, until the kept ones cover the
/// significance threshold or the next one is truncated; at least one is
/// always kept. The result is the least count at which a stop reason
/// holds.
pub fn retained_components(eigenvalues: &Vec<i64>, significance_fp: i64, truncation_fp: i64) -> (n:
    usize)
    requires
        1 <= eigenvalues@.len() <= MAX_DIM,
        forall|i: int| 0 <= i < eigenvalues@.len() ==> #[trigger] eigenvalues@[i] >= 0,
        forall|i: int, j: int|
            0 <= i < j < eigenvalues@.len() ==> #[trigger] eigenvalues@[i]
                >= #[trigger] eigenvalues@[j],
        0 <= significance_fp <= crate::distance::SCALE,
        0 <= truncation_fp <= crate::distance::SCALE,
    ensures
        1 <= n <= eigenvalues@.len(),
        forall|m: int|
            1 <= m < n ==> !covers_significance(eigenvalues@, m, significance_fp)
                && !truncated_component(eigenvalues@, m, truncation_fp),
        n < eigenvalues@.len() ==> covers_significance(eigenvalues@, n as int, significance_fp)
            || truncated_component(eigenvalues@, n as int, truncation_fp),
{
    let len = eigenvalues.len();
    let mut total: i128 = 0;
    let mut i: usize = 0;
    while i < len
        invariant
            i <= len,
            len == eigenvalues@.len(),
            len <= MAX_DIM,
            forall|v: int| 0 <= v < len ==> #[trigger] eigenvalues@[v] >= 0,
            total == prefix_sum_vals(eigenvalues@, i as int),
            0 <= total <= (i as int) * 0x8000_0000_0000_0000,
        decreases len - i,
    {
        total = total + (eigenvalues[i] as i128);
        i += 1;
    }
    let mut prefix: i128 = eigenvalues[0] as i128;
    proof {
        assert(prefix_sum_vals(eigenvalues@, 0) == 0);
    }
    let mut n: usize = 1;
    while n < len
        invariant
            1 <= n <= len,
            len == eigenvalues@.len(),
            len <= MAX_DIM,
            forall|v: int| 0 <= v < len ==> #[trigger] eigenvalues@[v] >= 0,
            0 <= significance_fp <= crate::distance::SCALE,
            0 <= truncation_fp <= crate::distance::SCALE,
            total == prefix_sum_vals(eigenvalues@, len as int),
            0 <= total <= (len as int) * 0x8000_0000_0000_0000,
            prefix == prefix_sum_vals(eigenvalues@, n as int),
            0 <= prefix <= (n as int) * 0x8000_0000_0000_0000,
            forall|m: int|
                1 <= m < n ==> !covers_significance(eigenvalues@, m, significance_fp)
                    && !truncated_component(eigenvalues@, m, truncation_fp),
        decreases len - n,
    {
        proof {
            assert((significance_fp as int) * total <= (crate::distance::SCALE as int) * ((
            len as int) * 0x8000_0000_0000_0000)) by (nonlinear_arith)
                requires
                    0 <= significance_fp as int <= crate::distance::SCALE as int,
                    0 <= total <= (len as int) * 0x8000_0000_0000_0000,
            ;
            assert((crate::distance::SCALE as int) * ((MAX_DIM as int) * 0x8000_0000_0000_0000)
                < 0x8000_0000_0000_0000_0000_0000_0000_0000int) by (nonlinear_arith);
            assert((len as int) * 0x8000_0000_0000_0000 <= (MAX_DIM as int)
                * 0x8000_0000_0000_0000) by (nonlinear_arith)
                requires
                    len as int <= MAX_DIM as int,
            ;
            assert(prefix * (crate::distance::SCALE as int) <= ((MAX_DIM as int)
                * 0x8000_0000_0000_0000) * (crate::distance::SCALE as int)) by (nonlinear_arith)
                requires
                    0 <= prefix <= (MAX_DIM as int) * 0x8000_0000_0000_0000,
            ;
            assert(((MAX_DIM as int) * 0x8000_0000_0000_0000) * (crate::distance::SCALE as int)
                < 0x8000_0000_0000_0000_0000_0000_0000_0000int) by (nonlinear_arith);
            assert((truncation_fp as int) * (eigenvalues@[0] as int)
                < 0x8000_0000_0000_0000_0000_0000_0000_0000int) by (nonlinear_arith)
                requires
                    0 <= truncation_fp as int <= crate::distance::SCALE as int,
                    0 <= eigenvalues@[0] as int,
                    (eigenvalues@[0] as int) < 0x8000_0000_0000_0000,
            ;
        }
        if prefix * (crate::distance::SCALE as i128) >= (significance_fp as i128) * total {
            return n;
        }
        if (eigenvalues[n] as i128) * (crate::distance::SCALE as i128) < (truncation_fp as i128) * (
        eigenvalues[0] as i128) {
            return n;
        }
        prefix = prefix + (eigenvalues[n] as i128);
        n += 1;
    }
    n
}

/// A usable set of basis rows: between one and `input_dims` of them,
/// each of the input dimensionality with components bounded by
/// `MAX_COMPONENT`.
pub open spec fn rows_ok(rows: Seq<Seq<i64>>, input_dims: int) -> bool {
    &&& 1 <= rows.len() <= input_dims
    &&& forall|r: int|
        0 <= r < rows.len() ==> (#[trigger] rows[r]).len() == input_dims && narrow_vector(rows[r])
}

/// A usable eigenvector set: usable rows declared at the input
/// dimensionality.
pub open spec fn eigenvectors_ok(ev: DenseDataset<i64>, input_dims: int) -> bool {
    rows_ok(ev@, input_dims) && ev.dimensionality == input_dims
}

/// The rows a serialized projection carries, as plain sequences.
pub open spec fn serialized_rows(sp: SerializedProjection) -> Seq<Seq<i64>> {
    Seq::new(sp.rotation_vec@.len(), |r: int| sp.rotation_vec@[r].feature_values@)
}

/// A linear projection onto basis rows learned elsewhere (by a principal
/// component analysis) and installed here.
#[derive(Debug)]
pub struct PcaProjection {
    pub input_dims: i32,
    pub projected_dims: i32,
    pub pca_vecs: Option<DenseDataset<i64>>,
}

impl PcaProjection {
    /// The standing shape invariant: positive bounded dimensions, and an
    /// installed basis (if any) of `projected_dims` rows of `input_dims`
    /// bounded components.
    pub open spec fn basis_ok(&self) -> bool {
        &&& 1 <= self.projected_dims <= self.input_dims <= MAX_DIM
        &&& match self.pca_vecs {
            Some(d) => {
                &&& d.dimensionality == self.input_dims
                &&& d@.len() == self.projected_dims
                &&& forall|r: int|
                    0 <= r < d@.len() ==> (#[trigger] d@[r]).len() == self.input_dims
                        && narrow_vector(d@[r])
            },
            None => true,
        }
    }

    /// Declares the projection shape; no basis is installed yet. Fails
    /// with `InvalidArgument`, and only then, when a dimension is not
    /// positive, the projected dimensionality exceeds the input one, or
    /// the input dimensionality exceeds `MAX_DIM`.
    pub fn new(input_dims: i32, projected_dims: i32) -> (r: Result<Self, ScannError>)
        ensures
            1 <= projected_dims <= input_dims <= MAX_DIM ==> (r matches Ok(p) && p.input_dims
                == input_dims && p.projected_dims == projected_dims && p.pca_vecs is None
                && p.basis_ok()),
            !(1 <= projected_dims <= input_dims <= MAX_DIM) ==> (r matches Err(e) && e.kind
                == ErrorKind::InvalidArgument),
    {
        if input_dims <= 0 {
            return Err(invalid_argument_error("Input dimensionality must be > 0"));
        }
        if projected_dims <= 0 {
            return Err(invalid_argument_error("Projected dimensionality must be > 0"));
        }
        if input_dims < projected_dims {
            return Err(
                invalid_argument_error(
                    "The projected dimensions cannot be larger than input dimensions",
                ),
            );
        }
        if input_dims > 1048576 {
            return Err(invalid_argument_error("Input dimensionality exceeds the supported bound"));
        }
        Ok(PcaProjection { input_dims, projected_dims, pca_vecs: None })
    }

    /// Installs an eigenvector basis, replacing any previous one, and
    /// redeclares `projected_dims` as the row count, which callers must
    /// observe. Fails with `InvalidArgument`, leaving the projection
    /// unchanged, exactly when the rows do not form a usable basis.
    pub fn create_from_eigenvectors(&mut self, eigenvectors: DenseDataset<i64>) -> (r: Result<
        (),
        ScannError,
    >)
        requires
            old(self).basis_ok(),
        ensures
            final(self).basis_ok(),
            final(self).input_dims == old(self).input_dims,
            eigenvectors_ok(eigenvectors, old(self).input_dims as int) ==> (r is Ok && (final(self).pca_vecs matches Some(d) && d@ == eigenvectors@ && final(self).projected_dims
                == eigenvectors@.len())),
            !eigenvectors_ok(eigenvectors, old(self).input_dims as int) ==> (r matches Err(e)
                && e.kind == ErrorKind::InvalidArgument && final(self).pca_vecs == old(self).pca_vecs && final(self).projected_dims == old(self).projected_dims),
    {
        let rows = eigenvectors.size();
        if rows == 0 || rows > self.input_dims as usize || eigenvectors.dimensionality() != (
        self.input_dims as usize) {
            return Err(
                invalid_argument_error("Eigenvector matrix shape does not fit this projection"),
            );
        }
        let mut r: usize = 0;
        while r < rows
            invariant
                r <= rows,
                rows == eigenvectors@.len(),
                eigenvectors.dimensionality == old(self).input_dims as int,
                *self == *old(self),
                old(self).basis_ok(),
                forall|v: int|
                    0 <= v < r ==> (#[trigger] eigenvectors@[v]).len() == old(self).input_dims
                        as int && narrow_vector(eigenvectors@[v]),
            decreases rows - r,
        {
            let row = eigenvectors.row(r);
            if row.len() != self.input_dims as usize {
                return Err(
                    invalid_argument_error("Eigenvector matrix shape does not fit this projection"),
                );
            }
            let mut c: usize = 0;
            while c < row.len()
                invariant
                    c <= row@.len(),
                    r < eigenvectors@.len(),
                    row@ == eigenvectors@[r as int],
                    row@.len() == old(self).input_dims as int,
                    *self == *old(self),
                    old(self).basis_ok(),
                    forall|w: int|
                        0 <= w < c ==> -(MAX_COMPONENT as int) <= #[trigger] row@[w] <= (
                        MAX_COMPONENT as int),
                decreases row@.len() - c,
            {
                let x = row[c];
                if x < -MAX_COMPONENT || x > MAX_COMPONENT {
                    return Err(
                        invalid_argument_error("Eigenvector components exceed the supported bound"),
                    );
                }
                c += 1;
            }
            proof {
                assert(narrow_vector(eigenvectors@[r as int]));
            }
            r += 1;
        }
        self.projected_dims = rows as i32;
        self.pca_vecs = Some(eigenvectors);
        Ok(())
    }

    /// Installs a basis from its flat row-major serialized form. Fails
    /// with `InvalidArgument`, leaving the projection unchanged, when the
    /// serialized basis is empty or its rows do not form a usable basis.
    pub fn create_from_serialized(&mut self, serialized_projection: &SerializedProjection) -> (r:
        Result<(), ScannError>)
        requires
            old(self).basis_ok(),
        ensures
            final(self).basis_ok(),
            final(self).input_dims == old(self).input_dims,
            rows_ok(serialized_rows(*serialized_projection), old(self).input_dims as int) ==> (r
                is Ok && (final(self).pca_vecs matches Some(d2) && d2@ == serialized_rows(
                *serialized_projection,
            ) && final(self).projected_dims == serialized_rows(*serialized_projection).len())),
            !rows_ok(serialized_rows(*serialized_projection), old(self).input_dims as int) ==> (r
                matches Err(e) && e.kind == ErrorKind::InvalidArgument && final(self).pca_vecs
                == old(self).pca_vecs && final(self).projected_dims == old(self).projected_dims),
    {
        if serialized_projection.rotation_vec_size() == 0 {
            return Err(
                invalid_argument_error(
                    "Serialized projection rotation matrix is empty in PcaProjection::create_from_serialized.",
                ),
            );
        }
        let count = serialized_projection.rotation_vec.len();
        let mut data: Vec<Vec<i64>> = Vec::new();
        let mut r: usize = 0;
        while r < count
            invariant
                r <= count,
                count == serialized_projection.rotation_vec@.len(),
                data@.len() == r,
                forall|v: int|
                    0 <= v < r ==> (#[trigger] data@[v])@
                        == serialized_projection.rotation_vec@[v].feature_values@,
            decreases count - r,
        {
            let row = serialized_projection.rotation_vec[r].feature_values.clone();
            proof {
                assert(row@ =~= serialized_projection.rotation_vec@[r as int].feature_values@);
            }
            data.push(row);
            r += 1;
        }
        let dim = self.input_dims as usize;
        let ds = DenseDataset::new(data, dim);
        proof {
            assert(ds@ =~= serialized_rows(*serialized_projection));
        }
        self.create_from_eigenvectors(ds)
    }

    /// Projects one vector: `projected[i] = dot(basis_row[i], input)`,
    /// the exact linear map. Fails with `FailedPrecondition` when no
    /// basis has been installed, and with `InvalidArgument` when the
    /// input length is not `input_dims`; either way the output vector is
    /// untouched.
    pub fn project_input(&self, input: &DatapointPtr<i64>, projected: &mut DatapointPtr<i64>) -> (r:
        Result<(), ScannError>)
        requires
            self.basis_ok(),
            narrow_vector(input@),
        ensures
            self.pca_vecs is None ==> (r matches Err(e) && e.kind == ErrorKind::FailedPrecondition
                && final(projected)@ == old(projected)@),
            self.pca_vecs matches Some(d) ==> (input@.len() == self.input_dims ==> (r is Ok
                && final(projected)@.len() == self.projected_dims && wide_vector(final(projected)@)
                && forall|i: int|
                0 <= i < final(projected)@.len() ==> #[trigger] final(projected)@[i] == spec_dot(
                    d@[i],
                    input@,
                ))),
            self.pca_vecs is Some && input@.len() != self.input_dims ==> (r matches Err(e) && e.kind
                == ErrorKind::InvalidArgument && final(projected)@ == old(projected)@),
    {
        let pca_vecs = match &self.pca_vecs {
            Some(d) => d,
            None => {
                return Err(failed_precondition_error("First compute the PCA directions."));
            },
        };
        if input.values().len() != self.input_dims as usize {
            return Err(
                invalid_argument_error("Input length differs from the projection's dimensionality"),
            );
        }
        let ghost d = *pca_vecs;
        let rows = pca_vecs.size();
        let mut out: Vec<i64> = Vec::new();
        let mut i: usize = 0;
        while i < rows
            invariant
                i <= rows,
                rows == d@.len(),
                *pca_vecs == d,
                self.pca_vecs == Some(d),
                self.basis_ok(),
                narrow_vector(input@),
                input@.len() == self.input_dims as int,
                out@.len() == i,
                forall|v: int| 0 <= v < i ==> #[trigger] out@[v] == spec_dot(d@[v], input@),
                forall|v: int|
                    0 <= v < i ==> -(MAX_WIDE as int) <= #[trigger] out@[v] <= MAX_WIDE as int,
            decreases rows - i,
        {
            let row = pca_vecs.row(i);
            proof {
                crate::distance::lemma_narrow_implies_wide(d@[i as int]);
                crate::distance::lemma_narrow_implies_wide(input@);
                crate::distance::lemma_dot_bounds_narrow(d@[i as int], input@);
            }
            let dot = crate::distance::sum_products(row.as_slice(), input.values());
            out.push(dot as i64);
            i += 1;
        }
        projected.values = out;
        Ok(())
    }

    /// Replaces the basis `P` by `O * P` for a freshly generated
    /// orthonormal signed-permutation matrix `O`, preserving the spanned
    /// subspace while decorrelating axis-aligned error. Fails with
    /// `FailedPrecondition`, leaving the projection unchanged, exactly
    /// when no basis has been installed.
    pub fn random_rotate_projection_matrix(&mut self) -> (r: Result<(), ScannError>)
        requires
            old(self).basis_ok(),
        ensures
            final(self).basis_ok(),
            final(self).input_dims == old(self).input_dims,
            final(self).projected_dims == old(self).projected_dims,
            old(self).pca_vecs is None ==> (r matches Err(e) && e.kind
                == ErrorKind::FailedPrecondition && final(self).pca_vecs == old(self).pca_vecs),
            old(self).pca_vecs matches Some(d) ==> (r is Ok && (final(self).pca_vecs matches Some(
                d2,
            ) && d2@.len() == d@.len() && d2.dimensionality == d.dimensionality && rotated(
                spec_signed_permutation_basis(d@.len() as nat, d@.len() as nat, 42),
                d@,
                d2@,
            ))),
    {
        let p: usize = self.projected_dims as usize;
        let dim: usize = self.input_dims as usize;
        if self.pca_vecs.is_none() {
            return Err(failed_precondition_error("No PCA vectors to rotate."));
        }
        let mut ortho = RandomOrthogonalProjection::new(p, p, 42);
        let created = ortho.create();
        proof {
            assert(created is Ok);
        }
        let ghost odv: DenseDataset<i64> = ortho.directions->Some_0;
        let mut new_data: Vec<Vec<i64>> = Vec::new();
        {
            let od = match &ortho.directions {
                Some(d) => d,
                None => {
                    return Err(failed_precondition_error("Orthogonal vectors not initialized"));
                },
            };
            let oldd = match &self.pca_vecs {
                Some(d) => d,
                None => {
                    return Err(failed_precondition_error("No PCA vectors to rotate."));
                },
            };
            let ghost oldv: DenseDataset<i64> = *oldd;
            let mut r: usize = 0;
            while r < p
                invariant
                    r <= p,
                    *self == *old(self),
                    old(self).basis_ok(),
                    p == old(self).projected_dims as int,
                    dim == old(self).input_dims as int,
                    *od == odv,
                    *oldd == oldv,
                    self.pca_vecs == Some(oldv),
                    orthonormal_basis(odv, p as int, p as int),
                    new_data@.len() == r,
                    forall|v: int|
                        0 <= v < r ==> (#[trigger] new_data@[v])@.len() == dim && narrow_vector(
                            new_data@[v]@,
                        ),
                    forall|v: int, c: int|
                        0 <= v < r && 0 <= c < dim ==> #[trigger] new_data@[v]@[c] == spec_dot(
                            odv@[v],
                            column(oldv@, c),
                        ),
                decreases p - r,
            {
                let orow = od.row(r);
                let mut new_row: Vec<i64> = Vec::new();
                let mut c: usize = 0;
                while c < dim
                    invariant
                        c <= dim,
                        r < p,
                        *od == odv,
                        *oldd == oldv,
                        old(self).basis_ok(),
                        self.pca_vecs == Some(oldv),
                        p == old(self).projected_dims as int,
                        dim == old(self).input_dims as int,
                        orow@ == odv@[r as int],
                        orthonormal_basis(odv, p as int, p as int),
                        new_row@.len() == c,
                        forall|w: int|
                            0 <= w < c ==> #[trigger] new_row@[w] == spec_dot(
                                odv@[r as int],
                                column(oldv@, w),
                            ),
                        forall|w: int|
                            0 <= w < c ==> -(MAX_COMPONENT as int) <= #[trigger] new_row@[w] <= (
                            MAX_COMPONENT as int),
                    decreases dim - c,
                {
                    let mut col: Vec<i64> = Vec::new();
                    let mut s: usize = 0;
                    while s < p
                        invariant
                            s <= p,
                            *oldd == oldv,
                            old(self).basis_ok(),
                            self.pca_vecs == Some(oldv),
                            p == old(self).projected_dims as int,
                            dim == old(self).input_dims as int,
                            c < dim,
                            col@.len() == s,
                            forall|w: int| 0 <= w < s ==> #[trigger] col@[w] == oldv@[w][c as int],
                        decreases p - s,
                    {
                        col.push(oldd.row(s)[c]);
                        s += 1;
                    }
                    proof {
                        assert(col@ =~= column(oldv@, c as int));
                        assert(narrow_vector(col@)) by {
                            assert(forall|w: int|
                                0 <= w < col@.len() ==> -(MAX_COMPONENT as int) <= #[trigger] col@[w]
                                    <= (MAX_COMPONENT as int)) by {
                                assert(forall|w: int|
                                    0 <= w < p ==> narrow_vector(#[trigger] oldv@[w]));
                            }
                        }
                        crate::distance::lemma_narrow_implies_wide(col@);
                        assert(narrow_vector(odv@[r as int])) by {
                            assert(forall|j: int|
                                0 <= j < p ==> -1 <= #[trigger] odv@[r as int][j] <= 1);
                        }
                        crate::distance::lemma_narrow_implies_wide(odv@[r as int]);
                    }
                    let val = crate::distance::sum_products(orow.as_slice(), col.as_slice());
                    proof {
                        let pos = lemma_unit_row_one_hot(odv@[r as int]);
                        assert(forall|j: int|
                            0 <= j < p && j != pos ==> #[trigger] (odv@[r as int][j] * col@[j])
                                == 0) by {
                            assert(forall|j: int|
                                0 <= j < p && j != pos ==> #[trigger] odv@[r as int][j] == 0);
                        }
                        lemma_dot_single(odv@[r as int], col@, pos);
                        assert(-(MAX_COMPONENT as int) <= odv@[r as int][pos] * col@[pos] <= (
                        MAX_COMPONENT as int)) by (nonlinear_arith)
                            requires
                                odv@[r as int][pos] == 1 || odv@[r as int][pos] == -1,
                                -(MAX_COMPONENT as int) <= col@[pos] <= (MAX_COMPONENT as int),
                        ;
                    }
                    new_row.push(val as i64);
                    c += 1;
                }
                proof {
                    assert(narrow_vector(new_row@));
                }
                new_data.push(new_row);
                proof {
                    assert(forall|v: int, cc: int|
                        0 <= v < r + 1 && 0 <= cc < dim ==> #[trigger] new_data@[v]@[cc]
                            == spec_dot(odv@[v], column(oldv@, cc)));
                }
                r += 1;
            }
        }
        let ds = DenseDataset::new(new_data, dim);
        let ghost oldv: DenseDataset<i64> = self.pca_vecs->Some_0;
        self.pca_vecs = Some(ds);
        proof {
            let d2: DenseDataset<i64> = self.pca_vecs->Some_0;
            assert(rotated(odv@, oldv@, d2@)) by {
                assert(forall|v: int, cc: int|
                    0 <= v < d2@.len() && 0 <= cc < oldv@[0].len() ==> #[trigger] d2@[v][cc]
                        == spec_dot(odv@[v], column(oldv@, cc)));
            }
            assert(odv@ == spec_signed_permutation_basis(
                oldv@.len() as nat,
                oldv@.len() as nat,
                42,
            ));
        }
        Ok(())
    }

    /// The installed basis, if any.
    pub fn get_directions(&self) -> (r: &Option<DenseDataset<i64>>)
        ensures
            r == &self.pca_vecs,
    {
        &self.pca_vecs
    }

    /// The basis in its flat row-major serialized form; `None` when no
    /// basis has been installed.
    pub fn serialize_to_proto(&self) -> (r: Option<SerializedProjection>)
        ensures
            self.pca_vecs is None ==> r is None,
            self.pca_vecs matches Some(d) ==> (r matches Some(sp) && serialized_rows(sp) == d@),
    {
        let pca_vecs = match &self.pca_vecs {
            Some(d) => d,
            None => {
                return None;
            },
        };
        let ghost d = *pca_vecs;
        let rows = pca_vecs.size();
        let mut out: Vec<GenericFeatureVector> = Vec::new();
        let mut i: usize = 0;
        while i < rows
            invariant
                i <= rows,
                rows == d@.len(),
                *pca_vecs == d,
                self.pca_vecs == Some(d),
                out@.len() == i,
                forall|v: int| 0 <= v < i ==> (#[trigger] out@[v]).feature_values@ == d@[v],
            decreases rows - i,
        {
            let row = pca_vecs.row(i).clone();
            proof {
                assert(row@ =~= d@[i as int]);
            }
            out.push(GenericFeatureVector { feature_values: row });
            i += 1;
        }
        let sp = SerializedProjection { rotation_vec: out };
        proof {
            assert(serialized_rows(sp) =~= d@);
        }
        Some(sp)
    }
}

} // verus!
