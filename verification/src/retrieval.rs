//! The query-time retrieval engine.
//!
//! `search` is the brute-force correctness baseline: it scores the query
//! against every stored vector under the configured distance measure and
//! returns the k smallest, distance-ascending, ties broken by ascending
//! point id. The partitioned searches prune candidates through a trained
//! tree - one leaf, or several under spilling-aware expansion - and are
//! approximate by design: their contracts rank exactly what the chosen
//! leaves hold, never the whole store. `retrieve_chunks` windows a token
//! sequence into fixed-size chunks and runs one search per chunk.

use vstd::prelude::*;

use crate::dataset::DatapointPtr;
use crate::dataset::DenseDataset;
use crate::distance::DistanceMeasure;
use crate::distance::distance_on_slices;
use crate::distance::measure_needs_narrow;
use crate::distance::narrow_vector;
use crate::distance::spec_distance;
use crate::distance::wide_vector;
use crate::error::ErrorKind;
use crate::error::ScannError;
use crate::error::invalid_argument_error;

verus! {

/// Candidate order: by distance, ties by point id; non-strict.
pub open spec fn cand_le(x: (usize, i128), y: (usize, i128)) -> bool {
    x.1 < y.1 || (x.1 == y.1 && x.0 <= y.0)
}

/// Candidate order: by distance, ties by point id; strict.
pub open spec fn cand_lt(x: (usize, i128), y: (usize, i128)) -> bool {
    x.1 < y.1 || (x.1 == y.1 && x.0 < y.0)
}

/// Candidates sorted by distance, ties by id.
pub open spec fn sorted_cands(s: Seq<(usize, i128)>) -> bool {
    forall|p: int, q: int| 0 <= p < q < s.len() ==> cand_le(#[trigger] s[p], #[trigger] s[q])
}

/// Every stored vector has the store's dimensionality and the component
/// bounds the measure needs.
pub open spec fn dataset_ok(ds: DenseDataset<i64>, m: DistanceMeasure) -> bool {
    ds.is_well_formed() && forall|i: int|
        0 <= i < ds@.len() ==> wide_vector(#[trigger] ds@[i]) && (measure_needs_narrow(m)
            ==> narrow_vector(ds@[i]))
}

/// The bounds a query vector needs for the given measure.
pub open spec fn query_ok(q: Seq<i64>, m: DistanceMeasure) -> bool {
    wide_vector(q) && (measure_needs_narrow(m) ==> narrow_vector(q))
}

/// Entry `e` sorts no later than point `c` at distance `d`.
pub open spec fn dominates(e: (usize, i128), d: int, c: int) -> bool {
    e.1 < d || (e.1 == d && e.0 <= c)
}

/// What a finished search returns: exactly `min(k, |dataset|)` entries,
/// each a stored point id with its exact distance from the query, in
/// strictly increasing (distance, id) order, and no omitted point beats a
/// returned one.
pub open spec fn search_result_valid(
    ds: Seq<Seq<i64>>,
    m: DistanceMeasure,
    k: int,
    q: Seq<i64>,
    res: Seq<(usize, i128)>,
) -> bool {
    &&& res.len() == vstd::math::min(k, ds.len() as int)
    &&& forall|j: int|
        0 <= j < res.len() ==> (#[trigger] res[j]).0 < ds.len() && res[j].1 == spec_distance(
            m,
            q,
            ds[res[j].0 as int],
        )
    &&& forall|p: int, j: int| 0 <= p < j < res.len() ==> cand_lt(#[trigger] res[p], #[trigger] res[j])
    &&& forall|c: int|
        #![trigger ds[c]]
        0 <= c < ds.len() ==> (exists|j: int|
            0 <= j < res.len() && (#[trigger] res[j]).0 == c) || (forall|j: int|
            0 <= j < res.len() ==> dominates(#[trigger] res[j], spec_distance(m, q, ds[c]), c))
}

/// What ranking a candidate id list returns: exactly `min(k, |cands|)`
/// entries, each a candidate id with its exact distance, in strictly
/// increasing (distance, id) order, and no omitted candidate beats a
/// returned one.
pub open spec fn candidates_result_valid(
    ds: Seq<Seq<i64>>,
    m: DistanceMeasure,
    k: int,
    q: Seq<i64>,
    cands: Seq<usize>,
    res: Seq<(usize, i128)>,
) -> bool {
    &&& res.len() == vstd::math::min(k, cands.len() as int)
    &&& forall|j: int|
        0 <= j < res.len() ==> (#[trigger] res[j]).0 < ds.len() && res[j].1 == spec_distance(
            m,
            q,
            ds[res[j].0 as int],
        ) && cands.contains(res[j].0)
    &&& forall|p: int, j: int| 0 <= p < j < res.len() ==> cand_lt(#[trigger] res[p], #[trigger] res[j])
    &&& forall|w: int|
        #![trigger cands[w]]
        0 <= w < cands.len() ==> (exists|j: int|
            0 <= j < res.len() && (#[trigger] res[j]).0 == cands[w]) || (forall|j: int|
            0 <= j < res.len() ==> dominates(
                #[trigger] res[j],
                spec_distance(m, q, ds[cands[w] as int]),
                cands[w] as int,
            ))
}

/// What the partitioned search returns: the ranking of the distinct
/// point ids of the one leaf the nearest-child descent reaches for the
/// tree-space query.
pub open spec fn partitioned_result_valid(
    ds: Seq<Seq<i64>>,
    m: DistanceMeasure,
    k: int,
    q: Seq<i64>,
    tree: crate::trees::KMeansTree,
    tq: Seq<i64>,
    res: Seq<(usize, i128)>,
) -> bool {
    let leaf = crate::trees::spec_nearest_leaf(tree, m, tq);
    &&& 0 <= leaf < tree.nodes@.len()
    &&& tree.nodes@[leaf].children@.len() == 0
    &&& exists|cands: Seq<usize>|
        cands.no_duplicates() && (forall|x: usize|
            cands.contains(x) <==> tree.nodes@[leaf].point_ids@.contains(x))
            && #[trigger] candidates_result_valid(ds, m, k, q, cands, res)
}

/// Leaf `a` sorts no later than leaf `b` for the tree-space query: by
/// center distance, ties by the lower arena index.
pub open spec fn leaf_le(
    tree: crate::trees::KMeansTree,
    m: DistanceMeasure,
    tq: Seq<i64>,
    a: int,
    b: int,
) -> bool {
    let da = spec_distance(m, tq, tree.nodes@[a].center@);
    let db = spec_distance(m, tq, tree.nodes@[b].center@);
    da < db || (da == db && a <= b)
}

/// What the expanded partitioned search returns: the ranking of the
/// distinct point ids drawn from the `min(max_leaves, leaf count)`
/// distinct leaves whose centers are nearest the tree-space query (ties
/// by lower index): every leaf is either among them or sorts no earlier
/// than each of them.
pub open spec fn expanded_result_valid(
    ds: Seq<Seq<i64>>,
    m: DistanceMeasure,
    k: int,
    q: Seq<i64>,
    tree: crate::trees::KMeansTree,
    tq: Seq<i64>,
    max_leaves: int,
    res: Seq<(usize, i128)>,
) -> bool {
    exists|leaves: Seq<usize>|
        #![trigger leaves.no_duplicates()]
        leaves.no_duplicates() && leaves.len() == vstd::math::min(
            max_leaves,
            crate::trees::count_leaves(tree.nodes@),
        ) && 1 <= leaves.len() && (forall|v: int|
            0 <= v < leaves.len() ==> (#[trigger] leaves[v]) < tree.nodes@.len()
                && tree.nodes@[leaves[v] as int].children@.len() == 0) && (forall|w: int|
            #![trigger tree.nodes@[w]]
            0 <= w < tree.nodes@.len() && tree.nodes@[w].children@.len() == 0 ==> (exists|v: int|
                0 <= v < leaves.len() && (#[trigger] leaves[v]) as int == w) || (forall|v: int|
                0 <= v < leaves.len() ==> leaf_le(tree, m, tq, (#[trigger] leaves[v]) as int, w)))
            && exists|cands: Seq<usize>|
            cands.no_duplicates() && (forall|x: usize|
                cands.contains(x) <==> exists|v: int|
                    0 <= v < leaves.len() && tree.nodes@[(#[trigger] leaves[v]) as int].point_ids@.contains(
                        x,
                    )) && #[trigger] candidates_result_valid(ds, m, k, q, cands, res)
}

/// Appending one id extends exactly its own membership.
proof fn lemma_contains_push(s: Seq<usize>, e: usize)
    ensures
        forall|x: usize| #[trigger] s.push(e).contains(x) <==> s.contains(x) || x == e,
{
    assert forall|x: usize| #[trigger] s.push(e).contains(x) <==> s.contains(x) || x == e by {
        if s.push(e).contains(x) {
            let w = choose|w: int| 0 <= w < s.push(e).len() && s.push(e)[w] == x;
            if w < s.len() {
                assert(s[w] == x);
                assert(s.contains(x));
            }
        }
        if s.contains(x) {
            let w = choose|w: int| 0 <= w < s.len() && s[w] == x;
            assert(s.push(e)[w] == x);
            assert(s.push(e).contains(x));
        }
        if x == e {
            assert(s.push(e)[s.len() as int] == x);
            assert(s.push(e).contains(x));
        }
    }
}

/// The `min(max_leaves, leaf count)` leaves whose centers are nearest the
/// query, ties to the lower arena index: every leaf is either returned or
/// sorts no earlier than each returned one.
fn nearest_leaves(
    tree: &crate::trees::KMeansTree,
    measure: &DistanceMeasure,
    query: &[i64],
    max_leaves: usize,
) -> (r: Vec<usize>)
    requires
        crate::trees::tree_wf(*tree),
        crate::trees::tree_centers_ok(tree.nodes@, query@.len() as int),
        tree.nodes@[0].children@.len() > 0,
        narrow_vector(query@),
        max_leaves >= 1,
    ensures
        1 <= r@.len() <= max_leaves,
        r@.len() == vstd::math::min(max_leaves as int, crate::trees::count_leaves(tree.nodes@)),
        r@.no_duplicates(),
        forall|v: int|
            0 <= v < r@.len() ==> (#[trigger] r@[v]) < tree.nodes@.len()
                && tree.nodes@[r@[v] as int].children@.len() == 0,
        forall|w: int|
            #![trigger tree.nodes@[w]]
            0 <= w < tree.nodes@.len() && tree.nodes@[w].children@.len() == 0 ==> (exists|v: int|
                0 <= v < r@.len() && (#[trigger] r@[v]) as int == w) || (forall|v: int|
                0 <= v < r@.len() ==> leaf_le(
                    *tree,
                    *measure,
                    query@,
                    (#[trigger] r@[v]) as int,
                    w,
                )),
{
    let ghost t = *tree;
    let ghost m = *measure;
    let n = tree.nodes.len();
    let mut pairs: Vec<(usize, i128)> = Vec::new();
    let mut idx: usize = 0;
    proof {
        assert(tree.nodes@.subrange(0, 0) =~= Seq::<crate::trees::KMeansTreeNode>::empty());
    }
    while idx < n
        invariant
            idx <= n,
            n == tree.nodes@.len(),
            t == *tree,
            m == *measure,
            crate::trees::tree_wf(*tree),
            crate::trees::tree_centers_ok(tree.nodes@, query@.len() as int),
            tree.nodes@[0].children@.len() > 0,
            narrow_vector(query@),
            pairs@.len() == crate::trees::count_leaves(tree.nodes@.subrange(0, idx as int)),
            forall|v: int|
                0 <= v < pairs@.len() ==> (#[trigger] pairs@[v]).0 < n
                    && tree.nodes@[pairs@[v].0 as int].children@.len() == 0,
            forall|v: int|
                0 <= v < pairs@.len() ==> (#[trigger] pairs@[v]).1 == spec_distance(
                    m,
                    query@,
                    tree.nodes@[pairs@[v].0 as int].center@,
                ),
            forall|v1: int, v2: int|
                0 <= v1 < v2 < pairs@.len() ==> (#[trigger] pairs@[v1]).0 < (#[trigger] pairs@[v2]).0,
            forall|v: int| 0 <= v < pairs@.len() ==> (#[trigger] pairs@[v]).0 < idx,
            forall|w: int|
                #![trigger tree.nodes@[w]]
                0 <= w < idx && tree.nodes@[w].children@.len() == 0 ==> exists|v: int|
                    0 <= v < pairs@.len() && (#[trigger] pairs@[v]).0 == w,
            idx == n ==> pairs@.len() >= 1,
        decreases n - idx,
    {
        let ghost pairspre = pairs@;
        if tree.nodes[idx].children.len() == 0 {
            proof {
                assert(idx >= 1);
                crate::distance::lemma_narrow_implies_wide(query@);
                crate::distance::lemma_narrow_implies_wide(tree.nodes@[idx as int].center@);
            }
            let d = distance_on_slices(measure, query, tree.nodes[idx].center.as_slice());
            pairs.push((idx, d));
        } else {
            proof {
                if idx == n - 1 {
                    // the last arena node cannot point forward, so it is a leaf
                    assert(idx < tree.nodes@[idx as int].children@[0] < n);
                    assert(false);
                }
            }
        }
        proof {
            assert(tree.nodes@.subrange(0, idx + 1).drop_last() =~= tree.nodes@.subrange(
                0,
                idx as int,
            ));
            assert(tree.nodes@.subrange(0, idx + 1).last() == tree.nodes@[idx as int]);
            assert forall|w: int|
                #![trigger tree.nodes@[w]]
                0 <= w < idx + 1 && tree.nodes@[w].children@.len() == 0 implies exists|v: int|
                0 <= v < pairs@.len() && (#[trigger] pairs@[v]).0 == w by {
                if w < idx {
                    let v = choose|v: int|
                        0 <= v < pairspre.len() && (#[trigger] pairspre[v]).0 == w;
                    assert(pairs@[v].0 == w);
                } else {
                    assert(pairs@[pairs@.len() - 1].0 == w);
                }
            }
        }
        idx += 1;
    }
    proof {
        assert(tree.nodes@.subrange(0, n as int) =~= tree.nodes@);
    }
    let ghost orig = pairs@;
    proof {
        assert forall|c1: int, c2: int| 0 <= c1 < c2 < orig.len() implies (#[trigger] orig[c1]) != (
        #[trigger] orig[c2]) by {
            assert(orig[c1].0 < orig[c2].0);
        }
        assert(orig.no_duplicates());
        orig.lemma_multiset_has_no_duplicates();
    }
    sort_candidates(&mut pairs);
    let keep = if max_leaves < pairs.len() {
        max_leaves
    } else {
        pairs.len()
    };
    let ghost full = pairs@;
    pairs.truncate(keep);
    proof {
        broadcast use vstd::seq_lib::group_to_multiset_ensures;

        assert(pairs@ =~= full.subrange(0, keep as int));
        full.lemma_multiset_has_no_duplicates_conv();
        assert forall|j: int| 0 <= j < pairs@.len() implies (#[trigger] pairs@[j]).0 < n
            && tree.nodes@[pairs@[j].0 as int].children@.len() == 0 && pairs@[j].1 == spec_distance(
            m,
            query@,
            tree.nodes@[pairs@[j].0 as int].center@,
        ) by {
            assert(full[j] == pairs@[j]);
            assert(full.contains(full[j]));
            assert(full.to_multiset().count(full[j]) > 0);
            assert(orig.to_multiset().count(full[j]) > 0);
            assert(orig.contains(full[j]));
            let w = choose|w: int| 0 <= w < orig.len() && orig[w] == full[j];
        }
        assert forall|w: int|
            #![trigger tree.nodes@[w]]
            0 <= w < n && tree.nodes@[w].children@.len() == 0 implies (exists|v: int|
            0 <= v < pairs@.len() && (#[trigger] pairs@[v]).0 == w) || (forall|v: int|
            0 <= v < pairs@.len() ==> leaf_le(t, m, query@, pairs@[v].0 as int, w)) by {
            let u = choose|u: int| 0 <= u < orig.len() && (#[trigger] orig[u]).0 == w;
            let e = orig[u];
            assert(e.1 == spec_distance(m, query@, tree.nodes@[w].center@));
            assert(orig.contains(e));
            assert(orig.to_multiset().count(e) > 0);
            assert(full.to_multiset().count(e) > 0);
            assert(full.contains(e));
            let pfull = choose|pf: int| 0 <= pf < full.len() && full[pf] == e;
            if pfull < keep as int {
                assert(pairs@[pfull].0 == w);
            } else {
                assert forall|v: int| 0 <= v < pairs@.len() implies leaf_le(
                    t,
                    m,
                    query@,
                    pairs@[v].0 as int,
                    w,
                ) by {
                    assert(cand_le(full[v], full[pfull]));
                    assert(pairs@[v] == full[v]);
                }
            }
        }
        assert forall|i1: int, i2: int| 0 <= i1 < i2 < pairs@.len() implies (#[trigger] pairs@[i1]).0
            != (#[trigger] pairs@[i2]).0 by {
            assert(full[i1] == pairs@[i1] && full[i2] == pairs@[i2]);
            assert(full[i1] != full[i2]);
            assert(orig.contains(full[i1])) by {
                assert(full.contains(full[i1]));
                assert(full.to_multiset().count(full[i1]) > 0);
                assert(orig.to_multiset().count(full[i1]) > 0);
            }
            assert(orig.contains(full[i2])) by {
                assert(full.contains(full[i2]));
                assert(full.to_multiset().count(full[i2]) > 0);
                assert(orig.to_multiset().count(full[i2]) > 0);
            }
            let w1 = choose|w: int| 0 <= w < orig.len() && orig[w] == full[i1];
            let w2 = choose|w: int| 0 <= w < orig.len() && orig[w] == full[i2];
            if full[i1].0 == full[i2].0 {
                assert(w1 == w2) by {
                    if w1 < w2 {
                        assert(orig[w1].0 < orig[w2].0);
                    }
                    if w2 < w1 {
                        assert(orig[w2].0 < orig[w1].0);
                    }
                }
            }
        }
    }
    let mut out: Vec<usize> = Vec::new();
    let mut j: usize = 0;
    while j < pairs.len()
        invariant
            j <= pairs@.len(),
            out@.len() == j,
            forall|v: int| 0 <= v < j ==> #[trigger] out@[v] == pairs@[v].0,
        decreases pairs@.len() - j,
    {
        out.push(pairs[j].0);
        j += 1;
    }
    proof {
        assert forall|v1: int, v2: int|
            0 <= v1 < v2 < out@.len() implies #[trigger] out@[v1] != #[trigger] out@[v2] by {
            assert(pairs@[v1].0 != pairs@[v2].0);
        }
        assert(out@.no_duplicates());
        assert forall|w: int|
            #![trigger tree.nodes@[w]]
            0 <= w < tree.nodes@.len() && tree.nodes@[w].children@.len() == 0 implies (exists|
            v: int,
        |
            0 <= v < out@.len() && (#[trigger] out@[v]) as int == w) || (forall|v: int|
            0 <= v < out@.len() ==> leaf_le(t, m, query@, (#[trigger] out@[v]) as int, w)) by {
            if exists|v: int| 0 <= v < pairs@.len() && (#[trigger] pairs@[v]).0 == w {
                let v = choose|v: int| 0 <= v < pairs@.len() && (#[trigger] pairs@[v]).0 == w;
                assert(out@[v] as int == w);
            } else {
                assert forall|v: int| 0 <= v < out@.len() implies leaf_le(
                    t,
                    m,
                    query@,
                    (#[trigger] out@[v]) as int,
                    w,
                ) by {
                    assert(leaf_le(t, m, query@, pairs@[v].0 as int, w));
                }
            }
        }
    }
    out
}

/// Sorts candidates by (distance, id), preserving them as a multiset.
fn sort_candidates(v: &mut Vec<(usize, i128)>)
    ensures
        final(v)@.len() == old(v)@.len(),
        sorted_cands(final(v)@),
        final(v)@.to_multiset() == old(v)@.to_multiset(),
{
    let ghost orig = v@;
    let n = v.len();
    if n == 0 {
        return ;
    }
    let mut i: usize = 1;
    while i < n
        invariant
            1 <= i <= n,
            v@.len() == n,
            sorted_cands(v@.subrange(0, i as int)),
            v@.to_multiset() == orig.to_multiset(),
        decreases n - i,
    {
        let mut j: usize = i;
        let mut go = true;
        while j > 0 && go
            invariant
                0 <= j <= i < n,
                v@.len() == n,
                v@.to_multiset() == orig.to_multiset(),
                sorted_cands(v@.subrange(0, i + 1).remove(j as int)),
                forall|m: int| j < m <= i ==> cand_lt(v@[j as int], #[trigger] v@[m]),
                !go && j > 0 ==> cand_le(v@[j - 1], v@[j as int]),
            decreases j, (if go { 1int } else { 0int }),
        {
            let prev = v[j - 1];
            let cur = v[j];
            if cur.1 < prev.1 || (cur.1 == prev.1 && cur.0 < prev.0) {
                let ghost before = v@;
                v.set(j - 1, cur);
                v.set(j, prev);
                proof {
                    broadcast use vstd::seq_lib::to_multiset_update;
                    broadcast use vstd::seq_lib::group_to_multiset_ensures;
                    broadcast use vstd::multiset::group_multiset_axioms;

                    assert(v@ =~= before.update(j - 1, cur).update(j as int, prev));
                    assert(v@.to_multiset() =~= before.to_multiset());
                    assert(v@.subrange(0, i + 1).remove(j - 1) =~= before.subrange(0, i + 1).remove(
                        j as int,
                    ));
                }
                j -= 1;
            } else {
                go = false;
            }
        }
        proof {
            let s = v@.subrange(0, i + 1);
            assert(forall|m: int| 0 <= m <= i ==> s[m] == v@[m]);
            assert forall|p: int, q: int| 0 <= p < q <= i as int implies cand_le(s[p], s[q]) by {
                let without = s.remove(j as int);
                if p == j as int {
                    assert(cand_lt(v@[j as int], v@[q]));
                } else if q == j as int {
                    // p < j: the inner loop stopped, so v[j-1] <= v[j];
                    // the sorted remainder carries p up to j - 1.
                    assert(j > 0 ==> cand_le(v@[j - 1], v@[j as int]));
                    if p < j - 1 {
                        assert(without[p] == s[p] && without[j - 1] == s[j - 1]);
                        assert(cand_le(s[p], s[j - 1]));
                    }
                } else if p < j as int && q > j as int {
                    assert(without[p] == s[p] && without[q - 1] == s[q]);
                } else {
                    // both on the same side of j
                    if q < j as int {
                        assert(without[p] == s[p] && without[q] == s[q]);
                    } else {
                        assert(without[p - 1] == s[p] && without[q - 1] == s[q]);
                    }
                }
            }
            assert(sorted_cands(v@.subrange(0, i + 1)));
        }
        i += 1;
    }
    proof {
        assert(v@.subrange(0, n as int) =~= v@);
    }
}

/// Sorts ids ascending, preserving them as a multiset.
fn sort_ids(v: &mut Vec<usize>)
    ensures
        final(v)@.len() == old(v)@.len(),
        forall|p: int, q: int| 0 <= p < q < final(v)@.len() ==> #[trigger] final(v)@[p] <= #[trigger] final(v)@[q],
        final(v)@.to_multiset() == old(v)@.to_multiset(),
{
    let ghost orig = v@;
    let n = v.len();
    if n == 0 {
        return ;
    }
    let mut i: usize = 1;
    while i < n
        invariant
            1 <= i <= n,
            v@.len() == n,
            forall|p: int, q: int| 0 <= p < q < i as int ==> #[trigger] v@[p] <= #[trigger] v@[q],
            v@.to_multiset() == orig.to_multiset(),
        decreases n - i,
    {
        let mut j: usize = i;
        let mut go = true;
        while j > 0 && go
            invariant
                0 <= j <= i < n,
                v@.len() == n,
                v@.to_multiset() == orig.to_multiset(),
                forall|p: int, q: int|
                    0 <= p < q <= i as int && p != j as int && q != j as int
                        ==> #[trigger] v@[p] <= #[trigger] v@[q],
                forall|m: int| j < m <= i ==> v@[j as int] < #[trigger] v@[m],
                !go && j > 0 ==> v@[j - 1] <= v@[j as int],
            decreases j, (if go { 1int } else { 0int }),
        {
            let prev = v[j - 1];
            let cur = v[j];
            if cur < prev {
                let ghost before = v@;
                v.set(j - 1, cur);
                v.set(j, prev);
                proof {
                    broadcast use vstd::seq_lib::to_multiset_update;
                    broadcast use vstd::seq_lib::group_to_multiset_ensures;
                    broadcast use vstd::multiset::group_multiset_axioms;

                    assert(v@ =~= before.update(j - 1, cur).update(j as int, prev));
                    assert(v@.to_multiset() =~= before.to_multiset());
                }
                j -= 1;
            } else {
                go = false;
            }
        }
        proof {
            assert forall|p: int, q: int| 0 <= p < q <= i as int implies #[trigger] v@[p]
                <= #[trigger] v@[q] by {
                if q == j as int {
                    assert(j > 0 ==> v@[j - 1] <= v@[j as int]);
                    if p < j - 1 {
                        assert(v@[p] <= v@[j - 1]);
                    }
                } else if p == j as int {
                    assert(v@[j as int] < v@[q]);
                }
            }
        }
        i += 1;
    }
}

/// The strictly increasing list of distinct ids in a sorted list.
fn dedup_sorted(v: &Vec<usize>) -> (out: Vec<usize>)
    requires
        forall|p: int, q: int| 0 <= p < q < v@.len() ==> #[trigger] v@[p] <= #[trigger] v@[q],
    ensures
        forall|p: int, q: int| 0 <= p < q < out@.len() ==> #[trigger] out@[p] < #[trigger] out@[q],
        out@.no_duplicates(),
        forall|x: usize| out@.contains(x) <==> v@.contains(x),
{
    let n = v.len();
    let mut out: Vec<usize> = Vec::new();
    let mut i: usize = 0;
    while i < n
        invariant
            i <= n,
            n == v@.len(),
            forall|p: int, q: int| 0 <= p < q < v@.len() ==> #[trigger] v@[p] <= #[trigger] v@[q],
            i == 0 ==> out@.len() == 0,
            i > 0 ==> out@.len() > 0 && out@.last() == v@[i - 1],
            forall|p: int, q: int|
                0 <= p < q < out@.len() ==> #[trigger] out@[p] < #[trigger] out@[q],
            forall|x: usize| out@.contains(x) <==> v@.subrange(0, i as int).contains(x),
        decreases n - i,
    {
        let x = v[i];
        let push_it = if out.len() == 0 {
            true
        } else {
            out[out.len() - 1] != x
        };
        let ghost outpre = out@;
        if push_it {
            out.push(x);
        }
        proof {
            if push_it {
                assert forall|p: int, q: int|
                    0 <= p < q < out@.len() implies #[trigger] out@[p] < #[trigger] out@[q] by {
                    if q == out@.len() - 1 {
                        assert(out@[q] == x);
                        assert(out@[p] == outpre[p]);
                        if i > 0 {
                            assert(outpre.last() == v@[i - 1]);
                            assert(v@[i - 1] <= v@[i as int]);
                            assert(p < outpre.len() - 1 ==> outpre[p] < outpre.last());
                            assert(outpre[p] <= outpre.last());
                            assert(outpre.last() != x);
                        }
                    } else {
                        assert(out@[p] == outpre[p] && out@[q] == outpre[q]);
                    }
                }
            }
            assert(v@.subrange(0, i + 1) =~= v@.subrange(0, i as int).push(v@[i as int]));
            assert forall|y: usize| out@.contains(y) <==> v@.subrange(0, i + 1).contains(y) by {
                let pre = v@.subrange(0, i as int);
                let ext = v@.subrange(0, i + 1);
                if out@.contains(y) {
                    let w = choose|w: int| 0 <= w < out@.len() && out@[w] == y;
                    if w < outpre.len() {
                        assert(outpre[w] == y);
                        assert(outpre.contains(y));
                        assert(pre.contains(y));
                        let u = choose|u: int| 0 <= u < pre.len() && pre[u] == y;
                        assert(ext[u] == y);
                        assert(ext.contains(y));
                    } else {
                        assert(y == v@[i as int]);
                        assert(ext[i as int] == y);
                        assert(ext.contains(y));
                    }
                }
                if ext.contains(y) {
                    let u = choose|u: int| 0 <= u < ext.len() && ext[u] == y;
                    if u < i as int {
                        assert(pre[u] == y);
                        assert(pre.contains(y));
                        assert(outpre.contains(y));
                        let w = choose|w: int| 0 <= w < outpre.len() && outpre[w] == y;
                        assert(out@[w] == y);
                        assert(out@.contains(y));
                    } else {
                        assert(y == v@[i as int]);
                        if push_it {
                            assert(out@.last() == y);
                            assert(out@.contains(y));
                        } else {
                            assert(outpre.last() == y);
                            assert(out@.contains(y));
                        }
                    }
                }
            }
        }
        i += 1;
    }
    proof {
        assert(v@.subrange(0, n as int) =~= v@);
        assert forall|p: int, q: int|
            0 <= p < q < out@.len() implies out@[p] != out@[q] by {
            assert(out@[p] < out@[q]);
        }
        assert(out@.no_duplicates());
    }
    out
}

/// The retrieval engine: a dataset, a measure, and the result size k.
pub struct ScannRetriever {
    pub dataset: DenseDataset<i64>,
    pub distance_measure: DistanceMeasure,
    pub k: usize,
}

impl ScannRetriever {
    /// Bundles a dataset with a measure and a result size.
    pub fn new(dataset: DenseDataset<i64>, distance_measure: DistanceMeasure, k: usize) -> (r:
        Self)
        ensures
            r.dataset == dataset,
            r.distance_measure == distance_measure,
            r.k == k,
    {
        ScannRetriever { dataset, distance_measure, k }
    }

    /// Brute-force top-k search: scores the query against every stored
    /// vector, sorts ascending by (distance, id), and returns the first
    /// `min(k, size)` entries. Fails with `InvalidArgument`, and only
    /// then, when the query length is not the store's dimensionality.
    pub fn search(&self, query: &DatapointPtr<i64>) -> (r: Result<Vec<(usize, i128)>, ScannError>)
        requires
            dataset_ok(self.dataset, self.distance_measure),
            query_ok(query@, self.distance_measure),
        ensures
            query@.len() == self.dataset.dimensionality ==> (r matches Ok(res)
                && search_result_valid(
                self.dataset@,
                self.distance_measure,
                self.k as int,
                query@,
                res@,
            )),
            query@.len() != self.dataset.dimensionality ==> (r matches Err(e) && e.kind
                == ErrorKind::InvalidArgument),
    {
        let q = query.values();
        if q.len() != self.dataset.dimensionality() {
            return Err(
                invalid_argument_error("Query length differs from the store's dimensionality"),
            );
        }
        let ghost ds = self.dataset@;
        let ghost m = self.distance_measure;
        let n = self.dataset.size();
        let mut ids: Vec<usize> = Vec::new();
        let mut i: usize = 0;
        while i < n
            invariant
                i <= n,
                ids@.len() == i,
                forall|v: int| 0 <= v < i ==> #[trigger] ids@[v] == v,
            decreases n - i,
        {
            ids.push(i);
            i += 1;
        }
        proof {
            assert(forall|v1: int, v2: int|
                0 <= v1 < v2 < ids@.len() ==> #[trigger] ids@[v1] != #[trigger] ids@[v2]);
            assert(ids@.no_duplicates());
        }
        let res = self.rank_candidates(query, &ids);
        proof {
            // ranking the identity candidate list is the whole-store search
            let resv = res@;
            assert forall|c: int| #![trigger ds[c]] 0 <= c < ds.len() implies (exists|j: int|
                0 <= j < resv.len() && (#[trigger] resv[j]).0 == c) || (forall|j: int|
                0 <= j < resv.len() ==> dominates(
                    #[trigger] resv[j],
                    spec_distance(m, q@, ds[c]),
                    c,
                )) by {
                assert(ids@[c] == c);
            }
            assert(search_result_valid(ds, m, self.k as int, q@, resv));
        }
        Ok(res)
    }

    /// Scores the query against each candidate id, sorts ascending by
    /// (distance, id), and returns the first `min(k, |candidates|)`
    /// entries: the verified core shared by the brute-force and the
    /// partitioned search paths.
    pub fn rank_candidates(&self, query: &DatapointPtr<i64>, cand_ids: &Vec<usize>) -> (res: Vec<
        (usize, i128),
    >)
        requires
            dataset_ok(self.dataset, self.distance_measure),
            query_ok(query@, self.distance_measure),
            query@.len() == self.dataset.dimensionality,
            cand_ids@.no_duplicates(),
            forall|i: int| 0 <= i < cand_ids@.len() ==> (#[trigger] cand_ids@[i]) < self.dataset@.len(),
        ensures
            candidates_result_valid(
                self.dataset@,
                self.distance_measure,
                self.k as int,
                query@,
                cand_ids@,
                res@,
            ),
    {
        let q = query.values();
        let ghost ds = self.dataset@;
        let ghost m = self.distance_measure;
        let nc = cand_ids.len();
        let mut cands: Vec<(usize, i128)> = Vec::new();
        let mut i: usize = 0;
        while i < nc
            invariant
                i <= nc,
                nc == cand_ids@.len(),
                q@ == query@,
                ds == self.dataset@,
                m == self.distance_measure,
                dataset_ok(self.dataset, self.distance_measure),
                query_ok(query@, self.distance_measure),
                q@.len() == self.dataset.dimensionality,
                forall|v: int| 0 <= v < nc ==> (#[trigger] cand_ids@[v]) < ds.len(),
                cands@.len() == i,
                forall|c: int|
                    0 <= c < i ==> (#[trigger] cands@[c]).0 == cand_ids@[c] && cands@[c].1
                        == spec_distance(m, q@, ds[cand_ids@[c] as int]),
            decreases nc - i,
        {
            let id = cand_ids[i];
            let row = self.dataset.row(id);
            let d = distance_on_slices(&self.distance_measure, q, row.as_slice());
            cands.push((id, d));
            i += 1;
        }
        let ghost orig = cands@;
        proof {
            assert forall|c1: int, c2: int| 0 <= c1 < c2 < orig.len() implies (#[trigger] orig[c1])
                != (#[trigger] orig[c2]) by {
                assert(cand_ids@[c1] != cand_ids@[c2]);
            }
            assert(orig.no_duplicates());
            orig.lemma_multiset_has_no_duplicates();
        }
        sort_candidates(&mut cands);
        let keep = if self.k < nc {
            self.k
        } else {
            nc
        };
        let ghost full = cands@;
        cands.truncate(keep);
        proof {
            broadcast use vstd::seq_lib::group_to_multiset_ensures;

            assert(cands@ =~= full.subrange(0, keep as int));
            full.lemma_multiset_has_no_duplicates_conv();
            let res = cands@;
            assert forall|j: int| 0 <= j < res.len() implies (#[trigger] res[j]).0 < ds.len()
                && res[j].1 == spec_distance(m, q@, ds[res[j].0 as int]) && cand_ids@.contains(
                res[j].0,
            ) by {
                assert(full[j] == res[j]);
                assert(full.contains(full[j]));
                assert(full.to_multiset().count(full[j]) > 0);
                assert(orig.to_multiset().count(full[j]) > 0);
                assert(orig.contains(full[j]));
                let c = choose|c: int| 0 <= c < orig.len() && orig[c] == full[j];
                assert(orig[c].0 == cand_ids@[c] && orig[c].1 == spec_distance(
                    m,
                    q@,
                    ds[cand_ids@[c] as int],
                ));
                assert(res[j].0 == cand_ids@[c]);
            }
            assert forall|p: int, j: int| 0 <= p < j < res.len() implies cand_lt(
                #[trigger] res[p],
                #[trigger] res[j],
            ) by {
                assert(cand_le(full[p], full[j]));
                assert(full[p] != full[j]);
                assert(res[p] == full[p] && res[j] == full[j]);
            }
            assert forall|w: int| #![trigger cand_ids@[w]] 0 <= w < cand_ids@.len() implies (exists|j: int|
                0 <= j < res.len() && (#[trigger] res[j]).0 == cand_ids@[w]) || (forall|j: int|
                0 <= j < res.len() ==> dominates(
                    #[trigger] res[j],
                    spec_distance(m, q@, ds[cand_ids@[w] as int]),
                    cand_ids@[w] as int,
                )) by {
                let e = orig[w];
                assert(e.0 == cand_ids@[w] && e.1 == spec_distance(
                    m,
                    q@,
                    ds[cand_ids@[w] as int],
                ));
                assert(orig.contains(e));
                assert(orig.to_multiset().count(e) > 0);
                assert(full.to_multiset().count(e) > 0);
                assert(full.contains(e));
                let p = choose|p: int| 0 <= p < full.len() && full[p] == e;
                if p < keep as int {
                    assert(res[p].0 == cand_ids@[w]);
                } else {
                    assert forall|j: int| 0 <= j < res.len() implies dominates(
                        #[trigger] res[j],
                        spec_distance(m, q@, ds[cand_ids@[w] as int]),
                        cand_ids@[w] as int,
                    ) by {
                        assert(cand_le(full[j], full[p]));
                    }
                }
            }
        }
        cands
    }

    /// Tree-pruned approximate search: descends the trained partitioner
    /// to the leaf nearest `tree_query` (the query in the partitioner's
    /// space, projected by the caller when a projection is attached),
    /// then scores that leaf's candidates against the original stored
    /// vectors with `query` and returns the `min(k, |leaf|)` best. The
    /// true nearest neighbors are found only when the leaf holds them:
    /// recall is probabilistic, raised by spilling, never guaranteed.
    pub fn search_with_partitioner(
        &self,
        tree: &crate::trees::KMeansTree,
        tree_query: &DatapointPtr<i64>,
        query: &DatapointPtr<i64>,
    ) -> (r: Result<Vec<(usize, i128)>, ScannError>)
        requires
            dataset_ok(self.dataset, self.distance_measure),
            query_ok(query@, self.distance_measure),
            crate::trees::tree_wf(*tree),
            tree.n_points == self.dataset@.len(),
            tree.nodes@[0].children@.len() > 0,
            narrow_vector(tree_query@),
            crate::trees::tree_centers_ok(tree.nodes@, tree_query@.len() as int),
        ensures
            query@.len() == self.dataset.dimensionality ==> (r matches Ok(res)
                && partitioned_result_valid(
                self.dataset@,
                self.distance_measure,
                self.k as int,
                query@,
                *tree,
                tree_query@,
                res@,
            )),
            query@.len() != self.dataset.dimensionality ==> (r matches Err(e) && e.kind
                == ErrorKind::InvalidArgument),
    {
        if query.values().len() != self.dataset.dimensionality() {
            return Err(
                invalid_argument_error("Query length differs from the store's dimensionality"),
            );
        }
        let leaf = tree.nearest_leaf(&self.distance_measure, tree_query.values());
        let ghost leaf_points = tree.nodes@[leaf as int].point_ids@;
        let mut ids: Vec<usize> = Vec::new();
        let np = tree.nodes[leaf].point_ids.len();
        let mut i: usize = 0;
        while i < np
            invariant
                i <= np,
                leaf < tree.nodes@.len(),
                np == leaf_points.len(),
                leaf_points == tree.nodes@[leaf as int].point_ids@,
                ids@ == leaf_points.subrange(0, i as int),
            decreases np - i,
        {
            ids.push(tree.nodes[leaf].point_ids[i]);
            proof {
                assert(ids@ =~= leaf_points.subrange(0, i + 1));
            }
            i += 1;
        }
        proof {
            assert(ids@ =~= leaf_points);
        }
        sort_ids(&mut ids);
        let ghost sorted = ids@;
        let cands = dedup_sorted(&ids);
        proof {
            broadcast use vstd::seq_lib::group_to_multiset_ensures;

            assert forall|x: usize| cands@.contains(x) <==> leaf_points.contains(x) by {
                assert(sorted.contains(x) <==> leaf_points.contains(x)) by {
                    assert(sorted.to_multiset() == leaf_points.to_multiset());
                    assert(sorted.contains(x) <==> sorted.to_multiset().count(x) > 0);
                    assert(leaf_points.contains(x) <==> leaf_points.to_multiset().count(x) > 0);
                }
            }
            assert forall|v: int| 0 <= v < cands@.len() implies (#[trigger] cands@[v])
                < self.dataset@.len() by {
                let x = cands@[v];
                assert(cands@.contains(x));
                assert(leaf_points.contains(x));
                let w = choose|w: int| 0 <= w < leaf_points.len() && leaf_points[w] == x;
                assert(tree.nodes@[leaf as int].point_ids@[w] < tree.n_points);
            }
        }
        let res = self.rank_candidates(query, &cands);
        proof {
            assert(candidates_result_valid(
                self.dataset@,
                self.distance_measure,
                self.k as int,
                query@,
                cands@,
                res@,
            ));
            assert(exists|c2: Seq<usize>|
                c2.no_duplicates() && (forall|x: usize|
                    c2.contains(x) <==> tree.nodes@[leaf as int].point_ids@.contains(x))
                    && #[trigger] candidates_result_valid(
                    self.dataset@,
                    self.distance_measure,
                    self.k as int,
                    query@,
                    c2,
                    res@,
                ));
            assert(partitioned_result_valid(
                self.dataset@,
                self.distance_measure,
                self.k as int,
                query@,
                *tree,
                tree_query@,
                res@,
            )) by {
                assert(leaf as int == crate::trees::spec_nearest_leaf(
                    *tree,
                    self.distance_measure,
                    tree_query@,
                ));
                assert(tree.nodes@[leaf as int].children@.len() == 0);
            }
        }
        Ok(res)
    }

    /// Spilling-aware expanded search: gathers the candidates of the up
    /// to `max_leaves` leaves whose centers are nearest `tree_query`,
    /// deduplicates them (a spilled point reachable through several
    /// leaves is scored once), and returns the `min(k, |candidates|)`
    /// best against the original stored vectors. Recall rises with
    /// `max_leaves` but is never guaranteed.
    pub fn search_with_partitioner_expanded(
        &self,
        tree: &crate::trees::KMeansTree,
        tree_query: &DatapointPtr<i64>,
        query: &DatapointPtr<i64>,
        max_leaves: usize,
    ) -> (r: Result<Vec<(usize, i128)>, ScannError>)
        requires
            dataset_ok(self.dataset, self.distance_measure),
            query_ok(query@, self.distance_measure),
            crate::trees::tree_wf(*tree),
            tree.n_points == self.dataset@.len(),
            tree.nodes@[0].children@.len() > 0,
            narrow_vector(tree_query@),
            crate::trees::tree_centers_ok(tree.nodes@, tree_query@.len() as int),
            max_leaves >= 1,
        ensures
            query@.len() == self.dataset.dimensionality ==> (r matches Ok(res)
                && expanded_result_valid(
                self.dataset@,
                self.distance_measure,
                self.k as int,
                query@,
                *tree,
                tree_query@,
                max_leaves as int,
                res@,
            )),
            query@.len() != self.dataset.dimensionality ==> (r matches Err(e) && e.kind
                == ErrorKind::InvalidArgument),
    {
        if query.values().len() != self.dataset.dimensionality() {
            return Err(
                invalid_argument_error("Query length differs from the store's dimensionality"),
            );
        }
        let chosen = nearest_leaves(tree, &self.distance_measure, tree_query.values(), max_leaves);
        let nl = chosen.len();
        let mut all: Vec<usize> = Vec::new();
        let mut j: usize = 0;
        while j < nl
            invariant
                j <= nl,
                nl == chosen@.len(),
                crate::trees::tree_wf(*tree),
                tree.n_points == self.dataset@.len(),
                forall|v: int|
                    0 <= v < chosen@.len() ==> (#[trigger] chosen@[v]) < tree.nodes@.len()
                        && tree.nodes@[chosen@[v] as int].children@.len() == 0,
                forall|x: usize| #[trigger] all@.contains(x) <==> exists|v: int|
                    0 <= v < j && tree.nodes@[(#[trigger] chosen@[v]) as int].point_ids@.contains(
                        x,
                    ),
            decreases nl - j,
        {
            let ghost leafpts = tree.nodes@[chosen@[j as int] as int].point_ids@;
            let lp_len = tree.nodes[chosen[j]].point_ids.len();
            let mut t: usize = 0;
            while t < lp_len
                invariant
                    t <= lp_len,
                    j < nl,
                    nl == chosen@.len(),
                    crate::trees::tree_wf(*tree),
                    tree.n_points == self.dataset@.len(),
                    forall|v: int|
                        0 <= v < chosen@.len() ==> (#[trigger] chosen@[v]) < tree.nodes@.len()
                            && tree.nodes@[chosen@[v] as int].children@.len() == 0,
                    leafpts == tree.nodes@[chosen@[j as int] as int].point_ids@,
                    lp_len == leafpts.len(),
                    forall|x: usize| #[trigger] all@.contains(x) <==> (exists|v: int|
                        0 <= v < j && tree.nodes@[(#[trigger] chosen@[v]) as int].point_ids@.contains(
                            x,
                        )) || leafpts.subrange(0, t as int).contains(x),
                decreases lp_len - t,
            {
                let e = tree.nodes[chosen[j]].point_ids[t];
                let ghost pre = all@;
                all.push(e);
                proof {
                    lemma_contains_push(pre, e);
                    lemma_contains_push(leafpts.subrange(0, t as int), e);
                    assert(leafpts.subrange(0, t + 1) =~= leafpts.subrange(0, t as int).push(e));
                }
                t += 1;
            }
            proof {
                assert(leafpts.subrange(0, lp_len as int) =~= leafpts);
                assert forall|x: usize| #[trigger] all@.contains(x) <==> exists|v: int|
                    0 <= v < j + 1 && tree.nodes@[(#[trigger] chosen@[v]) as int].point_ids@.contains(
                        x,
                    ) by {
                    if all@.contains(x) {
                        if leafpts.contains(x) {
                            assert(tree.nodes@[chosen@[j as int] as int].point_ids@.contains(x));
                        }
                    }
                    if exists|v: int|
                        0 <= v < j + 1
                            && tree.nodes@[(#[trigger] chosen@[v]) as int].point_ids@.contains(x) {
                        let v = choose|v: int|
                            0 <= v < j + 1 && tree.nodes@[(#[trigger] chosen@[v]) as int].point_ids@.contains(
                                x,
                            );
                        if v < j {
                            assert(exists|v2: int|
                                0 <= v2 < j
                                    && tree.nodes@[(#[trigger] chosen@[v2]) as int].point_ids@.contains(
                                    x,
                                ));
                        }
                    }
                }
            }
            j += 1;
        }
        let ghost unsorted = all@;
        sort_ids(&mut all);
        let ghost sorted = all@;
        let cands = dedup_sorted(&all);
        proof {
            broadcast use vstd::seq_lib::group_to_multiset_ensures;

            assert forall|x: usize| #[trigger] cands@.contains(x) <==> exists|v: int|
                0 <= v < chosen@.len()
                    && tree.nodes@[(#[trigger] chosen@[v]) as int].point_ids@.contains(x) by {
                assert(sorted.to_multiset() == unsorted.to_multiset());
                assert(sorted.contains(x) <==> sorted.to_multiset().count(x) > 0);
                assert(unsorted.contains(x) <==> unsorted.to_multiset().count(x) > 0);
                assert(cands@.contains(x) <==> sorted.contains(x));
                assert(unsorted.contains(x) <==> exists|v: int|
                    0 <= v < chosen@.len()
                        && tree.nodes@[(#[trigger] chosen@[v]) as int].point_ids@.contains(x));
            }
            assert forall|v: int| 0 <= v < cands@.len() implies (#[trigger] cands@[v])
                < self.dataset@.len() by {
                let x = cands@[v];
                assert(cands@.contains(x));
                let w = choose|w: int|
                    0 <= w < chosen@.len()
                        && tree.nodes@[(#[trigger] chosen@[w]) as int].point_ids@.contains(x);
                let p = choose|p: int|
                    0 <= p < tree.nodes@[chosen@[w] as int].point_ids@.len()
                        && tree.nodes@[chosen@[w] as int].point_ids@[p] == x;
                assert(tree.nodes@[chosen@[w] as int].point_ids@[p] < tree.n_points);
            }
        }
        let res = self.rank_candidates(query, &cands);
        proof {
            assert(expanded_result_valid(
                self.dataset@,
                self.distance_measure,
                self.k as int,
                query@,
                *tree,
                tree_query@,
                max_leaves as int,
                res@,
            )) by {
                assert(exists|c2: Seq<usize>|
                    c2.no_duplicates() && (forall|x: usize|
                        c2.contains(x) <==> exists|v: int|
                            0 <= v < chosen@.len()
                                && tree.nodes@[(#[trigger] chosen@[v]) as int].point_ids@.contains(
                                x,
                            )) && #[trigger] candidates_result_valid(
                        self.dataset@,
                        self.distance_measure,
                        self.k as int,
                        query@,
                        c2,
                        res@,
                    )) by {
                    assert(candidates_result_valid(
                        self.dataset@,
                        self.distance_measure,
                        self.k as int,
                        query@,
                        cands@,
                        res@,
                    ));
                }
                assert(chosen@.no_duplicates() && 1 <= chosen@.len());
                assert(chosen@.len() == vstd::math::min(
                    max_leaves as int,
                    crate::trees::count_leaves(tree.nodes@),
                ));
                assert(forall|w: int|
                    #![trigger tree.nodes@[w]]
                    0 <= w < tree.nodes@.len() && tree.nodes@[w].children@.len() == 0 ==> (exists|
                        v: int,
                    |
                        0 <= v < chosen@.len() && (#[trigger] chosen@[v]) as int == w) || (forall|
                        v: int,
                    |
                        0 <= v < chosen@.len() ==> leaf_le(
                            *tree,
                            self.distance_measure,
                            tree_query@,
                            (#[trigger] chosen@[v]) as int,
                            w,
                        )));
            }
        }
        Ok(res)
    }

    /// Windows a token sequence into chunks of `chunk_size` (a trailing
    /// partial chunk is dropped) and runs one search per chunk, returning
    /// each chunk's neighbors as token sequences. A chunk is used directly
    /// as the query vector, so `chunk_size` must equal the store's
    /// dimensionality; otherwise, or when it is zero or over `MAX_DIM`,
    /// the call fails with `InvalidArgument`.
    pub fn retrieve_chunks(&self, input_seq: &[u32], chunk_size: usize) -> (r: Result<
        Vec<Vec<Vec<u32>>>,
        ScannError,
    >)
        requires
            dataset_ok(self.dataset, self.distance_measure),
            measure_needs_narrow(self.distance_measure) ==> forall|i: int|
                0 <= i < input_seq@.len() ==> #[trigger] input_seq@[i] <= 32768,
        ensures
            chunk_size != 0 && chunk_size == self.dataset.dimensionality && chunk_size
                <= crate::distance::MAX_DIM ==> (r matches Ok(out) && out@.len() == input_seq@.len()
                as int / chunk_size as int && forall|c: int|
                0 <= c < out@.len() ==> neighbor_lists_ok(
                    self.dataset@,
                    self.distance_measure,
                    self.k as int,
                    chunk_query(input_seq@, c, chunk_size as int),
                    (#[trigger] out@[c])@,
                )),
            !(chunk_size != 0 && chunk_size == self.dataset.dimensionality && chunk_size
                <= crate::distance::MAX_DIM) ==> (r matches Err(e) && e.kind
                == ErrorKind::InvalidArgument),
    {
        let cs = chunk_size;
        if cs == 0 || cs != self.dataset.dimensionality() || cs > crate::distance::MAX_DIM {
            return Err(
                invalid_argument_error(
                    "Chunk size must be the store's dimensionality, positive and bounded",
                ),
            );
        }
        let ghost ds = self.dataset@;
        let ghost m = self.distance_measure;
        let n_input = input_seq.len();
        let num_chunks = n_input / cs;
        proof {
            vstd::arithmetic::div_mod::lemma_fundamental_div_mod(n_input as int, cs as int);
        }
        let mut out: Vec<Vec<Vec<u32>>> = Vec::new();
        let mut c: usize = 0;
        while c < num_chunks
            invariant
                c <= num_chunks,
                num_chunks == n_input as int / cs as int,
                n_input == input_seq@.len(),
                (num_chunks as int) * (cs as int) <= n_input,
                cs != 0 && cs == self.dataset.dimensionality && cs <= crate::distance::MAX_DIM,
                ds == self.dataset@,
                m == self.distance_measure,
                dataset_ok(self.dataset, self.distance_measure),
                measure_needs_narrow(m) ==> forall|i: int|
                    0 <= i < input_seq@.len() ==> #[trigger] input_seq@[i] <= 32768,
                out@.len() == c,
                forall|p: int|
                    0 <= p < c ==> neighbor_lists_ok(
                        ds,
                        m,
                        self.k as int,
                        chunk_query(input_seq@, p, cs as int),
                        (#[trigger] out@[p])@,
                    ),
            decreases num_chunks - c,
        {
            proof {
                vstd::arithmetic::mul::lemma_mul_inequality(
                    c as int + 1,
                    num_chunks as int,
                    cs as int,
                );
                assert((c as int + 1) * (cs as int) == (c as int) * (cs as int) + cs as int)
                    by (nonlinear_arith);
            }
            let mut q: Vec<i64> = Vec::new();
            let mut t: usize = 0;
            while t < cs
                invariant
                    t <= cs,
                    n_input == input_seq@.len(),
                    (c as int + 1) * (cs as int) <= n_input,
                    c < num_chunks,
                    (c as int) * (cs as int) + cs <= n_input,
                    q@.len() == t,
                    forall|p: int|
                        0 <= p < t ==> #[trigger] q@[p] == input_seq@[(c as int) * (cs as int) + p]
                            as i64,
                decreases cs - t,
            {
                proof {
                    assert((c as int + 1) * (cs as int) == (c as int) * (cs as int) + cs as int)
                        by (nonlinear_arith);
                }
                let idx = c * cs + t;
                q.push(input_seq[idx] as i64);
                t += 1;
            }
            proof {
                assert(q@ =~= chunk_query(input_seq@, c as int, cs as int));
                assert(wide_vector(q@)) by {
                    assert(forall|p: int|
                        0 <= p < q@.len() ==> 0 <= #[trigger] q@[p]
                            <= crate::distance::MAX_WIDE as int);
                }
                if measure_needs_narrow(m) {
                    assert(narrow_vector(q@)) by {
                        assert(forall|p: int|
                            0 <= p < q@.len() ==> 0 <= #[trigger] q@[p]
                                <= crate::distance::MAX_COMPONENT as int);
                    }
                }
            }
            let query = DatapointPtr::new(q);
            let found = match self.search(&query) {
                Ok(found) => found,
                Err(e) => {
                    return Err(e);
                },
            };
            let mut lists: Vec<Vec<u32>> = Vec::new();
            let mut j: usize = 0;
            while j < found.len()
                invariant
                    j <= found@.len(),
                    ds == self.dataset@,
                    dataset_ok(self.dataset, self.distance_measure),
                    m == self.distance_measure,
                    forall|p: int|
                        0 <= p < found@.len() ==> (#[trigger] found@[p]).0 < ds.len(),
                    lists@.len() == j,
                    forall|p: int|
                        0 <= p < j ==> (#[trigger] lists@[p])@ == tokens_of_row(
                            ds[found@[p].0 as int],
                        ),
                decreases found@.len() - j,
            {
                let id = found[j].0;
                let row = self.dataset.row(id);
                let mut toks: Vec<u32> = Vec::new();
                let mut p: usize = 0;
                while p < row.len()
                    invariant
                        p <= row@.len(),
                        toks@.len() == p,
                        forall|w: int| 0 <= w < p ==> #[trigger] toks@[w] == token_of(row@[w]),
                    decreases row@.len() - p,
                {
                    let x = row[p];
                    let tok: u32 = if x < 0 {
                        0
                    } else if x > 4294967295i64 {
                        4294967295u32
                    } else {
                        x as u32
                    };
                    toks.push(tok);
                    p += 1;
                }
                proof {
                    assert(toks@ =~= tokens_of_row(ds[found@[j as int].0 as int]));
                }
                lists.push(toks);
                j += 1;
            }
            proof {
                assert(neighbor_lists_ok(
                    ds,
                    m,
                    self.k as int,
                    chunk_query(input_seq@, c as int, cs as int),
                    lists@,
                )) by {
                    assert(search_result_valid(
                        ds,
                        m,
                        self.k as int,
                        chunk_query(input_seq@, c as int, cs as int),
                        found@,
                    ));
                }
            }
            out.push(lists);
            c += 1;
        }
        Ok(out)
    }
}

/// The query vector of chunk `c`: `chunk_size` consecutive tokens.
pub open spec fn chunk_query(input: Seq<u32>, c: int, chunk_size: int) -> Seq<i64> {
    Seq::new(chunk_size as nat, |t: int| input[c * chunk_size + t] as i64)
}

/// One stored component read back as a token, clamped to the token range.
pub open spec fn token_of(x: i64) -> u32 {
    if x < 0 {
        0u32
    } else if x > u32::MAX {
        u32::MAX
    } else {
        x as u32
    }
}

/// A stored row read back as a token sequence.
pub open spec fn tokens_of_row(row: Seq<i64>) -> Seq<u32> {
    Seq::new(row.len(), |i: int| token_of(row[i]))
}

/// The neighbor token lists of one chunk: the token sequences of the rows
/// a valid search returns, in search order.
pub open spec fn neighbor_lists_ok(
    ds: Seq<Seq<i64>>,
    m: DistanceMeasure,
    k: int,
    q: Seq<i64>,
    lists: Seq<Vec<u32>>,
) -> bool {
    exists|ids: Seq<(usize, i128)>|
        #[trigger] search_result_valid(ds, m, k, q, ids) && lists.len() == ids.len() && (forall|
            j: int,
        |
            0 <= j < ids.len() ==> (#[trigger] lists[j])@ == tokens_of_row(ds[ids[j].0 as int]))
}

} // verus!
