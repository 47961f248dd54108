//! Partitions of a finite state space, their common refinements and their
//! pull-backs under a transformation: the combinatorial side of
//! Kolmogorov-Sinai entropy.

use vstd::prelude::*;
use crate::measure::{
    index_range, iterate_map, law_iterate_add, lemma_distinct_below, lemma_filter_index_range, path_in_bounds,
    preimage_seq, slice_contains, Transformation,
};

verus! {

broadcast use vstd::seq_lib::group_filter_ensures;

/// A partition of the state space into disjoint subsets.
#[derive(Debug, Clone)]
pub struct Partition {
    /// Each element is a set of state indices forming one cell of the partition.
    pub cells: Vec<Vec<usize>>,
}

/// The cells of a partition, as sequences.
pub open spec fn cells_view(cells: Seq<Vec<usize>>) -> Seq<Seq<usize>> {
    cells.map_values(|c: Vec<usize>| c@)
}

impl View for Partition {
    type V = Seq<Seq<usize>>;

    open spec fn view(&self) -> Seq<Seq<usize>> {
        cells_view(self.cells@)
    }
}

/// The points of `b` that also lie in `a`, in the order of `b`.
pub open spec fn meet(a: Seq<usize>, b: Seq<usize>) -> Seq<usize> {
    b.filter(|x: usize| a.contains(x))
}

/// The nonempty intersections of `a` with each of `bs`, in the order of `bs`.
pub open spec fn join_row(a: Seq<usize>, bs: Seq<Seq<usize>>) -> Seq<Seq<usize>>
    decreases bs.len(),
{
    if bs.len() == 0 {
        seq![]
    } else {
        let prev = join_row(a, bs.drop_last());
        if meet(a, bs.last()).len() > 0 {
            prev.push(meet(a, bs.last()))
        } else {
            prev
        }
    }
}

/// The common refinement of two partitions: the nonempty intersections of
/// each cell of the first with each cell of the second.
pub open spec fn join_cells(cs: Seq<Seq<usize>>, bs: Seq<Seq<usize>>) -> Seq<Seq<usize>>
    decreases cs.len(),
{
    if cs.len() == 0 {
        seq![]
    } else {
        join_cells(cs.drop_last(), bs) + join_row(cs.last(), bs)
    }
}

/// Some cell of `cells` contains `x`.
pub open spec fn covers(cells: Seq<Seq<usize>>, x: usize) -> bool {
    exists|i: int| 0 <= i < cells.len() && #[trigger] cells[i].contains(x)
}

/// The pull-back T^{-1}(alpha): the preimage of each cell, in order.
pub open spec fn pull_back(map: Seq<usize>, cells: Seq<Seq<usize>>) -> Seq<Seq<usize>> {
    cells.map_values(|c: Seq<usize>| preimage_seq(map, c))
}

/// T^{-k}(alpha): the partition pulled back `k` times.
pub open spec fn pull_back_iter(map: Seq<usize>, cells: Seq<Seq<usize>>, k: nat) -> Seq<Seq<usize>>
    decreases k,
{
    if k == 0 {
        cells
    } else {
        pull_back(map, pull_back_iter(map, cells, (k - 1) as nat))
    }
}

/// The refinement alpha v T^{-1}(alpha) v ... v T^{-(n-1)}(alpha), joined from
/// the left; for n of 0 or 1 it is alpha itself.
pub open spec fn refinement(map: Seq<usize>, cells: Seq<Seq<usize>>, n: nat) -> Seq<Seq<usize>>
    decreases n,
{
    if n <= 1 {
        cells
    } else {
        join_cells(refinement(map, cells, (n - 1) as nat), pull_back_iter(map, cells, (n - 1) as nat))
    }
}

/// A point lies in the meet of two cells exactly when it lies in both.
pub proof fn lemma_meet_contains(a: Seq<usize>, b: Seq<usize>, x: usize)
    ensures
        meet(a, b).contains(x) <==> (a.contains(x) && b.contains(x)),
{
    let p = |y: usize| a.contains(y);
    if meet(a, b).contains(x) {
        b.lemma_filter_contains_rev(p, x);
        let i = choose|i: int| 0 <= i < b.filter(p).len() && b.filter(p)[i] == x;
        assert(p(b.filter(p)[i]));
    }
    if a.contains(x) && b.contains(x) {
        let i = choose|i: int| 0 <= i < b.len() && b[i] == x;
        assert(b.filter(p).contains(b[i]));
    }
}

proof fn lemma_join_row_covers(a: Seq<usize>, bs: Seq<Seq<usize>>, x: usize)
    ensures
        covers(join_row(a, bs), x) <==> (a.contains(x) && covers(bs, x)),
    decreases bs.len(),
{
    if bs.len() > 0 {
        let prev = join_row(a, bs.drop_last());
        let m = meet(a, bs.last());
        lemma_join_row_covers(a, bs.drop_last(), x);
        lemma_meet_contains(a, bs.last(), x);
        if covers(join_row(a, bs), x) {
            let i = choose|i: int| 0 <= i < join_row(a, bs).len() && #[trigger] join_row(a, bs)[i].contains(x);
            if i < prev.len() {
                assert(prev[i] == join_row(a, bs)[i]);
                assert(covers(prev, x));
                let k = choose|k: int| 0 <= k < bs.drop_last().len() && #[trigger] bs.drop_last()[k].contains(x);
                assert(bs[k].contains(x));
            } else {
                assert(bs[bs.len() - 1].contains(x));
            }
        }
        if a.contains(x) && covers(bs, x) {
            let k = choose|k: int| 0 <= k < bs.len() && #[trigger] bs[k].contains(x);
            if k < bs.len() - 1 {
                assert(bs.drop_last()[k].contains(x));
                let i = choose|i: int| 0 <= i < prev.len() && #[trigger] prev[i].contains(x);
                assert(join_row(a, bs)[i] == prev[i]);
            } else {
                assert(m.contains(x));
                assert(join_row(a, bs)[prev.len() as int] == m);
            }
        }
    }
}

/// A point is covered by the common refinement of two partitions exactly when
/// it is covered by both.
pub proof fn law_join_covers(cs: Seq<Seq<usize>>, bs: Seq<Seq<usize>>, x: usize)
    ensures
        covers(join_cells(cs, bs), x) <==> (covers(cs, x) && covers(bs, x)),
    decreases cs.len(),
{
    if cs.len() > 0 {
        let prev = join_cells(cs.drop_last(), bs);
        let row = join_row(cs.last(), bs);
        law_join_covers(cs.drop_last(), bs, x);
        lemma_join_row_covers(cs.last(), bs, x);
        let all = prev + row;
        if covers(all, x) {
            let i = choose|i: int| 0 <= i < all.len() && #[trigger] all[i].contains(x);
            if i < prev.len() {
                assert(prev[i] == all[i]);
                let k = choose|k: int| 0 <= k < cs.drop_last().len() && #[trigger] cs.drop_last()[k].contains(x);
                assert(cs[k].contains(x));
            } else {
                assert(row[i - prev.len()] == all[i]);
                assert(covers(row, x));
                assert(cs[cs.len() - 1].contains(x));
            }
        }
        if covers(cs, x) && covers(bs, x) {
            let k = choose|k: int| 0 <= k < cs.len() && #[trigger] cs[k].contains(x);
            if k < cs.len() - 1 {
                assert(cs.drop_last()[k].contains(x));
                let i = choose|i: int| 0 <= i < prev.len() && #[trigger] prev[i].contains(x);
                assert(all[i] == prev[i]);
            } else {
                let i = choose|i: int| 0 <= i < row.len() && #[trigger] row[i].contains(x);
                assert(all[prev.len() + i] == row[i]);
            }
        }
    }
}

/// Cell `k1` of the join comes before cell `k2` in the order of their
/// origins: first by the cell of the first partition, then of the second.
spec fn origin_before(ia: Seq<int>, ib: Seq<int>, k1: int, k2: int) -> bool {
    ia[k1] < ia[k2] || (ia[k1] == ia[k2] && ib[k1] < ib[k2])
}

/// Where the cells of `join_row(a, bs)` come from: cell `k` is the meet of
/// `a` with `bs[jb[k]]`, the indices increase, and every nonempty meet occurs.
proof fn lemma_join_row_origin(a: Seq<usize>, bs: Seq<Seq<usize>>) -> (jb: Seq<int>)
    ensures
        jb.len() == join_row(a, bs).len(),
        forall|k: int| 0 <= k < jb.len() ==> 0 <= #[trigger] jb[k] < bs.len()
            && join_row(a, bs)[k] == meet(a, bs[jb[k]]) && join_row(a, bs)[k].len() > 0,
        forall|k1: int, k2: int| 0 <= k1 < k2 < jb.len() ==> #[trigger] jb[k1] < #[trigger] jb[k2],
        forall|j: int| 0 <= j < bs.len() && #[trigger] meet(a, bs[j]).len() > 0 ==>
            exists|k: int| 0 <= k < jb.len() && #[trigger] jb[k] == j,
    decreases bs.len(),
{
    if bs.len() == 0 {
        Seq::empty()
    } else {
        let t = bs.drop_last();
        let prev = lemma_join_row_origin(a, t);
        let last = bs.len() - 1;
        let prow = join_row(a, t);
        assert forall|j: int| 0 <= j < t.len() implies #[trigger] t[j] == bs[j] by {}
        if meet(a, bs.last()).len() > 0 {
            let jb = prev.push(last);
            assert(join_row(a, bs) == prow.push(meet(a, bs.last())));
            assert forall|k: int| 0 <= k < jb.len() implies 0 <= #[trigger] jb[k] < bs.len()
                && join_row(a, bs)[k] == meet(a, bs[jb[k]]) && join_row(a, bs)[k].len() > 0 by {
                if k < prev.len() {
                    assert(jb[k] == prev[k]);
                    assert(t[prev[k]] == bs[prev[k]]);
                }
            }
            assert forall|k1: int, k2: int| 0 <= k1 < k2 < jb.len() implies #[trigger] jb[k1] < #[trigger] jb[k2] by {
                assert(jb[k1] == prev[k1]);
                if k2 < prev.len() {
                    assert(jb[k2] == prev[k2]);
                }
            }
            assert forall|j: int| 0 <= j < bs.len() && #[trigger] meet(a, bs[j]).len() > 0 implies
                exists|k: int| 0 <= k < jb.len() && #[trigger] jb[k] == j by {
                if j < last {
                    assert(t[j] == bs[j]);
                    assert(meet(a, t[j]).len() > 0);
                    let k = choose|k: int| 0 <= k < prev.len() && #[trigger] prev[k] == j;
                    assert(jb[k] == j);
                } else {
                    assert(jb[prev.len() as int] == j);
                }
            }
            jb
        } else {
            assert(join_row(a, bs) == prow);
            assert forall|k: int| 0 <= k < prev.len() implies 0 <= #[trigger] prev[k] < bs.len()
                && join_row(a, bs)[k] == meet(a, bs[prev[k]]) && join_row(a, bs)[k].len() > 0 by {
                assert(t[prev[k]] == bs[prev[k]]);
            }
            assert forall|j: int| 0 <= j < bs.len() && #[trigger] meet(a, bs[j]).len() > 0 implies
                exists|k: int| 0 <= k < prev.len() && #[trigger] prev[k] == j by {
                if j < last {
                    assert(t[j] == bs[j]);
                    assert(meet(a, t[j]).len() > 0);
                }
            }
            prev
        }
    }
}

/// Where the cells of `join_cells(cs, bs)` come from: cell `k` is the meet
/// of `cs[ia[k]]` and `bs[ib[k]]`, the pairs of indices increase, and every
/// nonempty meet occurs.
proof fn lemma_join_origin(cs: Seq<Seq<usize>>, bs: Seq<Seq<usize>>) -> (r: (Seq<int>, Seq<int>))
    ensures
        r.0.len() == join_cells(cs, bs).len(),
        r.1.len() == join_cells(cs, bs).len(),
        forall|k: int| 0 <= k < r.0.len() ==> 0 <= #[trigger] r.0[k] < cs.len() && 0 <= r.1[k] < bs.len()
            && join_cells(cs, bs)[k] == meet(cs[r.0[k]], bs[r.1[k]]) && join_cells(cs, bs)[k].len() > 0,
        forall|k1: int, k2: int| 0 <= k1 < k2 < r.0.len() ==> #[trigger] origin_before(r.0, r.1, k1, k2),
        forall|i: int, j: int| 0 <= i < cs.len() && 0 <= j < bs.len() && #[trigger] meet(cs[i], bs[j]).len() > 0 ==>
            exists|k: int| 0 <= k < r.0.len() && #[trigger] r.0[k] == i && r.1[k] == j,
    decreases cs.len(),
{
    if cs.len() == 0 {
        (Seq::empty(), Seq::empty())
    } else {
        let t = cs.drop_last();
        let (ia0, ib0) = lemma_join_origin(t, bs);
        let jb = lemma_join_row_origin(cs.last(), bs);
        let last = cs.len() - 1;
        let n0 = ia0.len();
        let ia = ia0 + Seq::new(jb.len(), |m: int| last);
        let ib = ib0 + jb;
        let prev = join_cells(t, bs);
        let row = join_row(cs.last(), bs);
        assert(join_cells(cs, bs) == prev + row);
        assert forall|i: int| 0 <= i < t.len() implies #[trigger] t[i] == cs[i] by {}
        assert forall|k: int| 0 <= k < ia.len() implies 0 <= #[trigger] ia[k] < cs.len() && 0 <= ib[k] < bs.len()
            && join_cells(cs, bs)[k] == meet(cs[ia[k]], bs[ib[k]]) && join_cells(cs, bs)[k].len() > 0 by {
            if k < n0 {
                assert(ia[k] == ia0[k] && ib[k] == ib0[k]);
                assert(t[ia0[k]] == cs[ia0[k]]);
            } else {
                assert(ia[k] == last && ib[k] == jb[k - n0]);
                assert(join_cells(cs, bs)[k] == row[k - n0]);
            }
        }
        assert forall|k1: int, k2: int| 0 <= k1 < k2 < ia.len() implies #[trigger] origin_before(ia, ib, k1, k2) by {
            if k2 < n0 {
                assert(origin_before(ia0, ib0, k1, k2));
            } else if k1 < n0 {
                assert(ia[k1] == ia0[k1]);
            } else {
                assert(jb[k1 - n0] < jb[k2 - n0]);
            }
        }
        assert forall|i: int, j: int| 0 <= i < cs.len() && 0 <= j < bs.len() && #[trigger] meet(cs[i], bs[j]).len() > 0 implies
            exists|k: int| 0 <= k < ia.len() && #[trigger] ia[k] == i && ib[k] == j by {
            if i < last {
                assert(meet(t[i], bs[j]).len() > 0);
                let k = choose|k: int| 0 <= k < n0 && #[trigger] ia0[k] == i && ib0[k] == j;
                assert(ia[k] == i && ib[k] == j);
            } else {
                assert(meet(cs.last(), bs[j]).len() > 0);
                let m = choose|m: int| 0 <= m < jb.len() && #[trigger] jb[m] == j;
                assert(ia[n0 + m] == i && ib[n0 + m] == j);
            }
        }
        let r = (ia, ib);
        assert(r.0 == ia && r.1 == ib);
        r
    }
}

/// `cells` is a partition of the set `space`: its cells are nonempty and
/// hold no point twice, no point lies in two cells, and the points that some
/// cell covers are exactly those of `space`.
pub open spec fn is_partition_of(cells: Seq<Seq<usize>>, space: Set<usize>) -> bool {
    &&& forall|i: int| 0 <= i < cells.len() ==> (#[trigger] cells[i]).len() > 0 && cells[i].no_duplicates()
    &&& forall|i: int, j: int, x: usize| 0 <= i < cells.len() && 0 <= j < cells.len() && i != j
        && #[trigger] cells[i].contains(x) ==> !#[trigger] cells[j].contains(x)
    &&& forall|x: usize| #[trigger] covers(cells, x) == space.contains(x)
}

/// The value `v` occurs in `s`.
spec fn hits(s: Seq<int>, v: int) -> bool {
    exists|k: int| 0 <= k < s.len() && #[trigger] s[k] == v
}

/// Filtering keeps a sequence free of repeated points.
proof fn lemma_filter_no_duplicates(s: Seq<usize>, p: spec_fn(usize) -> bool)
    requires
        s.no_duplicates(),
    ensures
        s.filter(p).no_duplicates(),
    decreases s.len(),
{
    reveal_with_fuel(Seq::filter, 1);
    if s.len() > 0 {
        let t = s.drop_last();
        assert forall|i: int, j: int| 0 <= i < t.len() && 0 <= j < t.len() && i != j implies t[i] != t[j] by {
            assert(t[i] == s[i] && t[j] == s[j]);
        }
        lemma_filter_no_duplicates(t, p);
        let sub = t.filter(p);
        let e = s.last();
        if p(e) {
            assert(!sub.contains(e)) by {
                if sub.contains(e) {
                    t.lemma_filter_contains_rev(p, e);
                    let i = choose|i: int| 0 <= i < t.len() && t[i] == e;
                    assert(s[i] == s[s.len() - 1]);
                }
            }
            let r = sub.push(e);
            assert forall|i: int, j: int| 0 <= i < r.len() && 0 <= j < r.len() && i != j implies r[i] != r[j] by {
                if i == sub.len() {
                    assert(sub.contains(r[j]) ==> r[j] != e);
                    assert(r[j] == sub[j]);
                } else if j == sub.len() {
                    assert(r[i] == sub[i]);
                } else {
                    assert(r[i] == sub[i] && r[j] == sub[j]);
                }
            }
        }
    }
}

proof fn lemma_join_row_len(a: Seq<usize>, bs: Seq<Seq<usize>>)
    ensures
        join_row(a, bs).len() <= bs.len(),
    decreases bs.len(),
{
    if bs.len() > 0 {
        lemma_join_row_len(a, bs.drop_last());
    }
}

proof fn lemma_join_len(cs: Seq<Seq<usize>>, bs: Seq<Seq<usize>>)
    ensures
        join_cells(cs, bs).len() <= cs.len() * bs.len(),
    decreases cs.len(),
{
    if cs.len() > 0 {
        lemma_join_len(cs.drop_last(), bs);
        lemma_join_row_len(cs.last(), bs);
        let m = cs.len() as int;
        let b = bs.len() as int;
        assert((m - 1) * b + b == m * b) by (nonlinear_arith);
    }
}

/// The common refinement of two partitions of a set is again a partition of
/// that set. Each of its cells is the intersection of a cell of the first
/// with a cell of the second (the points of the second cell that lie in the
/// first, in their order there), and it has at least as many cells as either
/// partition and at most the product of their numbers of cells.
pub proof fn law_join_is_partition(cs: Seq<Seq<usize>>, bs: Seq<Seq<usize>>, space: Set<usize>)
    requires
        is_partition_of(cs, space),
        is_partition_of(bs, space),
    ensures
        is_partition_of(join_cells(cs, bs), space),
        forall|k: int| 0 <= k < join_cells(cs, bs).len() ==> exists|i: int, j: int|
            0 <= i < cs.len() && 0 <= j < bs.len() && #[trigger] join_cells(cs, bs)[k] == meet(cs[i], bs[j]),
        cs.len() <= join_cells(cs, bs).len(),
        bs.len() <= join_cells(cs, bs).len(),
        join_cells(cs, bs).len() <= cs.len() * bs.len(),
{
    let jn = join_cells(cs, bs);
    let (ia, ib) = lemma_join_origin(cs, bs);
    lemma_join_len(cs, bs);
    // cells are nonempty and hold no point twice
    assert forall|k: int| 0 <= k < jn.len() implies (#[trigger] jn[k]).len() > 0 && jn[k].no_duplicates() by {
        lemma_filter_no_duplicates(bs[ib[k]], |x: usize| cs[ia[k]].contains(x));
    }
    // no point lies in two cells
    assert forall|k1: int, k2: int, x: usize| 0 <= k1 < jn.len() && 0 <= k2 < jn.len() && k1 != k2
        && #[trigger] jn[k1].contains(x) implies !#[trigger] jn[k2].contains(x) by {
        if jn[k2].contains(x) {
            lemma_meet_contains(cs[ia[k1]], bs[ib[k1]], x);
            lemma_meet_contains(cs[ia[k2]], bs[ib[k2]], x);
            assert(ia[k1] == ia[k2]);
            assert(ib[k1] == ib[k2]);
            if k1 < k2 {
                assert(origin_before(ia, ib, k1, k2));
            } else {
                assert(origin_before(ia, ib, k2, k1));
            }
        }
    }
    // the covered points are those of the space
    assert forall|x: usize| #[trigger] covers(jn, x) == space.contains(x) by {
        law_join_covers(cs, bs, x);
    }
    // each cell is the meet of a cell of each partition
    assert forall|k: int| 0 <= k < jn.len() implies exists|i: int, j: int|
        0 <= i < cs.len() && 0 <= j < bs.len() && #[trigger] jn[k] == meet(cs[i], bs[j]) by {
        assert(jn[k] == meet(cs[ia[k]], bs[ib[k]]));
    }
    // every cell of either partition meets some cell of the other, and the
    // cells of the join that these meets give are distinct
    assert forall|i: int| 0 <= i < cs.len() implies #[trigger] hits(ia, i) by {
        let x = cs[i][0];
        assert(cs[i].contains(x));
        assert(covers(cs, x));
        assert(covers(bs, x));
        let j = choose|j: int| 0 <= j < bs.len() && #[trigger] bs[j].contains(x);
        lemma_meet_contains(cs[i], bs[j], x);
        assert(meet(cs[i], bs[j]).len() > 0);
    }
    assert forall|j: int| 0 <= j < bs.len() implies #[trigger] hits(ib, j) by {
        let x = bs[j][0];
        assert(bs[j].contains(x));
        assert(covers(bs, x));
        assert(covers(cs, x));
        let i = choose|i: int| 0 <= i < cs.len() && #[trigger] cs[i].contains(x);
        lemma_meet_contains(cs[i], bs[j], x);
        assert(meet(cs[i], bs[j]).len() > 0);
        let k = choose|k: int| 0 <= k < ia.len() && #[trigger] ia[k] == i && ib[k] == j;
        assert(ib[k] == j);
    }
    let fa = Seq::new(cs.len(), |i: int| choose|k: int| 0 <= k < ia.len() && #[trigger] ia[k] == i);
    let fb = Seq::new(bs.len(), |j: int| choose|k: int| 0 <= k < ib.len() && #[trigger] ib[k] == j);
    assert forall|m: int| 0 <= m < fa.len() implies 0 <= #[trigger] fa[m] < jn.len() && ia[fa[m]] == m by {
        assert(hits(ia, m));
    }
    assert forall|m: int| 0 <= m < fb.len() implies 0 <= #[trigger] fb[m] < jn.len() && ib[fb[m]] == m by {
        assert(hits(ib, m));
    }
    assert(fa.no_duplicates());
    assert(fb.no_duplicates());
    lemma_distinct_below(fa, jn.len() as int);
    lemma_distinct_below(fb, jn.len() as int);
}

/// A point is covered by T^{-1}(alpha) exactly when it lies in the domain and
/// its image is covered by alpha.
pub proof fn law_pull_back_covers(map: Seq<usize>, cells: Seq<Seq<usize>>, x: usize)
    requires
        map.len() <= usize::MAX + 1,
    ensures
        covers(pull_back(map, cells), x) <==> (x < map.len() && covers(cells, map[x as int])),
{
    let pb = pull_back(map, cells);
    if covers(pb, x) {
        let i = choose|i: int| 0 <= i < pb.len() && #[trigger] pb[i].contains(x);
        lemma_filter_index_range(map.len(), |y: usize| cells[i].contains(map[y as int]));
        assert(cells[i].contains(map[x as int]));
    }
    if x < map.len() && covers(cells, map[x as int]) {
        let i = choose|i: int| 0 <= i < cells.len() && #[trigger] cells[i].contains(map[x as int]);
        lemma_filter_index_range(map.len(), |y: usize| cells[i].contains(map[y as int]));
        assert(pb[i].contains(x));
    }
}

/// A point lies in cell `i` of T^{-k}(alpha) exactly when its first k images
/// are defined (each of x, T(x), ..., T^{k-1}(x) lies in the domain) and
/// T^k(x) lies in cell `i` of alpha.
pub proof fn law_pull_back_iter_contains(map: Seq<usize>, cells: Seq<Seq<usize>>, k: nat, i: int, x: usize)
    requires
        map.len() <= usize::MAX + 1,
        0 <= i < cells.len(),
    ensures
        pull_back_iter(map, cells, k).len() == cells.len(),
        pull_back_iter(map, cells, k)[i].contains(x)
            <==> (path_in_bounds(map, x, k) && cells[i].contains(iterate_map(map, x, k))),
    decreases k,
{
    if k > 0 {
        let k1 = (k - 1) as nat;
        let prev = pull_back_iter(map, cells, k1);
        law_pull_back_iter_contains(map, cells, k1, i, map[x as int]);
        lemma_filter_index_range(map.len(), |y: usize| prev[i].contains(map[y as int]));
        assert(pull_back_iter(map, cells, k)[i] == preimage_seq(map, prev[i]));
        let y = map[x as int];
        law_iterate_add(map, x, 1, k1);
        assert(iterate_map(map, x, 0) == x);
        assert(iterate_map(map, x, 1) == y);
        if path_in_bounds(map, x, k) {
            assert(iterate_map(map, x, 0) < map.len());
            assert forall|j: nat| j < k1 implies #[trigger] iterate_map(map, y, j) < map.len() by {
                law_iterate_add(map, x, 1, j);
                assert(iterate_map(map, x, 1 + j) < map.len());
            }
        }
        if x < map.len() && path_in_bounds(map, y, k1) {
            assert forall|j: nat| j < k implies #[trigger] iterate_map(map, x, j) < map.len() by {
                if j > 0 {
                    law_iterate_add(map, x, 1, (j - 1) as nat);
                    assert(iterate_map(map, y, (j - 1) as nat) < map.len());
                }
            }
        }
    }
}

proof fn lemma_pull_back_iter_len(map: Seq<usize>, cells: Seq<Seq<usize>>, k: nat)
    ensures
        pull_back_iter(map, cells, k).len() == cells.len(),
    decreases k,
{
    if k > 0 {
        lemma_pull_back_iter_len(map, cells, (k - 1) as nat);
    }
}

/// Some cell of `cells` contains both `x` and `y`.
pub open spec fn share_cell(cells: Seq<Seq<usize>>, x: usize, y: usize) -> bool {
    exists|i: int| 0 <= i < cells.len() && #[trigger] cells[i].contains(x) && cells[i].contains(y)
}

/// Two points share a cell of the common refinement of two partitions
/// exactly when they share a cell of each.
pub proof fn law_join_shares(cs: Seq<Seq<usize>>, bs: Seq<Seq<usize>>, x: usize, y: usize)
    ensures
        share_cell(join_cells(cs, bs), x, y) <==> (share_cell(cs, x, y) && share_cell(bs, x, y)),
{
    let jn = join_cells(cs, bs);
    let (ia, ib) = lemma_join_origin(cs, bs);
    if share_cell(jn, x, y) {
        let k = choose|k: int| 0 <= k < jn.len() && #[trigger] jn[k].contains(x) && jn[k].contains(y);
        lemma_meet_contains(cs[ia[k]], bs[ib[k]], x);
        lemma_meet_contains(cs[ia[k]], bs[ib[k]], y);
        assert(cs[ia[k]].contains(x) && cs[ia[k]].contains(y));
        assert(bs[ib[k]].contains(x) && bs[ib[k]].contains(y));
    }
    if share_cell(cs, x, y) && share_cell(bs, x, y) {
        let i = choose|i: int| 0 <= i < cs.len() && #[trigger] cs[i].contains(x) && cs[i].contains(y);
        let j = choose|j: int| 0 <= j < bs.len() && #[trigger] bs[j].contains(x) && bs[j].contains(y);
        lemma_meet_contains(cs[i], bs[j], x);
        lemma_meet_contains(cs[i], bs[j], y);
        assert(meet(cs[i], bs[j]).len() > 0);
        let k = choose|k: int| 0 <= k < ia.len() && #[trigger] ia[k] == i && ib[k] == j;
        assert(jn[k].contains(x) && jn[k].contains(y));
    }
}

/// After `j` steps the two points are both still defined and lie in a
/// common cell of alpha: T^j(x) and T^j(y) share a cell.
pub open spec fn agree_at(map: Seq<usize>, cells: Seq<Seq<usize>>, x: usize, y: usize, j: nat) -> bool {
    &&& path_in_bounds(map, x, j)
    &&& path_in_bounds(map, y, j)
    &&& share_cell(cells, iterate_map(map, x, j), iterate_map(map, y, j))
}

/// Two points share a cell of alpha v T^{-1}(alpha) v ... v T^{-(n-1)}(alpha)
/// exactly when, for every j < n, their j-th images are defined and lie in a
/// common cell of alpha.
pub proof fn law_refinement_separates(map: Seq<usize>, cells: Seq<Seq<usize>>, n: nat, x: usize, y: usize)
    requires
        n >= 1,
        map.len() <= usize::MAX + 1,
    ensures
        share_cell(refinement(map, cells, n), x, y)
            <==> (forall|j: nat| j < n ==> #[trigger] agree_at(map, cells, x, y, j)),
    decreases n,
{
    assert forall|j: nat| #[trigger] share_cell(pull_back_iter(map, cells, j), x, y)
        == agree_at(map, cells, x, y, j) by {
        let pb = pull_back_iter(map, cells, j);
        if share_cell(pb, x, y) {
            let i = choose|i: int| 0 <= i < pb.len() && #[trigger] pb[i].contains(x) && pb[i].contains(y);
            lemma_pull_back_iter_len(map, cells, j);
            law_pull_back_iter_contains(map, cells, j, i, x);
            law_pull_back_iter_contains(map, cells, j, i, y);
        }
        if agree_at(map, cells, x, y, j) {
            let i = choose|i: int| 0 <= i < cells.len()
                && #[trigger] cells[i].contains(iterate_map(map, x, j)) && cells[i].contains(iterate_map(map, y, j));
            law_pull_back_iter_contains(map, cells, j, i, x);
            law_pull_back_iter_contains(map, cells, j, i, y);
            assert(pb[i].contains(x) && pb[i].contains(y));
        }
    }
    if n > 1 {
        let n1 = (n - 1) as nat;
        law_refinement_separates(map, cells, n1, x, y);
        law_join_shares(refinement(map, cells, n1), pull_back_iter(map, cells, n1), x, y);
        assert(share_cell(pull_back_iter(map, cells, n1), x, y) == agree_at(map, cells, x, y, n1));
        if forall|j: nat| j < n ==> #[trigger] agree_at(map, cells, x, y, j) {
            assert(agree_at(map, cells, x, y, n1));
        }
    } else {
        assert(share_cell(pull_back_iter(map, cells, 0), x, y) == agree_at(map, cells, x, y, 0));
        if forall|j: nat| j < n ==> #[trigger] agree_at(map, cells, x, y, j) {
            assert(agree_at(map, cells, x, y, 0));
        }
    }
}

/// A point is covered by the refinement of n pull-backs exactly when every
/// pull-back T^{-k}(alpha), k < n, covers it.
pub proof fn law_refinement_covers(map: Seq<usize>, cells: Seq<Seq<usize>>, n: nat, x: usize)
    requires
        n >= 1,
    ensures
        covers(refinement(map, cells, n), x) <==>
            (forall|k: nat| k < n ==> covers(#[trigger] pull_back_iter(map, cells, k), x)),
    decreases n,
{
    if n > 1 {
        let n1 = (n - 1) as nat;
        law_refinement_covers(map, cells, n1, x);
        law_join_covers(refinement(map, cells, n1), pull_back_iter(map, cells, n1), x);
        if forall|k: nat| k < n1 ==> covers(#[trigger] pull_back_iter(map, cells, k), x) {
            if covers(pull_back_iter(map, cells, n1), x) {
                assert forall|k: nat| k < n implies covers(#[trigger] pull_back_iter(map, cells, k), x) by {
                    if k < n1 {
                    }
                }
            }
        }
    } else {
        assert forall|k: nat| k < n implies covers(#[trigger] pull_back_iter(map, cells, k), x) <==> covers(cells, x) by {
            assert(k == 0);
        }
        if covers(cells, x) {
            assert(covers(pull_back_iter(map, cells, 0), x));
        }
        if forall|k: nat| k < n ==> covers(#[trigger] pull_back_iter(map, cells, k), x) {
            assert(covers(pull_back_iter(map, cells, 0), x));
        }
    }
}

impl Partition {
    /// A cell-by-cell copy of the partition.
    fn duplicate(&self) -> (p: Partition)
        ensures
            p@ == self@,
    {
        let mut cells: Vec<Vec<usize>> = Vec::new();
        let mut i: usize = 0;
        while i < self.cells.len()
            invariant
                i <= self.cells.len(),
                cells_view(cells@) == self@.take(i as int),
            decreases self.cells.len() - i,
        {
            let src = &self.cells[i];
            let mut cell: Vec<usize> = Vec::new();
            let mut k: usize = 0;
            while k < src.len()
                invariant
                    k <= src.len(),
                    cell@ == src@.take(k as int),
                decreases src.len() - k,
            {
                cell.push(src[k]);
                k = k + 1;
                assert(cell@ =~= src@.take(k as int));
            }
            assert(cell@ =~= self@[i as int]);
            let ghost prev_view = cells_view(cells@);
            cells.push(cell);
            assert(cells_view(cells@) =~= prev_view.push(self@[i as int]));
            i = i + 1;
            assert(self@.take(i as int) =~= self@.take(i - 1).push(self@[i - 1]));
        }
        assert(self@.take(self.cells.len() as int) =~= self@);
        Partition { cells }
    }

    /// Create a partition from cells.
    pub fn new(cells: Vec<Vec<usize>>) -> (p: Self)
        ensures
            p@ == cells_view(cells@),
    {
        Partition { cells }
    }

    /// The point partition: each point is its own cell.
    pub fn point_partition(n: usize) -> (p: Self)
        ensures
            p@ == Seq::new(n as nat, |i: int| seq![i as usize]),
    {
        let mut cells: Vec<Vec<usize>> = Vec::new();
        let mut i: usize = 0;
        while i < n
            invariant
                i <= n,
                cells_view(cells@) == Seq::new(i as nat, |k: int| seq![k as usize]),
            decreases n - i,
        {
            let mut cell: Vec<usize> = Vec::new();
            cell.push(i);
            assert(cell@ =~= seq![i]);
            let ghost prev_view = cells_view(cells@);
            cells.push(cell);
            assert(cells_view(cells@) =~= prev_view.push(seq![i]));
            i = i + 1;
            assert(cells_view(cells@) =~= Seq::new(i as nat, |k: int| seq![k as usize]));
        }
        Partition { cells }
    }

    /// The coarse partition: one cell containing everything.
    pub fn trivial_partition(n: usize) -> (p: Self)
        ensures
            p@ == seq![index_range(n as nat)],
    {
        let t = Transformation::identity(n);
        let mut cells: Vec<Vec<usize>> = Vec::new();
        cells.push(t.map);
        let p = Partition { cells };
        assert(p@ =~= seq![index_range(n as nat)]);
        p
    }

    /// Number of cells.
    pub fn num_cells(&self) -> (n: usize)
        ensures
            n == self@.len(),
    {
        self.cells.len()
    }

    /// Join (common refinement) of two partitions.
    pub fn join(&self, other: &Partition) -> (joined: Partition)
        ensures
            joined@ == join_cells(self@, other@),
    {
        let mut cells: Vec<Vec<usize>> = Vec::new();
        let mut ai: usize = 0;
        while ai < self.cells.len()
            invariant
                ai <= self.cells.len(),
                cells_view(cells@) == join_cells(self@.take(ai as int), other@),
            decreases self.cells.len() - ai,
        {
            let a = self.cells[ai].as_slice();
            let ghost done = cells_view(cells@);
            let mut bi: usize = 0;
            while bi < other.cells.len()
                invariant
                    bi <= other.cells.len(),
                    ai < self.cells.len(),
                    a@ == self@[ai as int],
                    cells_view(cells@) == done + join_row(a@, other@.take(bi as int)),
                decreases other.cells.len() - bi,
            {
                let b = &other.cells[bi];
                let ghost p = |x: usize| a@.contains(x);
                let mut inter: Vec<usize> = Vec::new();
                let mut k: usize = 0;
                while k < b.len()
                    invariant
                        k <= b.len(),
                        p == (|x: usize| a@.contains(x)),
                        inter@ == b@.take(k as int).filter(p),
                    decreases b.len() - k,
                {
                    proof {
                        reveal_with_fuel(Seq::filter, 1);
                        assert(b@.take(k + 1).drop_last() =~= b@.take(k as int));
                    }
                    if slice_contains(a, b[k]) {
                        inter.push(b[k]);
                    }
                    k = k + 1;
                }
                proof {
                    assert(b@.take(b.len() as int) =~= b@);
                    assert(other@.take(bi + 1).drop_last() =~= other@.take(bi as int));
                    assert(other@[bi as int] == b@);
                }
                assert(inter@ == meet(a@, b@));
                assert(other@.take(bi + 1).last() == b@);
                let ghost prev_view = cells_view(cells@);
                if inter.len() > 0 {
                    cells.push(inter);
                    assert(cells_view(cells@) =~= prev_view.push(meet(a@, b@)));
                } else {
                    assert(cells_view(cells@) =~= prev_view);
                }
                bi = bi + 1;
                assert(cells_view(cells@) =~= done + join_row(a@, other@.take(bi as int)));
            }
            proof {
                assert(other@.take(other.cells.len() as int) =~= other@);
                assert(self@.take(ai + 1).drop_last() =~= self@.take(ai as int));
            }
            ai = ai + 1;
        }
        proof {
            assert(self@.take(self.cells.len() as int) =~= self@);
        }
        Partition { cells }
    }

    /// Pull the partition back through the transformation:
    /// T^{-1}(alpha) = {T^{-1}(A) : A in alpha}, each cell in increasing order.
    pub fn preimage_partition(&self, transformation: &Transformation) -> (pre: Partition)
        ensures
            pre@ == pull_back(transformation.map@, self@),
    {
        let mut cells: Vec<Vec<usize>> = Vec::new();
        let mut i: usize = 0;
        while i < self.cells.len()
            invariant
                i <= self.cells.len(),
                cells_view(cells@) == pull_back(transformation.map@, self@.take(i as int)),
            decreases self.cells.len() - i,
        {
            let pre = transformation.preimage(self.cells[i].as_slice());
            assert(self@[i as int] == self.cells@[i as int]@);
            assert(pre@ == preimage_seq(transformation.map@, self@[i as int]));
            let ghost prev_view = cells_view(cells@);
            cells.push(pre);
            assert(cells_view(cells@) =~= prev_view.push(preimage_seq(transformation.map@, self@[i as int])));
            assert(self@.take(i + 1) =~= self@.take(i as int).push(self@[i as int]));
            i = i + 1;
            assert(cells_view(cells@) =~= pull_back(transformation.map@, self@.take(i as int)));
        }
        assert(self@.take(self.cells.len() as int) =~= self@);
        Partition { cells }
    }
}

/// Kolmogorov-Sinai entropy: the refinements of a partition along the dynamics.
pub struct KolmogorovSinaiEntropy;

impl KolmogorovSinaiEntropy {
    /// The refined partition alpha v T^{-1}(alpha) v ... v T^{-(n-1)}(alpha)
    /// whose entropy, divided by n, approximates h(T, alpha).
    pub fn refined_partition(transformation: &Transformation, partition: &Partition, n_steps: usize) -> (refined: Partition)
        ensures
            refined@ == refinement(transformation.map@, partition@, n_steps as nat),
            n_steps >= 1 ==> forall|x: usize, y: usize| #[trigger] share_cell(refined@, x, y)
                <==> (forall|j: nat| j < n_steps ==> #[trigger] agree_at(transformation.map@, partition@, x, y, j)),
    {
        let mut refined = partition.duplicate();
        let mut k: usize = 1;
        while k < n_steps
            invariant
                1 <= k,
                k <= n_steps || k == 1,
                refined@ == refinement(transformation.map@, partition@, k as nat),
            decreases n_steps - k,
        {
            let mut t_inv_k = partition.duplicate();
            let mut m: usize = 0;
            while m < k
                invariant
                    m <= k,
                    t_inv_k@ == pull_back_iter(transformation.map@, partition@, m as nat),
                decreases k - m,
            {
                t_inv_k = t_inv_k.preimage_partition(transformation);
                m = m + 1;
            }
            refined = refined.join(&t_inv_k);
            k = k + 1;
        }
        assert(refinement(transformation.map@, partition@, 0) == partition@);
        assert(refinement(transformation.map@, partition@, 1) == partition@);
        let map_len = transformation.map.len();
        proof {
            assert(transformation.map@.len() == map_len);
            if n_steps >= 1 {
                assert forall|x: usize, y: usize| #[trigger] share_cell(refined@, x, y)
                    <==> (forall|j: nat| j < n_steps ==> #[trigger] agree_at(transformation.map@, partition@, x, y, j)) by {
                    law_refinement_separates(transformation.map@, partition@, n_steps as nat, x, y);
                }
            }
        }
        refined
    }
}

} // verus!
