//! Cylinder sets along an orbit: the points whose itinerary through the cells
//! of a partition agrees with that of a given start for n steps. Their measure
//! gives the information rate of the Shannon-McMillan-Breiman theorem.

use vstd::prelude::*;
use crate::entropy::Partition;
use crate::measure::{index_range, iterate_map, path_in_bounds, slice_contains, Transformation};

verus! {

/// The first cell, from index `i` on, that contains `x`; 0 when none does.
pub open spec fn find_cell(cells: Seq<Seq<usize>>, x: usize, i: nat) -> nat
    decreases cells.len() - i,
{
    if i >= cells.len() {
        0
    } else if cells[i as int].contains(x) {
        i
    } else {
        find_cell(cells, x, i + 1)
    }
}

/// The label of `x`: the index of the first cell containing it, or 0 when no
/// cell does.
pub open spec fn cell_label(cells: Seq<Seq<usize>>, x: usize) -> nat {
    find_cell(cells, x, 0)
}

proof fn lemma_find_cell(cells: Seq<Seq<usize>>, x: usize, i: nat)
    requires
        i <= cells.len(),
    ensures
        covers_from(cells, x, i) ==> {
            let l = find_cell(cells, x, i);
            &&& i <= l < cells.len()
            &&& cells[l as int].contains(x)
            &&& forall|j: int| i <= j < l ==> !(#[trigger] cells[j]).contains(x)
        },
        !covers_from(cells, x, i) ==> find_cell(cells, x, i) == 0,
    decreases cells.len() - i,
{
    if i < cells.len() {
        lemma_find_cell(cells, x, i + 1);
        if !cells[i as int].contains(x) {
            if covers_from(cells, x, i) {
                let k = choose|k: int| i <= k < cells.len() && #[trigger] cells[k].contains(x);
                assert(covers_from(cells, x, i + 1));
            }
            if covers_from(cells, x, i + 1) {
                let k = choose|k: int| i + 1 <= k < cells.len() && #[trigger] cells[k].contains(x);
                assert(covers_from(cells, x, i));
            }
        }
    }
}

/// Some cell from index `i` on contains `x`.
pub open spec fn covers_from(cells: Seq<Seq<usize>>, x: usize, i: nat) -> bool {
    exists|k: int| i <= k < cells.len() && #[trigger] cells[k].contains(x)
}

/// The label of a point names the first cell that contains it: when some
/// cell contains `x`, the label is the index of such a cell and no earlier
/// cell contains `x`; when no cell contains `x`, the label is 0.
pub proof fn law_cell_label_is_first_cell(cells: Seq<Seq<usize>>, x: usize)
    ensures
        (exists|i: int| 0 <= i < cells.len() && #[trigger] cells[i].contains(x)) ==> {
            &&& cell_label(cells, x) < cells.len()
            &&& cells[cell_label(cells, x) as int].contains(x)
            &&& forall|j: int| 0 <= j < cell_label(cells, x) ==> !(#[trigger] cells[j]).contains(x)
        },
        (forall|i: int| 0 <= i < cells.len() ==> !(#[trigger] cells[i]).contains(x)) ==> cell_label(cells, x) == 0,
{
    lemma_find_cell(cells, x, 0);
    if exists|i: int| 0 <= i < cells.len() && #[trigger] cells[i].contains(x) {
        let i = choose|i: int| 0 <= i < cells.len() && #[trigger] cells[i].contains(x);
        assert(covers_from(cells, x, 0));
    }
    if covers_from(cells, x, 0) {
        let k = choose|k: int| 0 <= k < cells.len() && #[trigger] cells[k].contains(x);
        assert(cells[k].contains(x));
    }
}

/// The first `k` points of the orbit of `x` carry the same labels as those of
/// the orbit of `start`.
pub open spec fn itinerary_matches(map: Seq<usize>, cells: Seq<Seq<usize>>, start: usize, x: usize, k: nat) -> bool {
    forall|j: nat| j < k ==>
        #[trigger] cell_label(cells, iterate_map(map, x, j)) == cell_label(cells, iterate_map(map, start, j))
}

/// How many of the points 0, ..., m-1 follow the itinerary of `start` for `k` steps.
pub open spec fn cylinder_size(map: Seq<usize>, cells: Seq<Seq<usize>>, start: usize, k: nat, m: nat) -> nat
    decreases m,
{
    if m == 0 {
        0
    } else {
        cylinder_size(map, cells, start, k, (m - 1) as nat) + if itinerary_matches(map, cells, start, (m - 1) as usize, k) {
            1nat
        } else {
            0nat
        }
    }
}

/// The walk from each point x < n_points can be followed as long as its
/// itinerary agrees with that of `start`.
pub open spec fn cylinder_walks_defined(map: Seq<usize>, cells: Seq<Seq<usize>>, start: usize, k: nat, n_points: nat) -> bool {
    forall|x: usize, j: nat| x < n_points && j < k && #[trigger] itinerary_matches(map, cells, start, x, j + 1) ==>
        iterate_map(map, x, j) < map.len()
}

proof fn lemma_cylinder_size_bounds(map: Seq<usize>, cells: Seq<Seq<usize>>, start: usize, k: nat, m: nat)
    ensures
        cylinder_size(map, cells, start, k, m) <= m,
        start < m ==> cylinder_size(map, cells, start, k, m) >= 1,
    decreases m,
{
    if m > 0 {
        lemma_cylinder_size_bounds(map, cells, start, k, (m - 1) as nat);
        if start == m - 1 {
            assert(itinerary_matches(map, cells, start, start, k));
        }
    }
}

/// The start lies in its own cylinder set: among points 0, ..., m-1 that
/// include the start, the cylinder holds at least one point (so the
/// information rate along the orbit is finite), and never more than m.
pub proof fn law_start_in_own_cylinder(map: Seq<usize>, cells: Seq<Seq<usize>>, start: usize, k: nat, m: nat)
    requires
        start < m,
    ensures
        1 <= cylinder_size(map, cells, start, k, m) <= m,
{
    lemma_cylinder_size_bounds(map, cells, start, k, m);
}

/// With at most one cell every point carries label 0, so every point follows
/// the itinerary of the start: the cylinder is the whole space and the
/// information rate is 0.
pub proof fn law_single_cell_cylinder(map: Seq<usize>, cells: Seq<Seq<usize>>, start: usize, k: nat, m: nat)
    requires
        cells.len() <= 1,
    ensures
        cylinder_size(map, cells, start, k, m) == m,
    decreases m,
{
    assert forall|y: usize| #[trigger] cell_label(cells, y) == 0 by {
        if cells.len() == 1 && !cells[0].contains(y) {
            assert(find_cell(cells, y, 1) == 0);
        }
    }
    if m > 0 {
        law_single_cell_cylinder(map, cells, start, k, (m - 1) as nat);
        let x = (m - 1) as usize;
        assert forall|j: nat| j < k implies
            #[trigger] cell_label(cells, iterate_map(map, x, j)) == cell_label(cells, iterate_map(map, start, j)) by {
            assert(cell_label(cells, iterate_map(map, x, j)) == 0);
            assert(cell_label(cells, iterate_map(map, start, j)) == 0);
        }
        assert(itinerary_matches(map, cells, start, x, k));
    }
}

/// Shannon-McMillan-Breiman theorem: cylinder sets along orbits.
pub struct ShannonMcMillanBreiman;

impl ShannonMcMillanBreiman {
    /// Index of the first cell of the partition containing `x` (0 if none).
    pub fn cell_of(partition: &Partition, x: usize) -> (label: usize)
        ensures
            label == cell_label(partition@, x),
            (exists|i: int| 0 <= i < partition@.len() && #[trigger] partition@[i].contains(x)) ==> {
                &&& label < partition@.len()
                &&& partition@[label as int].contains(x)
                &&& forall|j: int| 0 <= j < label ==> !(#[trigger] partition@[j]).contains(x)
            },
            (forall|i: int| 0 <= i < partition@.len() ==> !(#[trigger] partition@[i]).contains(x)) ==> label == 0,
    {
        proof {
            law_cell_label_is_first_cell(partition@, x);
        }
        let mut i: usize = 0;
        while i < partition.cells.len()
            invariant
                i <= partition.cells.len(),
                forall|j: int| 0 <= j < i ==> !partition@[j].contains(x),
                find_cell(partition@, x, 0) == find_cell(partition@, x, i as nat),
            decreases partition.cells.len() - i,
        {
            assert(partition@[i as int] == partition.cells@[i as int]@);
            if slice_contains(partition.cells[i].as_slice(), x) {
                return i;
            }
            i = i + 1;
        }
        0
    }

    /// The labels of the first `n_steps` points of the orbit of `start`.
    fn itinerary(transformation: &Transformation, partition: &Partition, start: usize, n_steps: usize) -> (labels: Vec<usize>)
        requires
            path_in_bounds(transformation.map@, start, n_steps as nat),
        ensures
            labels.len() == n_steps,
            forall|j: int| 0 <= j < n_steps ==> #[trigger] labels@[j]
                == cell_label(partition@, iterate_map(transformation.map@, start, j as nat)),
    {
        let ghost map = transformation.map@;
        let mut labels: Vec<usize> = Vec::new();
        let mut current = start;
        let mut k: usize = 0;
        while k < n_steps
            invariant
                k <= n_steps,
                map == transformation.map@,
                path_in_bounds(map, start, n_steps as nat),
                current == iterate_map(map, start, k as nat),
                labels.len() == k,
                forall|j: int| 0 <= j < k ==> #[trigger] labels@[j] == cell_label(partition@, iterate_map(map, start, j as nat)),
            decreases n_steps - k,
        {
            labels.push(Self::cell_of(partition, current));
            assert(iterate_map(map, start, k as nat) < map.len());
            current = transformation.apply(current);
            k = k + 1;
        }
        labels
    }

    /// Whether the orbit of `x` follows the itinerary `labels` of `start`;
    /// the walk stops at the first step whose label differs.
    fn follows_itinerary(
        transformation: &Transformation,
        partition: &Partition,
        labels: &Vec<usize>,
        start: usize,
        x: usize,
        n_steps: usize,
        n_points: usize,
    ) -> (matches: bool)
        requires
            x < n_points,
            labels.len() == n_steps,
            forall|j: int| 0 <= j < n_steps ==> #[trigger] labels@[j]
                == cell_label(partition@, iterate_map(transformation.map@, start, j as nat)),
            cylinder_walks_defined(transformation.map@, partition@, start, n_steps as nat, n_points as nat),
        ensures
            matches == itinerary_matches(transformation.map@, partition@, start, x, n_steps as nat),
    {
        let ghost map = transformation.map@;
        let ghost cells = partition@;
        let mut cur = x;
        let mut k: usize = 0;
        while k < n_steps
            invariant
                k <= n_steps,
                map == transformation.map@,
                cells == partition@,
                labels.len() == n_steps,
                forall|j: int| 0 <= j < n_steps ==> #[trigger] labels@[j] == cell_label(cells, iterate_map(map, start, j as nat)),
                cylinder_walks_defined(map, cells, start, n_steps as nat, n_points as nat),
                x < n_points,
                cur == iterate_map(map, x, k as nat),
                itinerary_matches(map, cells, start, x, k as nat),
            decreases n_steps - k,
        {
            let cell = Self::cell_of(partition, cur);
            if cell != labels[k] {
                assert(cell_label(cells, iterate_map(map, x, k as nat)) != cell_label(cells, iterate_map(map, start, k as nat)));
                return false;
            }
            assert(itinerary_matches(map, cells, start, x, (k + 1) as nat)) by {
                assert forall|j: nat| j < k + 1 implies
                    #[trigger] cell_label(cells, iterate_map(map, x, j)) == cell_label(cells, iterate_map(map, start, j)) by {
                    if j < k {
                        assert(itinerary_matches(map, cells, start, x, k as nat));
                    }
                }
            }
            assert(iterate_map(map, x, k as nat) < map.len());
            cur = transformation.apply(cur);
            k = k + 1;
        }
        true
    }

    /// Whether every walk that the cylinder set needs stays in the domain of
    /// the map: the orbit of `start` for `n_steps` steps, and the walk from
    /// each point x < n_points for as long as its itinerary agrees with that
    /// of `start`.
    pub fn cylinder_walks_in_domain(
        transformation: &Transformation,
        partition: &Partition,
        start: usize,
        n_steps: usize,
        n_points: usize,
    ) -> (ok: bool)
        ensures
            ok == (path_in_bounds(transformation.map@, start, n_steps as nat)
                && cylinder_walks_defined(transformation.map@, partition@, start, n_steps as nat, n_points as nat)),
    {
        let ghost map = transformation.map@;
        let ghost cells = partition@;
        let n = transformation.map.len();
        let mut current = start;
        let mut k: usize = 0;
        while k < n_steps
            invariant
                k <= n_steps,
                map == transformation.map@,
                n == map.len(),
                current == iterate_map(map, start, k as nat),
                forall|j: nat| j < k ==> #[trigger] iterate_map(map, start, j) < map.len(),
            decreases n_steps - k,
        {
            if current >= n {
                assert(!path_in_bounds(map, start, n_steps as nat)) by {
                    assert(iterate_map(map, start, k as nat) >= map.len());
                }
                return false;
            }
            current = transformation.apply(current);
            k = k + 1;
        }
        assert(path_in_bounds(map, start, n_steps as nat));
        let labels = Self::itinerary(transformation, partition, start, n_steps);
        let mut x: usize = 0;
        while x < n_points
            invariant
                x <= n_points,
                map == transformation.map@,
                cells == partition@,
                n == map.len(),
                path_in_bounds(map, start, n_steps as nat),
                labels.len() == n_steps,
                forall|j: int| 0 <= j < n_steps ==> #[trigger] labels@[j] == cell_label(cells, iterate_map(map, start, j as nat)),
                forall|y: usize, j: nat| y < x && j < n_steps && #[trigger] itinerary_matches(map, cells, start, y, j + 1) ==>
                    iterate_map(map, y, j) < map.len(),
            decreases n_points - x,
        {
            let mut cur = x;
            let mut k: usize = 0;
            while k < n_steps
                invariant_except_break
                    itinerary_matches(map, cells, start, x, k as nat),
                invariant
                    k <= n_steps,
                    x < n_points,
                    map == transformation.map@,
                    cells == partition@,
                    n == map.len(),
                    labels.len() == n_steps,
                    forall|j: int| 0 <= j < n_steps ==> #[trigger] labels@[j] == cell_label(cells, iterate_map(map, start, j as nat)),
                    cur == iterate_map(map, x, k as nat),
                    forall|j: nat| j < k ==> #[trigger] iterate_map(map, x, j) < map.len(),
                ensures
                    forall|j: nat| j < n_steps && #[trigger] itinerary_matches(map, cells, start, x, j + 1) ==>
                        iterate_map(map, x, j) < map.len(),
                decreases n_steps - k,
            {
                let cell = Self::cell_of(partition, cur);
                if cell != labels[k] {
                    assert forall|j: nat| j < n_steps && #[trigger] itinerary_matches(map, cells, start, x, j + 1) implies
                        iterate_map(map, x, j) < map.len() by {
                        if j >= k {
                            assert(cell_label(cells, iterate_map(map, x, k as nat)) != cell_label(cells, iterate_map(map, start, k as nat)));
                        }
                    }
                    break;
                }
                assert(itinerary_matches(map, cells, start, x, (k + 1) as nat)) by {
                    assert forall|j: nat| j < k + 1 implies
                        #[trigger] cell_label(cells, iterate_map(map, x, j)) == cell_label(cells, iterate_map(map, start, j)) by {
                        if j < k {
                            assert(itinerary_matches(map, cells, start, x, k as nat));
                        }
                    }
                }
                if cur >= n {
                    assert(!cylinder_walks_defined(map, cells, start, n_steps as nat, n_points as nat)) by {
                        assert(itinerary_matches(map, cells, start, x, (k + 1) as nat));
                    }
                    return false;
                }
                cur = transformation.apply(cur);
                k = k + 1;
            }
            x = x + 1;
        }
        true
    }

    /// Count the points 0, ..., n_points - 1 whose itinerary through the cells
    /// of the partition agrees with that of `start` for `n_steps` steps: the
    /// size of the cylinder set C_n(start).
    pub fn cylinder_count(
        transformation: &Transformation,
        partition: &Partition,
        start: usize,
        n_steps: usize,
        n_points: usize,
    ) -> (count: usize)
        requires
            path_in_bounds(transformation.map@, start, n_steps as nat),
            cylinder_walks_defined(transformation.map@, partition@, start, n_steps as nat, n_points as nat),
        ensures
            count == cylinder_size(transformation.map@, partition@, start, n_steps as nat, n_points as nat),
    {
        let ghost map = transformation.map@;
        let ghost cells = partition@;
        let labels = Self::itinerary(transformation, partition, start, n_steps);
        let mut count: usize = 0;
        let mut x: usize = 0;
        while x < n_points
            invariant
                x <= n_points,
                map == transformation.map@,
                cells == partition@,
                labels.len() == n_steps,
                forall|j: int| 0 <= j < n_steps ==> #[trigger] labels@[j] == cell_label(cells, iterate_map(map, start, j as nat)),
                cylinder_walks_defined(map, cells, start, n_steps as nat, n_points as nat),
                count == cylinder_size(map, cells, start, n_steps as nat, x as nat),
                count <= x,
            decreases n_points - x,
        {
            if Self::follows_itinerary(transformation, partition, &labels, start, x, n_steps, n_points) {
                count = count + 1;
            }
            assert(((x + 1 - 1) as nat) as usize == x);
            x = x + 1;
        }
        count
    }

    /// The cylinder set C_n(start) itself: the points 0, ..., n_points - 1
    /// whose itinerary agrees with that of `start` for `n_steps` steps, in
    /// increasing order.
    pub fn cylinder_points(
        transformation: &Transformation,
        partition: &Partition,
        start: usize,
        n_steps: usize,
        n_points: usize,
    ) -> (points: Vec<usize>)
        requires
            path_in_bounds(transformation.map@, start, n_steps as nat),
            cylinder_walks_defined(transformation.map@, partition@, start, n_steps as nat, n_points as nat),
        ensures
            points@ == index_range(n_points as nat).filter(
                |x: usize| itinerary_matches(transformation.map@, partition@, start, x, n_steps as nat),
            ),
            points.len() == cylinder_size(transformation.map@, partition@, start, n_steps as nat, n_points as nat),
    {
        let ghost map = transformation.map@;
        let ghost cells = partition@;
        let ghost p = |x: usize| itinerary_matches(map, cells, start, x, n_steps as nat);
        let labels = Self::itinerary(transformation, partition, start, n_steps);
        let mut points: Vec<usize> = Vec::new();
        let mut x: usize = 0;
        while x < n_points
            invariant
                x <= n_points,
                map == transformation.map@,
                cells == partition@,
                p == (|x: usize| itinerary_matches(map, cells, start, x, n_steps as nat)),
                labels.len() == n_steps,
                forall|j: int| 0 <= j < n_steps ==> #[trigger] labels@[j] == cell_label(cells, iterate_map(map, start, j as nat)),
                cylinder_walks_defined(map, cells, start, n_steps as nat, n_points as nat),
                points@ == index_range(x as nat).filter(p),
                points.len() == cylinder_size(map, cells, start, n_steps as nat, x as nat),
            decreases n_points - x,
        {
            proof {
                reveal_with_fuel(Seq::filter, 1);
                assert(index_range((x + 1) as nat).drop_last() =~= index_range(x as nat));
                assert(((x + 1 - 1) as nat) as usize == x);
            }
            if Self::follows_itinerary(transformation, partition, &labels, start, x, n_steps, n_points) {
                points.push(x);
            }
            x = x + 1;
        }
        points
    }
}

} // verus!
