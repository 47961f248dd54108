use lau_ergodic_theory::entropy::{KolmogorovSinaiEntropy, Partition};
use lau_ergodic_theory::measure::Transformation;

#[test]
fn test_partition_join() {
    let p1 = Partition::new(vec![vec![0, 1], vec![2, 3]]);
    let p2 = Partition::new(vec![vec![0, 2], vec![1, 3]]);
    let joined = p1.join(&p2);
    assert_eq!(joined.num_cells(), 4);
}

#[test]
fn test_preimage_partition() {
    let t = Transformation::new(vec![1, 2, 0]);
    let p = Partition::point_partition(3);
    let pre = p.preimage_partition(&t);
    assert_eq!(pre.num_cells(), 3);
}

#[test]
fn join_cells_are_the_nonempty_intersections_in_order() {
    let p1 = Partition::new(vec![vec![0, 1], vec![2, 3]]);
    let p2 = Partition::new(vec![vec![3, 0, 2], vec![1]]);
    let joined = p1.join(&p2);
    assert_eq!(joined.cells, vec![vec![0], vec![1], vec![3, 2]]);
}

#[test]
fn point_and_trivial_partitions() {
    assert_eq!(Partition::point_partition(3).cells, vec![vec![0], vec![1], vec![2]]);
    assert_eq!(Partition::trivial_partition(4).cells, vec![vec![0, 1, 2, 3]]);
    assert_eq!(Partition::trivial_partition(0).cells, vec![Vec::<usize>::new()]);
    assert_eq!(Partition::point_partition(0).num_cells(), 0);
}

#[test]
fn preimage_partition_pulls_back_each_cell() {
    let t = Transformation::new(vec![1, 2, 0]);
    let p = Partition::point_partition(3);
    let pre = p.preimage_partition(&t);
    assert_eq!(pre.cells, vec![vec![2], vec![0], vec![1]]);
}

#[test]
fn refinement_of_a_coarse_partition_along_a_cycle() {
    let t = Transformation::new(vec![1, 2, 0]);
    let p = Partition::new(vec![vec![0, 1], vec![2]]);
    let r1 = KolmogorovSinaiEntropy::refined_partition(&t, &p, 1);
    assert_eq!(r1.cells, vec![vec![0, 1], vec![2]]);
    let r0 = KolmogorovSinaiEntropy::refined_partition(&t, &p, 0);
    assert_eq!(r0.cells, vec![vec![0, 1], vec![2]]);
    let r2 = KolmogorovSinaiEntropy::refined_partition(&t, &p, 2);
    assert_eq!(r2.cells, vec![vec![0], vec![1], vec![2]]);
}

#[test]
fn refinement_of_point_partition_stays_fine() {
    let t = Transformation::new(vec![1, 2, 3, 0]);
    let p = Partition::point_partition(4);
    let r = KolmogorovSinaiEntropy::refined_partition(&t, &p, 5);
    assert_eq!(r.num_cells(), 4);
}

#[test]
fn join_covers_what_both_cover() {
    let p1 = Partition::new(vec![vec![0, 1, 2]]);
    let p2 = Partition::new(vec![vec![2, 3], vec![1]]);
    let joined = p1.join(&p2);
    let mut covered: Vec<usize> = joined.cells.concat();
    covered.sort();
    assert_eq!(covered, vec![1, 2]);
}

#[test]
fn refinement_covers_what_every_pull_back_covers() {
    // The map leaves point 3 without preimage, so T^{-1}(alpha) misses it.
    let t = Transformation::new(vec![1, 2, 0, 0]);
    let p = Partition::new(vec![vec![0, 3], vec![1, 2]]);
    let r = KolmogorovSinaiEntropy::refined_partition(&t, &p, 3);
    let mut covered: Vec<usize> = r.cells.concat();
    covered.sort();
    assert_eq!(covered, vec![0, 1, 2, 3]);
    let pulled = p.preimage_partition(&t);
    assert_eq!(pulled.cells, vec![vec![2, 3], vec![0, 1]]);
}

#[test]
fn join_of_partitions_is_a_partition_with_bounded_size() {
    let p1 = Partition::new(vec![vec![0, 1, 2], vec![3, 4, 5]]);
    let p2 = Partition::new(vec![vec![0, 3], vec![1, 4], vec![2, 5]]);
    let joined = p1.join(&p2);
    assert_eq!(
        joined.cells,
        vec![vec![0], vec![1], vec![2], vec![3], vec![4], vec![5]]
    );
    let coarse = Partition::new(vec![vec![5, 4, 3, 2, 1, 0]]);
    let j2 = p2.join(&coarse);
    // each cell of p2 meets the single cell of `coarse` in itself, in the coarse order
    assert_eq!(j2.cells, vec![vec![3, 0], vec![4, 1], vec![5, 2]]);
    let n = j2.num_cells();
    assert!(n >= p2.num_cells() && n >= coarse.num_cells());
    assert!(n <= p2.num_cells() * coarse.num_cells());
    let p3 = Partition::new(vec![vec![0, 1], vec![2, 3, 4], vec![5]]);
    let j3 = p1.join(&p3);
    assert_eq!(j3.cells, vec![vec![0, 1], vec![2], vec![3, 4], vec![5]]);
    let mut all: Vec<usize> = j3.cells.concat();
    all.sort();
    assert_eq!(all, vec![0, 1, 2, 3, 4, 5]);
}
