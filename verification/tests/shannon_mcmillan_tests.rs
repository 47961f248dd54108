use lau_ergodic_theory::entropy::Partition;
use lau_ergodic_theory::measure::Transformation;
use lau_ergodic_theory::shannon_mcmillan::ShannonMcMillanBreiman;

#[test]
fn cylinder_of_point_partition_on_a_cycle() {
    let t = Transformation::new(vec![1, 2, 3, 0]);
    let p = Partition::point_partition(4);
    assert_eq!(ShannonMcMillanBreiman::cylinder_count(&t, &p, 0, 4, 4), 1);
    assert_eq!(ShannonMcMillanBreiman::cylinder_count(&t, &p, 2, 1, 4), 1);
}

#[test]
fn cylinder_of_trivial_partition_is_everything() {
    let t = Transformation::new(vec![1, 2, 3, 0]);
    let p = Partition::trivial_partition(4);
    assert_eq!(ShannonMcMillanBreiman::cylinder_count(&t, &p, 0, 4, 4), 4);
}

#[test]
fn cylinder_of_coarse_partition() {
    let t = Transformation::new(vec![1, 2, 3, 0]);
    let p = Partition::new(vec![vec![0, 2], vec![1, 3]]);
    // labels along any orbit alternate, so points 0 and 2 share the itinerary of 0
    assert_eq!(ShannonMcMillanBreiman::cylinder_count(&t, &p, 0, 3, 4), 2);
    assert_eq!(ShannonMcMillanBreiman::cylinder_count(&t, &p, 1, 0, 4), 4);
}

#[test]
fn cell_labels() {
    let p = Partition::new(vec![vec![3], vec![0, 3], vec![1]]);
    assert_eq!(ShannonMcMillanBreiman::cell_of(&p, 3), 0);
    assert_eq!(ShannonMcMillanBreiman::cell_of(&p, 0), 1);
    assert_eq!(ShannonMcMillanBreiman::cell_of(&p, 1), 2);
    assert_eq!(ShannonMcMillanBreiman::cell_of(&p, 7), 0);
}

#[test]
fn cylinder_points_are_the_matching_points_in_order() {
    let t = Transformation::new(vec![1, 2, 3, 0]);
    let p = Partition::new(vec![vec![0, 2], vec![1, 3]]);
    assert_eq!(ShannonMcMillanBreiman::cylinder_points(&t, &p, 0, 3, 4), vec![0, 2]);
    assert_eq!(ShannonMcMillanBreiman::cylinder_points(&t, &p, 3, 2, 4), vec![1, 3]);
    let q = Partition::point_partition(4);
    assert_eq!(ShannonMcMillanBreiman::cylinder_points(&t, &q, 2, 1, 4), vec![2]);
    assert_eq!(ShannonMcMillanBreiman::cylinder_points(&t, &q, 2, 0, 4), vec![0, 1, 2, 3]);
}

#[test]
fn walks_stop_at_the_first_mismatch() {
    // Point 1 leaves the domain after one step, but its label already
    // differs from that of the start, so its walk stops before that.
    let t = Transformation::new(vec![0, 5]);
    let p = Partition::point_partition(2);
    assert!(ShannonMcMillanBreiman::cylinder_walks_in_domain(&t, &p, 0, 2, 2));
    assert_eq!(ShannonMcMillanBreiman::cylinder_count(&t, &p, 0, 2, 2), 1);
    assert_eq!(ShannonMcMillanBreiman::cylinder_points(&t, &p, 0, 2, 2), vec![0]);
}

#[test]
fn walks_that_leave_the_domain_are_detected() {
    // With a single cell every label agrees, so the walk from 1 reaches 5
    // and would have to be followed beyond the domain.
    let t = Transformation::new(vec![1, 5]);
    let p = Partition::trivial_partition(2);
    assert!(!ShannonMcMillanBreiman::cylinder_walks_in_domain(&t, &p, 0, 2, 2));
    assert!(ShannonMcMillanBreiman::cylinder_walks_in_domain(&t, &p, 0, 1, 2));
    // the orbit of the start itself leaves the domain
    assert!(!ShannonMcMillanBreiman::cylinder_walks_in_domain(&t, &p, 1, 2, 1));
}
