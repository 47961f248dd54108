use lau_ergodic_theory::measure::Transformation;

#[test]
fn test_preimage() {
    let t = Transformation::new(vec![1, 2, 0]); // cyclic permutation
    let pre = t.preimage(&[0]);
    assert_eq!(pre, vec![2]);
}

#[test]
fn test_orbit() {
    let t = Transformation::new(vec![1, 2, 0]); // 3-cycle
    let orbit = t.orbit(0, 6);
    assert_eq!(orbit, vec![0, 1, 2, 0, 1, 2]);
}

#[test]
fn test_iterate() {
    let t = Transformation::new(vec![1, 2, 0]);
    assert_eq!(t.iterate(0, 3), 0);
    assert_eq!(t.iterate(0, 1), 1);
}

#[test]
fn identity_maps_each_point_to_itself() {
    let t = Transformation::identity(4);
    assert_eq!(t.map, vec![0, 1, 2, 3]);
    assert_eq!(t.size(), 4);
    assert_eq!(t.apply(2), 2);
    assert_eq!(t.iterate(3, 17), 3);
    assert_eq!(Transformation::identity(0).size(), 0);
}

#[test]
fn preimage_is_sorted_and_ignores_unknown_points() {
    let t = Transformation::new(vec![2, 0, 2, 1, 7]);
    assert_eq!(t.preimage(&[2, 9, 2]), vec![0, 2]);
    assert_eq!(t.preimage(&[7, 1]), vec![3, 4]);
    assert_eq!(t.preimage(&[]), Vec::<usize>::new());
}

#[test]
fn image_is_sorted_without_repeats() {
    let t = Transformation::new(vec![3, 1, 1, 0]);
    assert_eq!(t.image(&[2, 0, 1, 0]), vec![1, 3]);
    assert_eq!(t.image(&[]), Vec::<usize>::new());
}

#[test]
fn image_of_preimage_lies_inside_the_set() {
    let t = Transformation::new(vec![1, 1, 3, 0]);
    let a = [1, 2];
    let pre = t.preimage(&a);
    assert_eq!(pre, vec![0, 1]);
    assert_eq!(t.image(&pre), vec![1]);
}

#[test]
fn iterate_composes() {
    let t = Transformation::new(vec![3, 0, 1, 2, 4]);
    for a in 0..6 {
        for b in 0..6 {
            assert_eq!(t.iterate(t.iterate(1, a), b), t.iterate(1, a + b));
        }
    }
}

#[test]
fn orbit_lists_the_iterates() {
    let t = Transformation::new(vec![2, 0, 1]);
    let o = t.orbit(1, 5);
    for k in 0..5 {
        assert_eq!(o[k], t.iterate(1, k));
    }
    assert_eq!(t.orbit(2, 0), Vec::<usize>::new());
}

#[test]
fn closed_map_orbits_stay_in_the_domain() {
    let t = Transformation::new(vec![4, 0, 3, 1, 2]);
    let o = t.orbit(2, 50);
    assert!(o.iter().all(|&x| x < 5));
    assert_eq!(t.iterate(2, 50), t.map[o[49]]);
}
