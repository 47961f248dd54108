use lau_ergodic_theory::ergodicity::ErgodicChecker;
use lau_ergodic_theory::measure::Transformation;

#[test]
fn test_invariant_set_detection() {
    let t = Transformation::new(vec![1, 0, 3, 2]); // two 2-cycles
    assert!(ErgodicChecker::is_invariant(&t, &[0, 1]));
    assert!(ErgodicChecker::is_invariant(&t, &[2, 3]));
    assert!(!ErgodicChecker::is_invariant(&t, &[0, 2]));
}

#[test]
fn orbits_of_permutations_are_cycles() {
    let t = Transformation::new(vec![1, 0, 3, 2]);
    assert_eq!(ErgodicChecker::orbits(&t, 4), vec![vec![0, 1], vec![2, 3]]);
    let c = Transformation::new(vec![1, 2, 3, 0]);
    assert_eq!(ErgodicChecker::orbits(&c, 4), vec![vec![0, 1, 2, 3]]);
    let id = Transformation::identity(3);
    assert_eq!(ErgodicChecker::orbits(&id, 3), vec![vec![0], vec![1], vec![2]]);
}

#[test]
fn orbits_stop_at_visited_points() {
    let t = Transformation::new(vec![1, 1, 0, 2]);
    assert_eq!(ErgodicChecker::orbits(&t, 4), vec![vec![0, 1], vec![2], vec![3]]);
}

#[test]
fn union_of_selected_orbits() {
    let orbits = vec![vec![0, 1], vec![2, 3], vec![4]];
    assert_eq!(ErgodicChecker::orbit_union(&orbits, 0b10), vec![2, 3]);
    assert_eq!(ErgodicChecker::orbit_union(&orbits, 0b101), vec![0, 1, 4]);
    assert_eq!(ErgodicChecker::orbit_union(&orbits, 0), Vec::<usize>::new());
}

#[test]
fn invariant_subsets_of_two_cycles() {
    let t = Transformation::new(vec![1, 0, 3, 2]);
    let found = ErgodicChecker::find_invariant_subsets(&t, 4);
    assert_eq!(found, vec![vec![0, 1], vec![2, 3], vec![0, 1, 2, 3]]);
    let c = Transformation::new(vec![1, 2, 0]);
    assert_eq!(ErgodicChecker::find_invariant_subsets(&c, 3), vec![vec![0, 1, 2]]);
}

#[test]
fn subsets_of_masks() {
    assert_eq!(ErgodicChecker::subset_of_mask(4, 0b1010), vec![1, 3]);
    assert_eq!(ErgodicChecker::subset_of_mask(2, 0b1110), vec![1]);
}

#[test]
fn invariance_is_a_set_property() {
    let t = Transformation::new(vec![1, 0, 3, 2]);
    assert!(ErgodicChecker::is_invariant(&t, &[1, 0, 1]));
    assert!(!ErgodicChecker::is_invariant(&t, &[0, 1, 5]));
    assert!(ErgodicChecker::is_invariant(&t, &[]));
}

#[test]
fn unions_of_cycles_of_a_permutation_are_invariant() {
    let t = Transformation::new(vec![2, 0, 1, 4, 3, 5]);
    let orbits = ErgodicChecker::orbits(&t, 6);
    assert_eq!(orbits, vec![vec![0, 2, 1], vec![3, 4], vec![5]]);
    for orbit in &orbits {
        assert_eq!(t.map[*orbit.last().unwrap()], orbit[0]);
    }
    for mask in 0u32..8 {
        let union = ErgodicChecker::orbit_union(&orbits, mask);
        assert!(ErgodicChecker::is_invariant(&t, &union));
    }
}

#[test]
fn invariant_sets_are_unions_of_orbits() {
    let t = Transformation::new(vec![1, 1, 3, 2, 0]);
    let orbits = ErgodicChecker::orbits(&t, 5);
    for subset in ErgodicChecker::find_invariant_subsets(&t, 5) {
        for orbit in &orbits {
            let inside = orbit.iter().filter(|x| subset.contains(x)).count();
            assert!(inside == 0 || inside == orbit.len());
        }
    }
}
