use lau_ergodic_theory::markov::{gcd, to_deterministic_map, TransitionGraph};

fn support(p: &[Vec<f64>]) -> TransitionGraph {
    TransitionGraph {
        n_states: p.len(),
        edges: p.iter().map(|row| row.iter().map(|&x| x > 0.0).collect()).collect(),
    }
}

fn order_key(x: f64) -> Option<u64> {
    if x.is_nan() {
        return None;
    }
    let x = if x == 0.0 { 0.0 } else { x };
    let bits = x.to_bits();
    Some(if bits >> 63 == 1 { !bits } else { bits | (1u64 << 63) })
}

fn keys(p: &[Vec<f64>]) -> Vec<Vec<Option<u64>>> {
    p.iter().map(|row| row.iter().map(|&x| order_key(x)).collect()).collect()
}

#[test]
fn test_symmetric_ring_irreducible() {
    let mc = TransitionGraph::symmetric_ring(4);
    assert!(mc.is_irreducible());
}

#[test]
fn test_symmetric_ring_ergodic() {
    // odd n => aperiodic for ring
    let mc = TransitionGraph::symmetric_ring(5);
    assert!(mc.is_irreducible());
    assert!(mc.is_ergodic());
}

#[test]
fn test_two_state_chain() {
    // Two-state chain: 0->1, 1->0 (periodic, not ergodic)
    let mc = support(&[vec![0.0, 1.0], vec![1.0, 0.0]]);
    assert!(mc.is_irreducible());
    assert!(!mc.is_ergodic()); // period 2
}

#[test]
fn test_two_state_ergodic() {
    let mc = support(&[vec![0.3, 0.7], vec![0.4, 0.6]]);
    assert!(mc.is_irreducible());
    assert!(mc.is_ergodic());
}

#[test]
fn test_deterministic_map() {
    let map = to_deterministic_map(&keys(&[vec![0.1, 0.9], vec![0.8, 0.2]]));
    assert_eq!(map[0], 1); // most likely transition from 0 is to 1
    assert_eq!(map[1], 0); // most likely transition from 1 is to 0
}

#[test]
fn deterministic_map_prefers_the_last_of_equal_maxima() {
    let map = to_deterministic_map(&keys(&[vec![0.5, 0.5], vec![0.7, 0.1, 0.7, 0.2], vec![]]));
    assert_eq!(map, vec![1, 2, 2]);
}

#[test]
fn deterministic_map_with_incomparable_entries() {
    // An entry that compares with nothing replaces the running maximum.
    let map = to_deterministic_map(&vec![vec![Some(5), None, Some(3)], vec![None, Some(1)]]);
    assert_eq!(map, vec![2, 1]);
}

#[test]
fn symmetric_ring_support() {
    let g = TransitionGraph::symmetric_ring(4);
    assert_eq!(g.edges[0], vec![false, true, false, true]);
    assert_eq!(g.edges[2], vec![false, true, false, true]);
    let one = TransitionGraph::symmetric_ring(1);
    assert_eq!(one.edges, vec![vec![true]]);
    assert!(!TransitionGraph::symmetric_ring(4).is_ergodic());
}

#[test]
fn reducible_chain_is_neither_irreducible_nor_ergodic() {
    let g = support(&[vec![1.0, 0.0], vec![0.5, 0.5]]);
    assert!(!g.is_irreducible());
    assert!(!g.is_ergodic());
    let empty = support(&[]);
    assert!(empty.is_irreducible());
    assert!(!empty.is_ergodic());
}

#[test]
fn three_cycle_with_shortcut_is_ergodic() {
    // 0 -> 1 -> 2 -> 0 and 0 -> 2: return times 2 and 3.
    let g = support(&[vec![0.0, 0.5, 0.5], vec![0.0, 0.0, 1.0], vec![1.0, 0.0, 0.0]]);
    assert!(g.is_irreducible());
    assert!(g.is_ergodic());
    let cycle = support(&[vec![0.0, 1.0, 0.0], vec![0.0, 0.0, 1.0], vec![1.0, 0.0, 0.0]]);
    assert!(!cycle.is_ergodic());
}

#[test]
fn gcd_values() {
    assert_eq!(gcd(12, 18), 6);
    assert_eq!(gcd(18, 12), 6);
    assert_eq!(gcd(0, 5), 5);
    assert_eq!(gcd(7, 0), 7);
    assert_eq!(gcd(0, 0), 0);
    assert_eq!(gcd(17, 5), 1);
}

#[test]
fn ring_parity_decides_ergodicity_for_small_rings() {
    assert!(TransitionGraph::symmetric_ring(1).is_ergodic());
    assert!(TransitionGraph::symmetric_ring(3).is_ergodic());
    assert!(TransitionGraph::symmetric_ring(7).is_ergodic());
    assert!(!TransitionGraph::symmetric_ring(2).is_ergodic());
    assert!(!TransitionGraph::symmetric_ring(6).is_ergodic());
    assert!(!TransitionGraph::symmetric_ring(0).is_ergodic());
    for n in 1..12 {
        assert!(TransitionGraph::symmetric_ring(n).is_irreducible());
    }
}

#[test]
fn large_odd_rings_are_ergodic() {
    // Many even return times come before the first odd one (after n steps);
    // the search keeps going until it has them all.
    assert!(TransitionGraph::symmetric_ring(19).is_ergodic());
    assert!(TransitionGraph::symmetric_ring(21).is_ergodic());
    assert!(TransitionGraph::symmetric_ring(31).is_ergodic());
    assert!(!TransitionGraph::symmetric_ring(20).is_ergodic());
    assert!(!TransitionGraph::symmetric_ring(30).is_ergodic());
    assert!(TransitionGraph::symmetric_ring(21).is_irreducible());
}

#[test]
fn two_cycles_of_coprime_lengths_are_ergodic() {
    // 0 -> 9 -> 0 (length 2) and 0 -> 1 -> ... -> 8 -> 0 (length 9):
    // gcd(2, 9) = 1, so the chain is aperiodic.
    let n = 10;
    let mut edges = vec![vec![false; n]; n];
    edges[0][9] = true;
    edges[9][0] = true;
    for i in 0..8 {
        edges[i][i + 1] = true;
    }
    edges[8][0] = true;
    let g = TransitionGraph { n_states: n, edges: edges.clone() };
    assert!(g.is_irreducible());
    assert!(g.is_ergodic());
    // Without the long cycle only the 2-cycle through state 9 returns to 0.
    let mut short = edges;
    short[8][0] = false;
    short[8][9] = true;
    let h = TransitionGraph { n_states: n, edges: short };
    assert!(h.is_irreducible());
    assert!(!h.is_ergodic()); // returns 2 and 0->..->8->9->0 of length 10: period 2
}
