//! Invariant sets and orbit structure: the combinatorial core of ergodicity
//! checking for a transformation of a finite state space.

use vstd::prelude::*;
use crate::measure::{index_range, lemma_filter_index_range, preimage_set, slice_contains, strictly_increasing, Transformation};

verus! {

/// Bit `i` of `mask` is set.
pub open spec fn mask_has(mask: u32, i: int) -> bool {
    (mask >> (i as u32)) & 1u32 == 1u32
}

/// The subset of {0, ..., n-1} whose members are the set bits of `mask`,
/// in increasing order.
pub open spec fn mask_subset(n: nat, mask: u32) -> Seq<usize> {
    index_range(n).filter(|i: usize| mask_has(mask, i as int))
}

/// `subset` is invariant under the map: T^{-1}(A) = A.
pub open spec fn invariant_under(map: Seq<usize>, subset: Seq<usize>) -> bool {
    preimage_set(map, subset.to_set()) == subset.to_set()
}

/// The invariant subsets among those given by the masks 1, ..., m-1, in mask order.
pub open spec fn invariant_masks(map: Seq<usize>, n: nat, m: nat) -> Seq<Seq<usize>>
    decreases m,
{
    if m <= 1 {
        seq![]
    } else {
        let prev = invariant_masks(map, n, (m - 1) as nat);
        let s = mask_subset(n, (m - 1) as u32);
        if invariant_under(map, s) {
            prev.push(s)
        } else {
            prev
        }
    }
}

/// The union of the orbits `orbits[i]`, i < k, whose bit is set in `mask`,
/// in order.
pub open spec fn orbit_union_upto(orbits: Seq<Seq<usize>>, mask: u32, k: nat) -> Seq<usize>
    decreases k,
{
    if k == 0 {
        seq![]
    } else {
        let prev = orbit_union_upto(orbits, mask, (k - 1) as nat);
        if mask_has(mask, k - 1) {
            prev + orbits[k - 1]
        } else {
            prev
        }
    }
}

/// Step `m` of the orbit `o` follows the map: o[m+1] = T(o[m]).
pub open spec fn orbit_step(map: Seq<usize>, o: Seq<usize>, m: int) -> bool {
    o[m + 1] == map[o[m] as int]
}

/// `x` lies in one of the first `k0` orbits.
pub open spec fn in_orbits_upto(os: Seq<Seq<usize>>, k0: int, x: usize) -> bool {
    exists|k: int, m: int| 0 <= k < k0 && k < os.len() && 0 <= m < os[k].len() && #[trigger] os[k][m] == x
}

/// No point occurs twice among the orbits.
pub open spec fn orbits_disjoint(os: Seq<Seq<usize>>) -> bool {
    forall|k1: int, m1: int, k2: int, m2: int|
        0 <= k1 < os.len() && 0 <= m1 < os[k1].len() && 0 <= k2 < os.len() && 0 <= m2 < os[k2].len()
            && #[trigger] os[k1][m1] == #[trigger] os[k2][m2] ==> k1 == k2 && m1 == m2
}

/// `os` is the decomposition of {0, ..., n-1} into orbits that a scan in
/// increasing order of starting points produces: every point lies in exactly
/// one orbit; each orbit starts at the least point not in an earlier orbit,
/// follows the map, and stops just before the map leads back to a point of
/// this or an earlier orbit.
pub open spec fn is_orbit_decomposition(map: Seq<usize>, n: nat, os: Seq<Seq<usize>>) -> bool {
    &&& orbits_disjoint(os)
    &&& forall|x: usize| #[trigger] in_orbits_upto(os, os.len() as int, x) <==> x < n
    &&& forall|k: int| 0 <= k < os.len() ==> #[trigger] os[k].len() > 0
    &&& forall|k: int, m: int| 0 <= k < os.len() && 0 <= m < os[k].len() - 1 ==> #[trigger] orbit_step(map, os[k], m)
    &&& forall|k: int| 0 <= k < os.len() ==> in_orbits_upto(os, k + 1, map[#[trigger] os[k].last() as int])
    &&& forall|k: int, x: usize| #![trigger in_orbits_upto(os, k, x)] 0 <= k < os.len() && x < os[k][0] ==> in_orbits_upto(os, k, x)
}

/// The map permutes {0, ..., n-1}: it is defined exactly there, stays there
/// and is one-to-one.
pub open spec fn is_permutation(map: Seq<usize>, n: nat) -> bool {
    &&& map.len() == n
    &&& forall|i: int| 0 <= i < n ==> #[trigger] map[i] < n
    &&& forall|i: int, j: int| 0 <= i < n && 0 <= j < n && #[trigger] map[i] == #[trigger] map[j] ==> i == j
}

proof fn lemma_orbit_is_cycle(map: Seq<usize>, n: nat, os: Seq<Seq<usize>>, k: int)
    requires
        is_permutation(map, n),
        is_orbit_decomposition(map, n, os),
        0 <= k < os.len(),
    ensures
        map[os[k].last() as int] == os[k][0],
    decreases k,
{
    let last = os[k].last();
    let lk = os[k].len() - 1;
    assert(os[k][lk] == last);
    assert(in_orbits_upto(os, os.len() as int, last));
    let y = map[last as int];
    assert(in_orbits_upto(os, k + 1, y));
    let (k2, m2) = choose|k2: int, m2: int| 0 <= k2 < k + 1 && k2 < os.len() && 0 <= m2 < os[k2].len() && #[trigger] os[k2][m2] == y;
    if m2 > 0 {
        assert(orbit_step(map, os[k2], m2 - 1));
        let x = os[k2][m2 - 1];
        assert(in_orbits_upto(os, os.len() as int, x));
        assert(map[x as int] == map[last as int]);
        assert(x == last);
        assert(os[k2][m2 - 1] == os[k][lk]);
    } else if k2 < k {
        lemma_orbit_is_cycle(map, n, os, k2);
        let l2 = os[k2].len() - 1;
        let last2 = os[k2][l2];
        assert(in_orbits_upto(os, os.len() as int, last2));
        assert(map[last2 as int] == map[last as int]);
        assert(last2 == last);
        assert(os[k2][l2] == os[k][lk]);
    }
}

/// A point lies in a union of orbits exactly when one of the selected orbits holds it.
pub proof fn lemma_orbit_union_contains(os: Seq<Seq<usize>>, mask: u32, k: nat, y: usize)
    requires
        k <= os.len(),
    ensures
        orbit_union_upto(os, mask, k).contains(y) <==>
            exists|i: int| 0 <= i < k && mask_has(mask, i) && #[trigger] os[i].contains(y),
    decreases k,
{
    if k > 0 {
        let k1 = (k - 1) as nat;
        lemma_orbit_union_contains(os, mask, k1, y);
        let prev = orbit_union_upto(os, mask, k1);
        if mask_has(mask, k - 1) {
            let u = prev + os[k - 1];
            if u.contains(y) {
                let t = choose|t: int| 0 <= t < u.len() && u[t] == y;
                if t < prev.len() {
                    assert(prev[t] == y);
                } else {
                    assert(os[k - 1][t - prev.len()] == y);
                    assert(os[k - 1].contains(y));
                }
            }
            if exists|i: int| 0 <= i < k && mask_has(mask, i) && #[trigger] os[i].contains(y) {
                let i = choose|i: int| 0 <= i < k && mask_has(mask, i) && #[trigger] os[i].contains(y);
                if i < k - 1 {
                    assert(prev.contains(y));
                    let t = choose|t: int| 0 <= t < prev.len() && prev[t] == y;
                    assert(u[t] == y);
                } else {
                    let t = choose|t: int| 0 <= t < os[i].len() && os[i][t] == y;
                    assert(u[prev.len() + t] == y);
                }
            }
        } else {
            if exists|i: int| 0 <= i < k && mask_has(mask, i) && #[trigger] os[i].contains(y) {
                let i = choose|i: int| 0 <= i < k && mask_has(mask, i) && #[trigger] os[i].contains(y);
                assert(i < k - 1);
            }
        }
    }
}

/// For a permutation, the orbit scan yields cycles: each orbit closes up on its
/// first point. Hence every union of orbits is an invariant set, T^{-1}(A) = A.
pub proof fn law_permutation_orbits_are_invariant(map: Seq<usize>, n: nat, os: Seq<Seq<usize>>, mask: u32)
    requires
        is_permutation(map, n),
        is_orbit_decomposition(map, n, os),
    ensures
        forall|k: int| 0 <= k < os.len() ==> map[#[trigger] os[k].last() as int] == os[k][0],
        invariant_under(map, orbit_union_upto(os, mask, os.len())),
{
    assert forall|k: int| 0 <= k < os.len() implies map[#[trigger] os[k].last() as int] == os[k][0] by {
        lemma_orbit_is_cycle(map, n, os, k);
    }
    let u = orbit_union_upto(os, mask, os.len());
    // The image of a point of orbit k lies in orbit k.
    assert forall|k: int, m: int| 0 <= k < os.len() && 0 <= m < os[k].len() implies
        #[trigger] os[k].contains(map[os[k][m] as int]) by {
        if m < os[k].len() - 1 {
            assert(orbit_step(map, os[k], m));
            assert(os[k][m + 1] == map[os[k][m] as int]);
        } else {
            lemma_orbit_is_cycle(map, n, os, k);
            assert(os[k][0] == map[os[k][m] as int]);
        }
    }
    assert forall|x: usize| preimage_set(map, u.to_set()).contains(x) <==> u.to_set().contains(x) by {
        lemma_orbit_union_contains(os, mask, os.len(), x);
        if x < n {
            assert(in_orbits_upto(os, os.len() as int, x));
            let (k, m) = choose|k: int, m: int| 0 <= k < os.len() && 0 <= m < os[k].len() && #[trigger] os[k][m] == x;
            let y = map[x as int];
            assert(os[k].contains(y));
            lemma_orbit_union_contains(os, mask, os.len(), y);
            assert(os[k].contains(x));
            if u.contains(y) {
                let i = choose|i: int| 0 <= i < os.len() && mask_has(mask, i) && #[trigger] os[i].contains(y);
                let t1 = choose|t: int| 0 <= t < os[i].len() && os[i][t] == y;
                let t2 = choose|t: int| 0 <= t < os[k].len() && os[k][t] == y;
                assert(os[i][t1] == os[k][t2]);
                assert(i == k);
            }
        } else {
            if u.contains(x) {
                let i = choose|i: int| 0 <= i < os.len() && mask_has(mask, i) && #[trigger] os[i].contains(x);
                let t = choose|t: int| 0 <= t < os[i].len() && os[i][t] == x;
                assert(in_orbits_upto(os, os.len() as int, os[i][t]));
            }
        }
    }
    assert(preimage_set(map, u.to_set()) =~= u.to_set());
}

/// Every invariant set is a union of orbits: each orbit of the scan lies
/// either wholly inside or wholly outside a set A with T^{-1}(A) = A.
pub proof fn law_invariant_sets_are_unions_of_orbits(map: Seq<usize>, n: nat, os: Seq<Seq<usize>>, a: Set<usize>, k: int)
    requires
        n <= map.len(),
        is_orbit_decomposition(map, n, os),
        preimage_set(map, a) == a,
        0 <= k < os.len(),
    ensures
        (forall|m: int| 0 <= m < os[k].len() ==> a.contains(#[trigger] os[k][m]))
            || (forall|m: int| 0 <= m < os[k].len() ==> !a.contains(#[trigger] os[k][m])),
{
    let o = os[k];
    assert forall|m: int| 0 <= m < o.len() implies (a.contains(#[trigger] o[m]) <==> a.contains(o[0])) by {
        lemma_orbit_membership_constant(map, n, os, a, k, m);
    }
}

proof fn lemma_orbit_membership_constant(map: Seq<usize>, n: nat, os: Seq<Seq<usize>>, a: Set<usize>, k: int, m: int)
    requires
        n <= map.len(),
        is_orbit_decomposition(map, n, os),
        preimage_set(map, a) == a,
        0 <= k < os.len(),
        0 <= m < os[k].len(),
    ensures
        a.contains(os[k][m]) <==> a.contains(os[k][0]),
    decreases m,
{
    if m > 0 {
        lemma_orbit_membership_constant(map, n, os, a, k, m - 1);
        let x = os[k][m - 1];
        assert(orbit_step(map, os[k], m - 1));
        assert(in_orbits_upto(os, os.len() as int, x));
        assert(preimage_set(map, a).contains(x) <==> (x < map.len() && a.contains(map[x as int])));
    }
}

/// The invariant subsets among the masks 1, ..., m-1 are exactly those
/// masks' subsets: every mask k in that range whose subset is invariant
/// contributes its subset, and every entry is the subset of such a mask.
pub proof fn law_invariant_masks_exact(map: Seq<usize>, n: nat, m: nat)
    requires
        m <= 0x1_0000_0000,
    ensures
        forall|k: u32| 1 <= k < m && invariant_under(map, #[trigger] mask_subset(n, k)) ==>
            invariant_masks(map, n, m).contains(mask_subset(n, k)),
        forall|e: Seq<usize>| #[trigger] invariant_masks(map, n, m).contains(e) ==>
            exists|k: u32| 1 <= k < m && e == #[trigger] mask_subset(n, k) && invariant_under(map, e),
    decreases m,
{
    if m > 1 {
        let m1 = (m - 1) as nat;
        law_invariant_masks_exact(map, n, m1);
        let prev = invariant_masks(map, n, m1);
        let top = (m - 1) as u32;
        let s = mask_subset(n, top);
        let cur = invariant_masks(map, n, m);
        assert forall|k: u32| 1 <= k < m && invariant_under(map, #[trigger] mask_subset(n, k)) implies
            cur.contains(mask_subset(n, k)) by {
            if k < m1 {
                assert(prev.contains(mask_subset(n, k)));
                let t = choose|t: int| 0 <= t < prev.len() && prev[t] == mask_subset(n, k);
                if invariant_under(map, s) {
                    assert(cur[t] == prev[t]);
                }
            } else {
                assert(k == top);
                assert(cur[prev.len() as int] == s);
            }
        }
        assert forall|e: Seq<usize>| #[trigger] cur.contains(e) implies
            exists|k: u32| 1 <= k < m && e == #[trigger] mask_subset(n, k) && invariant_under(map, e) by {
            let t = choose|t: int| 0 <= t < cur.len() && cur[t] == e;
            if t < prev.len() {
                assert(prev[t] == e);
                assert(prev.contains(e));
            } else {
                assert(e == mask_subset(n, top));
            }
        }
    }
}

proof fn lemma_bit_or(m: u32, j: u32, i: u32)
    by (bit_vector)
    requires
        j < 32,
        i < 32,
    ensures
        ((m | (1u32 << j)) >> i) & 1u32 == 1u32 <==> (i == j || (m >> i) & 1u32 == 1u32),
{
}

proof fn lemma_bit_bound(m: u32, j: u32)
    by (bit_vector)
    requires
        j < 31,
        m < (1u32 << j),
    ensures
        (m | (1u32 << j)) < (1u32 << (j + 1)),
        m < (1u32 << (j + 1)),
{
}

proof fn lemma_bit_top(m: u32, j: u32)
    by (bit_vector)
    requires
        j < 31,
        m < (1u32 << (j + 1)),
        (m >> j) & 1u32 != 1u32,
    ensures
        m < (1u32 << j),
{
}

proof fn lemma_bit_zero(m: u32)
    by (bit_vector)
    requires
        m < (1u32 << 0u32),
    ensures
        m == 0,
{
}

proof fn lemma_no_bits_in_zero(i: u32)
    by (bit_vector)
    requires
        i < 32,
    ensures
        (1u32 << 0u32) == 1u32,
        (0u32 >> i) & 1u32 != 1u32,
{
}

/// The mask whose bits below `k` are the points of `s` below `k`.
spec fn mask_of_set(s: Set<usize>, k: nat) -> u32
    decreases k,
{
    if k == 0 {
        0
    } else {
        let prev = mask_of_set(s, (k - 1) as nat);
        if s.contains((k - 1) as usize) {
            prev | (1u32 << ((k - 1) as u32))
        } else {
            prev
        }
    }
}

proof fn lemma_mask_of_set(s: Set<usize>, k: nat)
    requires
        k < 32,
    ensures
        mask_of_set(s, k) < (1u32 << (k as u32)),
        forall|i: int| 0 <= i < 32 ==> #[trigger] mask_has(mask_of_set(s, k), i) == (i < k && s.contains(i as usize)),
    decreases k,
{
    if k == 0 {
        lemma_no_bits_in_zero(0);
        assert forall|i: int| 0 <= i < 32 implies #[trigger] mask_has(mask_of_set(s, k), i) == (i < k && s.contains(i as usize)) by {
            lemma_no_bits_in_zero(i as u32);
        }
    } else {
        let k1 = (k - 1) as nat;
        lemma_mask_of_set(s, k1);
        let prev = mask_of_set(s, k1);
        let j = k1 as u32;
        lemma_bit_bound(prev, j);
        assert(j + 1 == k as u32);
        assert forall|i: int| 0 <= i < 32 implies #[trigger] mask_has(mask_of_set(s, k), i) == (i < k && s.contains(i as usize)) by {
            assert(mask_has(prev, i) == (i < k1 && s.contains(i as usize)));
            if s.contains(k1 as usize) {
                lemma_bit_or(prev, j, i as u32);
            }
        }
    }
}

/// A mask below 2^n with no bit below n set is 0.
proof fn lemma_low_bits_clear(m: u32, n: nat)
    requires
        n < 32,
        m < (1u32 << (n as u32)),
        forall|i: int| 0 <= i < n ==> !#[trigger] mask_has(m, i),
    ensures
        m == 0,
    decreases n,
{
    if n == 0 {
        lemma_bit_zero(m);
    } else {
        let j = (n - 1) as u32;
        assert(!mask_has(m, n - 1));
        assert(((n - 1) as int) as u32 == j);
        assert(j + 1 == n as u32);
        lemma_bit_top(m, j);
        lemma_low_bits_clear(m, (n - 1) as nat);
    }
}

/// Filtering 0..k by two tests that agree below k gives the same list.
proof fn lemma_filter_agree(k: nat, p: spec_fn(usize) -> bool, q: spec_fn(usize) -> bool)
    requires
        forall|i: usize| i < k ==> #[trigger] p(i) == q(i),
    ensures
        index_range(k).filter(p) == index_range(k).filter(q),
    decreases k,
{
    reveal_with_fuel(Seq::filter, 1);
    if k > 0 {
        lemma_filter_agree((k - 1) as nat, p, q);
        assert(index_range(k).drop_last() =~= index_range((k - 1) as nat));
        assert(index_range(k).last() == (k - 1) as usize);
        assert(p((k - 1) as usize) == q((k - 1) as usize));
    }
}

proof fn lemma_bit_xor(a: u32, b: u32, i: u32, j: u32)
    by (bit_vector)
    requires
        i < 32,
        j < 32,
        a < (1u32 << j),
        b < (1u32 << j),
    ensures
        ((a ^ b) >> i) & 1u32 == 1u32 <==> (((a >> i) & 1u32 == 1u32) != ((b >> i) & 1u32 == 1u32)),
        (a ^ b) < (1u32 << j),
        (a ^ b) == 0u32 ==> a == b,
{
}

/// Distinct masks below 2^n select distinct subsets of {0, ..., n-1}.
proof fn lemma_mask_subset_injective(n: nat, a: u32, b: u32)
    requires
        n < 32,
        a < (1u32 << (n as u32)),
        b < (1u32 << (n as u32)),
        mask_subset(n, a) == mask_subset(n, b),
    ensures
        a == b,
{
    let pa = |i: usize| mask_has(a, i as int);
    let pb = |i: usize| mask_has(b, i as int);
    lemma_filter_index_range(n, pa);
    lemma_filter_index_range(n, pb);
    let d = a ^ b;
    lemma_bit_xor(a, b, 0, n as u32);
    assert forall|i: int| 0 <= i < n implies !#[trigger] mask_has(d, i) by {
        lemma_bit_xor(a, b, i as u32, n as u32);
        assert(mask_subset(n, a).contains(i as usize) == pa(i as usize));
        assert(mask_subset(n, b).contains(i as usize) == pb(i as usize));
    }
    lemma_low_bits_clear(d, n);
}

/// The invariant subsets of the masks 1, ..., m-1 (m at most 2^n) are all
/// different: no subset is listed twice.
pub proof fn law_invariant_masks_distinct(map: Seq<usize>, n: nat, m: nat)
    requires
        n < 32,
        m <= (1u32 << (n as u32)) as nat,
    ensures
        invariant_masks(map, n, m).no_duplicates(),
    decreases m,
{
    if m > 1 {
        let m1 = (m - 1) as nat;
        law_invariant_masks_distinct(map, n, m1);
        law_invariant_masks_exact(map, n, m1);
        let prev = invariant_masks(map, n, m1);
        let top = (m - 1) as u32;
        let s = mask_subset(n, top);
        if invariant_under(map, s) {
            assert(!prev.contains(s)) by {
                if prev.contains(s) {
                    let k = choose|k: u32| 1 <= k < m1 && s == #[trigger] mask_subset(n, k) && invariant_under(map, s);
                    lemma_mask_subset_injective(n, k, top);
                }
            }
            let cur = prev.push(s);
            assert forall|i: int, j: int| 0 <= i < cur.len() && 0 <= j < cur.len() && i != j implies cur[i] != cur[j] by {
                if i < prev.len() && j < prev.len() {
                    assert(cur[i] == prev[i] && cur[j] == prev[j]);
                } else if i < prev.len() {
                    assert(cur[i] == prev[i]);
                    assert(prev.contains(prev[i]));
                } else {
                    assert(cur[j] == prev[j]);
                    assert(prev.contains(prev[j]));
                }
            }
        }
    }
}

/// Each subset that the search for invariant subsets finds is a nonempty,
/// increasing list of points below n, and the map leaves it invariant:
/// T^{-1}(S) = S.
pub proof fn law_invariant_subsets_sound(map: Seq<usize>, n: nat, e: Seq<usize>)
    requires
        n < 32,
        invariant_masks(map, n, (1u32 << (n as u32)) as nat).contains(e),
    ensures
        e.len() > 0,
        strictly_increasing(e),
        forall|i: int| 0 <= i < e.len() ==> #[trigger] e[i] < n,
        preimage_set(map, e.to_set()) == e.to_set(),
{
    let limit = (1u32 << (n as u32)) as nat;
    law_invariant_masks_exact(map, n, limit);
    let k = choose|k: u32| 1 <= k < limit && e == #[trigger] mask_subset(n, k) && invariant_under(map, e);
    let p = |i: usize| mask_has(k, i as int);
    lemma_filter_index_range(n, p);
    assert(e == index_range(n).filter(p));
    assert forall|i: int| 0 <= i < e.len() implies #[trigger] e[i] < n by {
        assert(e.contains(e[i]));
    }
    if e.len() == 0 {
        assert forall|i: int| 0 <= i < n implies !#[trigger] mask_has(k, i) by {
            if mask_has(k, i) {
                assert(p(i as usize));
                assert(e.contains(i as usize));
            }
        }
        lemma_low_bits_clear(k, n);
    }
}

/// Every nonempty set S of points below n that the map leaves invariant,
/// T^{-1}(S) = S, is found by the search for invariant subsets, as the
/// increasing list of its points.
pub proof fn law_invariant_sets_found(map: Seq<usize>, n: nat, s: Set<usize>, x: usize)
    requires
        n < 32,
        s.contains(x),
        forall|y: usize| #[trigger] s.contains(y) ==> y < n,
        preimage_set(map, s) == s,
    ensures
        invariant_masks(map, n, (1u32 << (n as u32)) as nat).contains(index_range(n).filter(|i: usize| s.contains(i))),
{
    let m = mask_of_set(s, n);
    lemma_mask_of_set(s, n);
    let p = |i: usize| mask_has(m, i as int);
    let q = |i: usize| s.contains(i);
    assert forall|i: usize| i < n implies #[trigger] p(i) == q(i) by {
        assert(mask_has(m, i as int) == (i < n && s.contains(i)));
    }
    lemma_filter_agree(n, p, q);
    assert(mask_subset(n, m) == index_range(n).filter(q));
    lemma_filter_index_range(n, q);
    let sub = mask_subset(n, m);
    assert(sub.to_set() =~= s) by {
        assert forall|y: usize| sub.to_set().contains(y) <==> s.contains(y) by {
            assert(sub.contains(y) <==> (y < n && q(y)));
        }
    }
    assert(invariant_under(map, sub));
    assert(m != 0) by {
        assert(mask_has(m, x as int));
        if m == 0 {
            lemma_no_bits_in_zero(x as u32);
        }
    }
    law_invariant_masks_exact(map, n, (1u32 << (n as u32)) as nat);
}

/// Checks ergodicity of measure-preserving systems.
pub struct ErgodicChecker;

impl ErgodicChecker {
    /// Check if a subset A is T-invariant: T^{-1}(A) = A.
    pub fn is_invariant(transformation: &Transformation, subset: &[usize]) -> (r: bool)
        ensures
            r == invariant_under(transformation.map@, subset@),
    {
        let pre = transformation.preimage(subset);
        let mut i: usize = 0;
        while i < pre.len()
            invariant
                i <= pre.len(),
                pre@.to_set() == preimage_set(transformation.map@, subset@.to_set()),
                forall|j: int| 0 <= j < i ==> subset@.contains(#[trigger] pre@[j]),
            decreases pre.len() - i,
        {
            if !slice_contains(subset, pre[i]) {
                assert(pre@.to_set().contains(pre@[i as int]));
                assert(!subset@.to_set().contains(pre@[i as int]));
                assert(preimage_set(transformation.map@, subset@.to_set()).contains(pre@[i as int]));
                return false;
            }
            i = i + 1;
        }
        let mut k: usize = 0;
        while k < subset.len()
            invariant
                k <= subset.len(),
                pre@.to_set() == preimage_set(transformation.map@, subset@.to_set()),
                forall|j: int| 0 <= j < k ==> pre@.contains(#[trigger] subset@[j]),
            decreases subset.len() - k,
        {
            if !slice_contains(pre.as_slice(), subset[k]) {
                assert(subset@.to_set().contains(subset@[k as int]));
                assert(!pre@.to_set().contains(subset@[k as int]));
                assert(!preimage_set(transformation.map@, subset@.to_set()).contains(subset@[k as int]));
                return false;
            }
            k = k + 1;
        }
        proof {
            assert forall|x: usize| pre@.to_set().contains(x) <==> subset@.to_set().contains(x) by {
                if pre@.contains(x) {
                    let j = choose|j: int| 0 <= j < pre.len() && pre@[j] == x;
                    assert(subset@.contains(pre@[j]));
                }
                if subset@.contains(x) {
                    let j = choose|j: int| 0 <= j < subset.len() && subset@[j] == x;
                    assert(pre@.contains(subset@[j]));
                }
            }
            assert(pre@.to_set() =~= subset@.to_set());
        }
        true
    }

    /// The subset of {0, ..., n-1} given by the set bits of `mask`.
    pub fn subset_of_mask(n: usize, mask: u32) -> (subset: Vec<usize>)
        requires
            n <= 32,
        ensures
            subset@ == mask_subset(n as nat, mask),
    {
        let ghost p = |i: usize| mask_has(mask, i as int);
        let mut subset: Vec<usize> = Vec::new();
        let mut i: usize = 0;
        while i < n
            invariant
                i <= n,
                n <= 32,
                p == (|i: usize| mask_has(mask, i as int)),
                subset@ == index_range(i as nat).filter(p),
            decreases n - i,
        {
            proof {
                reveal_with_fuel(Seq::filter, 1);
                assert(index_range((i + 1) as nat).drop_last() =~= index_range(i as nat));
            }
            if (mask >> (i as u32)) & 1 == 1 {
                subset.push(i);
            }
            i = i + 1;
        }
        subset
    }

    /// Find all invariant subsets of {0, ..., n-1}, in the order of their masks
    /// 1, ..., 2^n - 1 (bit i set when point i belongs to the subset).
    pub fn find_invariant_subsets(transformation: &Transformation, n: usize) -> (found: Vec<Vec<usize>>)
        requires
            n < 32,
        ensures
            found@.map_values(|s: Vec<usize>| s@) == invariant_masks(transformation.map@, n as nat, (1u32 << (n as u32)) as nat),
            found@.map_values(|s: Vec<usize>| s@).no_duplicates(),
            forall|i: int| 0 <= i < found.len() ==> {
                let e = #[trigger] found@[i]@;
                &&& e.len() > 0
                &&& strictly_increasing(e)
                &&& forall|t: int| 0 <= t < e.len() ==> #[trigger] e[t] < n
                &&& preimage_set(transformation.map@, e.to_set()) == e.to_set()
            },
            forall|k: u32| 1 <= k < (1u32 << (n as u32)) && invariant_under(transformation.map@, #[trigger] mask_subset(n as nat, k))
                ==> found@.map_values(|s: Vec<usize>| s@).contains(mask_subset(n as nat, k)),
            forall|s: Set<usize>| (exists|x: usize| s.contains(x)) && (forall|y: usize| #[trigger] s.contains(y) ==> y < n)
                && #[trigger] preimage_set(transformation.map@, s) == s
                ==> found@.map_values(|s: Vec<usize>| s@).contains(index_range(n as nat).filter(|i: usize| s.contains(i))),
    {
        let limit: u32 = 1u32 << (n as u32);
        let nn = n as u32;
        assert(1u32 << nn >= 1) by (bit_vector)
            requires
                nn < 32;
        let mut found: Vec<Vec<usize>> = Vec::new();
        let mut mask: u32 = 1;
        while mask < limit
            invariant
                1 <= mask <= limit,
                n < 32,
                limit == 1u32 << (n as u32),
                found@.map_values(|s: Vec<usize>| s@) == invariant_masks(transformation.map@, n as nat, mask as nat),
            decreases limit - mask,
        {
            let subset = Self::subset_of_mask(n, mask);
            let ghost prev = found@.map_values(|s: Vec<usize>| s@);
            if Self::is_invariant(transformation, subset.as_slice()) {
                found.push(subset);
                assert(found@.map_values(|s: Vec<usize>| s@) =~= prev.push(mask_subset(n as nat, mask)));
            }
            mask = mask + 1;
            assert(((mask - 1) as nat) as u32 == mask - 1);
        }
        proof {
            let ghost view = found@.map_values(|s: Vec<usize>| s@);
            let ghost map = transformation.map@;
            law_invariant_masks_exact(map, n as nat, limit as nat);
            law_invariant_masks_distinct(map, n as nat, limit as nat);
            assert forall|i: int| 0 <= i < found.len() implies {
                let e = #[trigger] found@[i]@;
                &&& e.len() > 0
                &&& strictly_increasing(e)
                &&& forall|t: int| 0 <= t < e.len() ==> #[trigger] e[t] < n
                &&& preimage_set(map, e.to_set()) == e.to_set()
            } by {
                assert(view[i] == found@[i]@);
                assert(view.contains(found@[i]@));
                law_invariant_subsets_sound(map, n as nat, found@[i]@);
            }
            assert forall|s: Set<usize>| (exists|x: usize| s.contains(x)) && (forall|y: usize| #[trigger] s.contains(y) ==> y < n)
                && #[trigger] preimage_set(map, s) == s
                implies view.contains(index_range(n as nat).filter(|i: usize| s.contains(i))) by {
                let x = choose|x: usize| s.contains(x);
                law_invariant_sets_found(map, n as nat, s, x);
            }
        }
        found
    }

    /// Decompose {0, ..., n-1} into orbits: scanning the points in increasing
    /// order, each point not yet visited starts an orbit that follows the map
    /// until it reaches a visited point.
    pub fn orbits(transformation: &Transformation, n: usize) -> (orbits: Vec<Vec<usize>>)
        requires
            n <= transformation.map.len(),
            forall|i: int| 0 <= i < n ==> #[trigger] transformation.map@[i] < n,
        ensures
            is_orbit_decomposition(transformation.map@, n as nat, orbits@.map_values(|o: Vec<usize>| o@)),
    {
        let ghost map = transformation.map@;
        let mut visited: Vec<bool> = Vec::new();
        let mut i: usize = 0;
        while i < n
            invariant
                i <= n,
                visited@ == Seq::new(i as nat, |t: int| false),
            decreases n - i,
        {
            visited.push(false);
            i = i + 1;
            assert(visited@ =~= Seq::new(i as nat, |t: int| false));
        }
        let mut orbits: Vec<Vec<usize>> = Vec::new();
        let mut start: usize = 0;
        while start < n
            invariant
                start <= n,
                n <= transformation.map.len(),
                map == transformation.map@,
                forall|i: int| 0 <= i < n ==> #[trigger] map[i] < n,
                visited.len() == n,
                ({
                    let os = orbits@.map_values(|o: Vec<usize>| o@);
                    &&& orbits_disjoint(os)
                    &&& forall|x: usize| x < n ==> (visited@[x as int] <==> #[trigger] in_orbits_upto(os, os.len() as int, x))
                    &&& forall|x: usize| #[trigger] in_orbits_upto(os, os.len() as int, x) ==> x < n
                    &&& forall|x: usize| x < start ==> #[trigger] in_orbits_upto(os, os.len() as int, x)
                    &&& forall|k: int| 0 <= k < os.len() ==> #[trigger] os[k].len() > 0
                    &&& forall|k: int, m: int| 0 <= k < os.len() && 0 <= m < os[k].len() - 1 ==> #[trigger] orbit_step(map, os[k], m)
                    &&& forall|k: int| 0 <= k < os.len() ==> in_orbits_upto(os, k + 1, map[#[trigger] os[k].last() as int])
                    &&& forall|k: int, x: usize| #![trigger in_orbits_upto(os, k, x)] 0 <= k < os.len() && x < os[k][0] ==> in_orbits_upto(os, k, x)
                }),
            decreases n - start,
        {
            let ghost os = orbits@.map_values(|o: Vec<usize>| o@);
            if !visited[start] {
                let mut orbit: Vec<usize> = Vec::new();
                let mut current = start;
                while !visited[current]
                    invariant
                        n <= transformation.map.len(),
                        map == transformation.map@,
                        forall|i: int| 0 <= i < n ==> #[trigger] map[i] < n,
                        visited.len() == n,
                        current < n,
                        start < n,
                        !in_orbits_upto(os, os.len() as int, start),
                        os == orbits@.map_values(|o: Vec<usize>| o@),
                        orbits_disjoint(os),
                        forall|x: usize| #[trigger] in_orbits_upto(os, os.len() as int, x) ==> x < n,
                        orbit.len() == 0 ==> current == start,
                        orbit.len() > 0 ==> orbit@[0] == start && current == map[orbit@.last() as int],
                        forall|m: int| 0 <= m < orbit.len() - 1 ==> #[trigger] orbit_step(map, orbit@, m),
                        orbit@.no_duplicates(),
                        forall|m: int| 0 <= m < orbit.len() ==> #[trigger] orbit@[m] < n,
                        forall|m: int| 0 <= m < orbit.len() ==> !in_orbits_upto(os, os.len() as int, #[trigger] orbit@[m]),
                        forall|x: usize| x < n ==> (visited@[x as int] <==> (in_orbits_upto(os, os.len() as int, x) || orbit@.contains(x))),
                    decreases crate::markov::count_unseen_row(visited@),
                {
                    proof {
                        crate::markov::lemma_count_unseen_row_mark(visited@, current as int);
                        assert(!orbit@.contains(current));
                    }
                    visited.set(current, true);
                    let ghost old_orbit = orbit@;
                    orbit.push(current);
                    proof {
                        assert forall|m: int| 0 <= m < orbit.len() - 1 implies #[trigger] orbit_step(map, orbit@, m) by {
                            if m < old_orbit.len() - 1 {
                                assert(orbit_step(map, old_orbit, m));
                            }
                        }
                        assert forall|x: usize| x < n implies (visited@[x as int] <==> (in_orbits_upto(os, os.len() as int, x) || orbit@.contains(x))) by {
                            if x == current {
                                assert(orbit@[orbit.len() - 1] == x);
                            }
                            if orbit@.contains(x) && x != current {
                                let m = choose|m: int| 0 <= m < orbit.len() && orbit@[m] == x;
                                assert(old_orbit[m] == x);
                            }
                            if old_orbit.contains(x) {
                                let m = choose|m: int| 0 <= m < old_orbit.len() && old_orbit[m] == x;
                                assert(orbit@[m] == x);
                            }
                        }
                    }
                    current = transformation.apply(current);
                }
                proof {
                    assert(visited@[current as int]);
                }
                let ghost o = orbit@;
                orbits.push(orbit);
                proof {
                    let os2 = orbits@.map_values(|o: Vec<usize>| o@);
                    let k0 = os.len() as int;
                    assert(os2 =~= os.push(o));
                    assert forall|x: usize| #[trigger] in_orbits_upto(os, os.len() as int, x) implies in_orbits_upto(os2, os2.len() as int, x) by {
                        let (k, m) = choose|k: int, m: int| 0 <= k < os.len() && 0 <= m < os[k].len() && #[trigger] os[k][m] == x;
                        assert(os2[k][m] == x);
                    }
                    assert forall|x: usize| o.contains(x) implies #[trigger] in_orbits_upto(os2, os2.len() as int, x) by {
                        let m = choose|m: int| 0 <= m < o.len() && o[m] == x;
                        assert(os2[k0][m] == x);
                    }
                    assert forall|x: usize| #[trigger] in_orbits_upto(os2, os2.len() as int, x) implies
                        in_orbits_upto(os, os.len() as int, x) || o.contains(x) by {
                        let (k, m) = choose|k: int, m: int| 0 <= k < os2.len() && 0 <= m < os2[k].len() && #[trigger] os2[k][m] == x;
                        if k < k0 {
                            assert(os[k][m] == x);
                        } else {
                            assert(o[m] == x);
                        }
                    }
                    assert forall|k1: int, m1: int, k2: int, m2: int|
                        0 <= k1 < os2.len() && 0 <= m1 < os2[k1].len() && 0 <= k2 < os2.len() && 0 <= m2 < os2[k2].len()
                            && #[trigger] os2[k1][m1] == #[trigger] os2[k2][m2] implies k1 == k2 && m1 == m2 by {
                        if k1 < k0 && k2 < k0 {
                            assert(os[k1][m1] == os[k2][m2]);
                        } else if k1 == k0 && k2 == k0 {
                            assert(o[m1] == o[m2]);
                        } else if k1 == k0 {
                            assert(os[k2][m2] == o[m1]);
                            assert(in_orbits_upto(os, os.len() as int, o[m1]));
                        } else {
                            assert(os[k1][m1] == o[m2]);
                            assert(in_orbits_upto(os, os.len() as int, o[m2]));
                        }
                    }
                    assert forall|k: int| 0 <= k < os2.len() implies
                        in_orbits_upto(os2, k + 1, map[#[trigger] os2[k].last() as int]) by {
                        if k < k0 {
                            let y = map[os[k].last() as int];
                            assert(in_orbits_upto(os, k + 1, y));
                            let (kk, mm) = choose|kk: int, mm: int| 0 <= kk < k + 1 && kk < os.len() && 0 <= mm < os[kk].len() && #[trigger] os[kk][mm] == y;
                            assert(os2[kk][mm] == y);
                        } else {
                            let y = map[o.last() as int];
                            assert(y == current);
                            if in_orbits_upto(os, os.len() as int, y) {
                                let (kk, mm) = choose|kk: int, mm: int| 0 <= kk < os.len() && 0 <= mm < os[kk].len() && #[trigger] os[kk][mm] == y;
                                assert(os2[kk][mm] == y);
                            } else {
                                let mm = choose|mm: int| 0 <= mm < o.len() && o[mm] == y;
                                assert(os2[k0][mm] == y);
                            }
                        }
                    }
                    assert forall|k: int, x: usize| #![trigger in_orbits_upto(os2, k, x)] 0 <= k < os2.len() && x < os2[k][0] implies in_orbits_upto(os2, k, x) by {
                        if k < k0 {
                            assert(in_orbits_upto(os, k, x));
                            let (kk, mm) = choose|kk: int, mm: int| 0 <= kk < k && kk < os.len() && 0 <= mm < os[kk].len() && #[trigger] os[kk][mm] == x;
                            assert(os2[kk][mm] == x);
                        } else {
                            assert(in_orbits_upto(os, os.len() as int, x));
                            let (kk, mm) = choose|kk: int, mm: int| 0 <= kk < os.len() && 0 <= mm < os[kk].len() && #[trigger] os[kk][mm] == x;
                            assert(os2[kk][mm] == x);
                        }
                    }
                    assert forall|k: int, m: int| 0 <= k < os2.len() && 0 <= m < os2[k].len() - 1 implies #[trigger] orbit_step(map, os2[k], m) by {
                        if k < k0 {
                            assert(orbit_step(map, os[k], m));
                        }
                    }
                    assert(in_orbits_upto(os2, os2.len() as int, start)) by {
                        assert(os2[k0][0] == start);
                    }
                }
            }
            start = start + 1;
        }
        orbits
    }

    /// The union of the orbits whose bit is set in `mask`, in order.
    pub fn orbit_union(orbits: &Vec<Vec<usize>>, mask: u32) -> (union: Vec<usize>)
        requires
            orbits.len() <= 32,
        ensures
            union@ == orbit_union_upto(orbits@.map_values(|o: Vec<usize>| o@), mask, orbits.len() as nat),
    {
        let ghost os = orbits@.map_values(|o: Vec<usize>| o@);
        let mut union: Vec<usize> = Vec::new();
        let mut i: usize = 0;
        while i < orbits.len()
            invariant
                i <= orbits.len(),
                orbits.len() <= 32,
                os == orbits@.map_values(|o: Vec<usize>| o@),
                union@ == orbit_union_upto(os, mask, i as nat),
            decreases orbits.len() - i,
        {
            if (mask >> (i as u32)) & 1 == 1 {
                let orbit = &orbits[i];
                let mut k: usize = 0;
                let ghost before = union@;
                while k < orbit.len()
                    invariant
                        k <= orbit.len(),
                        union@ == before + orbit@.take(k as int),
                    decreases orbit.len() - k,
                {
                    union.push(orbit[k]);
                    k = k + 1;
                    assert(union@ =~= before + orbit@.take(k as int));
                }
                assert(orbit@.take(orbit.len() as int) =~= orbit@);
                assert(os[i as int] == orbit@);
            }
            i = i + 1;
        }
        union
    }
}

} // verus!
