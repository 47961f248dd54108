//! Deterministic transformations T: X -> X on a finite set X = {0, ..., n-1}.

use vstd::prelude::*;

verus! {

/// `T^k(x)`, following `map` k times from `x`.
pub open spec fn iterate_map(map: Seq<usize>, x: usize, k: nat) -> usize
    decreases k,
{
    if k == 0 {
        x
    } else {
        map[iterate_map(map, x, (k - 1) as nat) as int]
    }
}

/// The first `k` points of the orbit of `x` all lie in the domain of `map`,
/// so that `k` applications of the map are defined.
pub open spec fn path_in_bounds(map: Seq<usize>, x: usize, k: nat) -> bool {
    forall|j: nat| j < k ==> #[trigger] iterate_map(map, x, j) < map.len()
}

/// The map sends its domain into itself.
pub open spec fn is_closed(map: Seq<usize>) -> bool {
    forall|i: int| 0 <= i < map.len() ==> #[trigger] map[i] < map.len()
}

/// A map that sends its domain into itself keeps every orbit of a point of
/// the domain inside the domain, for any number of steps.
pub proof fn law_closed_map_orbits_stay(map: Seq<usize>, x: usize, k: nat)
    requires
        is_closed(map),
        x < map.len(),
    ensures
        path_in_bounds(map, x, k),
{
    assert forall|j: nat| j < k implies #[trigger] iterate_map(map, x, j) < map.len() by {
        lemma_closed_iterate(map, x, j);
    }
}

proof fn lemma_closed_iterate(map: Seq<usize>, x: usize, j: nat)
    requires
        is_closed(map),
        x < map.len(),
    ensures
        iterate_map(map, x, j) < map.len(),
    decreases j,
{
    if j > 0 {
        lemma_closed_iterate(map, x, (j - 1) as nat);
    }
}

/// The elements of `s` are strictly increasing (so sorted and distinct).
pub open spec fn strictly_increasing(s: Seq<usize>) -> bool {
    forall|i: int, j: int| 0 <= i < j < s.len() ==> s[i] < s[j]
}

/// The points 0, 1, ..., k-1 in increasing order.
pub open spec fn index_range(k: nat) -> Seq<usize> {
    Seq::new(k, |i: int| i as usize)
}

/// T^{-1}(A) as the increasing list of all x in the domain with T(x) in A.
pub open spec fn preimage_seq(map: Seq<usize>, subset: Seq<usize>) -> Seq<usize> {
    index_range(map.len()).filter(|x: usize| subset.contains(map[x as int]))
}

/// T^{-1}(A) as a set.
pub open spec fn preimage_set(map: Seq<usize>, a: Set<usize>) -> Set<usize> {
    Set::new(|x: usize| x < map.len() && a.contains(map[x as int]))
}

/// T(S) as a set.
pub open spec fn image_set(map: Seq<usize>, s: Set<usize>) -> Set<usize> {
    Set::new(|y: usize| exists|x: usize| #[trigger] s.contains(x) && x < map.len() && map[x as int] == y)
}

/// Distinct numbers that all lie in `[0, n)` are at most `n` many.
pub proof fn lemma_distinct_below(s: Seq<int>, n: int)
    requires
        0 <= n,
        s.no_duplicates(),
        forall|m: int| 0 <= m < s.len() ==> 0 <= #[trigger] s[m] < n,
    ensures
        s.len() <= n,
{
    s.unique_seq_to_set();
    vstd::set_lib::lemma_int_range(0, n);
    assert forall|a: int| s.to_set().contains(a) implies vstd::set_lib::set_int_range(0, n).contains(a) by {
        let m = choose|m: int| 0 <= m < s.len() && s[m] == a;
        assert(0 <= s[m] < n);
    }
    vstd::set_lib::lemma_len_subset(s.to_set(), vstd::set_lib::set_int_range(0, n));
}

/// Filtering the increasing list 0..k keeps exactly the points that pass,
/// in increasing order.
pub proof fn lemma_filter_index_range(k: nat, p: spec_fn(usize) -> bool)
    requires
        k <= usize::MAX + 1,
    ensures
        strictly_increasing(index_range(k).filter(p)),
        forall|x: usize| #[trigger] index_range(k).filter(p).contains(x) <==> (x < k && p(x)),
    decreases k,
{
    reveal_with_fuel(Seq::filter, 1);
    let r = index_range(k);
    if k > 0 {
        let k1 = (k - 1) as nat;
        lemma_filter_index_range(k1, p);
        assert(r.drop_last() =~= index_range(k1));
        let prev = index_range(k1).filter(p);
        assert(r.last() == k1 as usize);
        if p(r.last()) {
            assert forall|x: usize| #[trigger] prev.push(r.last()).contains(x) <==> (x < k && p(x)) by {
                if prev.push(r.last()).contains(x) {
                    let i = choose|i: int| 0 <= i < prev.len() + 1 && prev.push(r.last())[i] == x;
                    if i < prev.len() {
                        assert(prev.contains(x));
                    }
                }
                if x < k && p(x) && x != k1 {
                    assert(prev.contains(x));
                    let i = choose|i: int| 0 <= i < prev.len() && prev[i] == x;
                    assert(prev.push(r.last())[i] == x);
                }
                if x == k1 {
                    assert(prev.push(r.last())[prev.len() as int] == x);
                }
            }
            assert forall|i: int, j: int| 0 <= i < j < prev.push(r.last()).len() implies
                prev.push(r.last())[i] < prev.push(r.last())[j] by {
                if j == prev.len() {
                    assert(prev.contains(prev[i]));
                }
            }
        }
    }
}

/// A deterministic transformation T: X -> X on a finite set {0, ..., n-1}.
#[derive(Debug, Clone)]
pub struct Transformation {
    /// T[i] = image of point i under the transformation.
    pub map: Vec<usize>,
}

impl Transformation {
    /// Create a new transformation from a mapping.
    pub fn new(map: Vec<usize>) -> (t: Self)
        ensures
            t.map@ == map@,
    {
        Transformation { map }
    }

    /// Identity transformation on `n` points.
    pub fn identity(n: usize) -> (t: Self)
        ensures
            t.map@ == index_range(n as nat),
    {
        let mut map: Vec<usize> = Vec::with_capacity(n);
        let mut i: usize = 0;
        while i < n
            invariant
                i <= n,
                map@ == index_range(i as nat),
            decreases n - i,
        {
            map.push(i);
            i = i + 1;
            assert(map@ =~= index_range(i as nat));
        }
        Transformation { map }
    }

    /// Number of points.
    pub fn size(&self) -> (n: usize)
        ensures
            n == self.map.len(),
    {
        self.map.len()
    }

    /// Apply the transformation to a point.
    pub fn apply(&self, x: usize) -> (y: usize)
        requires
            x < self.map.len(),
        ensures
            y == self.map@[x as int],
    {
        self.map[x]
    }

    /// Iterate the transformation: compute T^k(x).
    pub fn iterate(&self, x: usize, k: usize) -> (y: usize)
        requires
            path_in_bounds(self.map@, x, k as nat),
        ensures
            y == iterate_map(self.map@, x, k as nat),
    {
        let mut current = x;
        let mut i: usize = 0;
        while i < k
            invariant
                i <= k,
                path_in_bounds(self.map@, x, k as nat),
                current == iterate_map(self.map@, x, i as nat),
            decreases k - i,
        {
            assert(iterate_map(self.map@, x, i as nat) < self.map.len());
            current = self.map[current];
            i = i + 1;
        }
        current
    }

    /// Compute orbit of point x up to length max_len: x, T(x), ..., T^{max_len-1}(x).
    pub fn orbit(&self, x: usize, max_len: usize) -> (orbit: Vec<usize>)
        requires
            path_in_bounds(self.map@, x, max_len as nat),
        ensures
            orbit.len() == max_len,
            forall|k: int| 0 <= k < max_len ==> orbit@[k] == iterate_map(self.map@, x, k as nat),
    {
        let mut orbit: Vec<usize> = Vec::with_capacity(max_len);
        let mut current = x;
        let mut i: usize = 0;
        while i < max_len
            invariant
                i <= max_len,
                path_in_bounds(self.map@, x, max_len as nat),
                current == iterate_map(self.map@, x, i as nat),
                orbit.len() == i,
                forall|k: int| 0 <= k < i ==> orbit@[k] == iterate_map(self.map@, x, k as nat),
            decreases max_len - i,
        {
            assert(iterate_map(self.map@, x, i as nat) < self.map.len());
            orbit.push(current);
            current = self.map[current];
            i = i + 1;
        }
        orbit
    }

    /// Compute the preimage T^{-1}(A) for a subset A.
    /// Returns all x such that T(x) is in A, in increasing order.
    pub fn preimage(&self, subset: &[usize]) -> (pre: Vec<usize>)
        ensures
            pre@ == preimage_seq(self.map@, subset@),
            strictly_increasing(pre@),
            pre@.to_set() == preimage_set(self.map@, subset@.to_set()),
    {
        let n = self.map.len();
        let ghost p = |x: usize| subset@.contains(self.map@[x as int]);
        let mut pre: Vec<usize> = Vec::new();
        let mut i: usize = 0;
        while i < n
            invariant
                i <= n,
                n == self.map.len(),
                p == (|x: usize| subset@.contains(self.map@[x as int])),
                pre@ == index_range(i as nat).filter(p),
            decreases n - i,
        {
            proof {
                reveal_with_fuel(Seq::filter, 1);
                assert(index_range((i + 1) as nat).drop_last() =~= index_range(i as nat));
            }
            if slice_contains(subset, self.map[i]) {
                pre.push(i);
            }
            i = i + 1;
        }
        proof {
            lemma_filter_index_range(n as nat, p);
            assert(pre@.to_set() =~= preimage_set(self.map@, subset@.to_set()));
        }
        pre
    }

    /// Compute forward image T(A), as an increasing list of distinct points.
    pub fn image(&self, subset: &[usize]) -> (img: Vec<usize>)
        requires
            forall|i: int| 0 <= i < subset.len() ==> subset@[i] < self.map.len(),
        ensures
            strictly_increasing(img@),
            img@.to_set() == image_set(self.map@, subset@.to_set()),
    {
        let mut img: Vec<usize> = Vec::new();
        let mut i: usize = 0;
        while i < subset.len()
            invariant
                i <= subset.len(),
                forall|j: int| 0 <= j < subset.len() ==> subset@[j] < self.map.len(),
                strictly_increasing(img@),
                forall|y: usize| img@.contains(y) <==>
                    exists|j: int| 0 <= j < i && #[trigger] self.map@[subset@[j] as int] == y,
            decreases subset.len() - i,
        {
            let y = self.map[subset[i]];
            insert_sorted(&mut img, y);
            assert forall|z: usize| img@.contains(z) <==>
                exists|j: int| 0 <= j < i + 1 && #[trigger] self.map@[subset@[j] as int] == z by {
                if z == y {
                    assert(self.map@[subset@[i as int] as int] == z);
                }
                if exists|j: int| 0 <= j < i + 1 && #[trigger] self.map@[subset@[j] as int] == z {
                    let j = choose|j: int| 0 <= j < i + 1 && #[trigger] self.map@[subset@[j] as int] == z;
                    if j < i {
                        assert(exists|j: int| 0 <= j < i && #[trigger] self.map@[subset@[j] as int] == z);
                    }
                }
            }
            i = i + 1;
        }
        proof {
            assert forall|y: usize| img@.to_set().contains(y) <==> image_set(self.map@, subset@.to_set()).contains(y) by {
                if img@.contains(y) {
                    let j = choose|j: int| 0 <= j < subset.len() && #[trigger] self.map@[subset@[j] as int] == y;
                    assert(subset@.to_set().contains(subset@[j]));
                }
                if image_set(self.map@, subset@.to_set()).contains(y) {
                    let x = choose|x: usize| #[trigger] subset@.to_set().contains(x) && x < self.map.len() && self.map@[x as int] == y;
                    let j = choose|j: int| 0 <= j < subset.len() && subset@[j] == x;
                    assert(self.map@[subset@[j] as int] == y);
                }
            }
            assert(img@.to_set() =~= image_set(self.map@, subset@.to_set()));
        }
        img
    }
}

/// Whether `v` occurs in `s`.
pub fn slice_contains(s: &[usize], v: usize) -> (found: bool)
    ensures
        found == s@.contains(v),
{
    let mut i: usize = 0;
    while i < s.len()
        invariant
            i <= s.len(),
            forall|j: int| 0 <= j < i ==> s@[j] != v,
        decreases s.len() - i,
    {
        if s[i] == v {
            assert(s@[i as int] == v);
            return true;
        }
        i = i + 1;
    }
    false
}

/// Insert `y` into the strictly increasing vector `v`, unless it is already there.
fn insert_sorted(v: &mut Vec<usize>, y: usize)
    requires
        strictly_increasing(old(v)@),
    ensures
        strictly_increasing(final(v)@),
        forall|z: usize| final(v)@.contains(z) <==> (old(v)@.contains(z) || z == y),
{
    let mut pos: usize = 0;
    while pos < v.len() && v[pos] < y
        invariant
            pos <= v.len(),
            v@ == old(v)@,
            forall|j: int| 0 <= j < pos ==> v@[j] < y,
        decreases v.len() - pos,
    {
        pos = pos + 1;
    }
    if pos < v.len() && v[pos] == y {
        assert(v@[pos as int] == y);
        assert(old(v)@.contains(y));
        return;
    }
    let ghost before = v@;
    assert(before == old(v)@);
    v.insert(pos, y);
    proof {
        assert(v@ == before.insert(pos as int, y));
        assert forall|z: usize| v@.contains(z) <==> (before.contains(z) || z == y) by {
            if v@.contains(z) {
                let j = choose|j: int| 0 <= j < v@.len() && v@[j] == z;
                if j < pos {
                    assert(before[j] == z);
                } else if j > pos {
                    assert(before[j - 1] == z);
                }
            }
            if before.contains(z) {
                let j = choose|j: int| 0 <= j < before.len() && before[j] == z;
                if j < pos {
                    assert(v@[j] == z);
                } else {
                    assert(v@[j + 1] == z);
                }
            }
            if z == y {
                assert(v@[pos as int] == z);
            }
        }
        assert(forall|z: usize| v@.contains(z) <==> (old(v)@.contains(z) || z == y));
    }
}

/// Iterating `a` times and then `b` times is iterating `a + b` times:
/// T^{a+b}(x) = T^b(T^a(x)).
pub proof fn law_iterate_add(map: Seq<usize>, x: usize, a: nat, b: nat)
    ensures
        iterate_map(map, x, a + b) == iterate_map(map, iterate_map(map, x, a), b),
    decreases b,
{
    if b > 0 {
        law_iterate_add(map, x, a, (b - 1) as nat);
        assert((a + b - 1) as nat == a + (b - 1) as nat);
    }
}

/// The image of a preimage lies inside the set: T(T^{-1}(A)) is a subset of A;
/// and every point of the domain lies in the preimage of its image:
/// S (within the domain) is a subset of T^{-1}(T(S)).
pub proof fn law_image_preimage(map: Seq<usize>, a: Set<usize>, s: Set<usize>)
    ensures
        image_set(map, preimage_set(map, a)).subset_of(a),
        forall|x: usize| #[trigger] s.contains(x) && x < map.len() ==>
            preimage_set(map, image_set(map, s)).contains(x),
{
    assert forall|y: usize| #[trigger] image_set(map, preimage_set(map, a)).contains(y) implies a.contains(y) by {
        let x = choose|x: usize| #[trigger] preimage_set(map, a).contains(x) && x < map.len() && map[x as int] == y;
    }
    assert forall|x: usize| #[trigger] s.contains(x) && x < map.len() implies
        preimage_set(map, image_set(map, s)).contains(x) by {
        assert(image_set(map, s).contains(map[x as int]));
    }
}

/// On the identity of `n` points, T^{-1}(A) = A restricted to the domain,
/// and T^k(x) = x.
pub proof fn law_identity(n: nat, a: Set<usize>, x: usize, k: nat)
    requires
        n <= usize::MAX + 1,
    ensures
        preimage_set(index_range(n), a) == a.filter(|y: usize| y < n),
        x < n ==> iterate_map(index_range(n), x, k) == x,
    decreases k,
{
    assert(preimage_set(index_range(n), a) =~= a.filter(|y: usize| y < n));
    if k > 0 {
        law_identity(n, a, x, (k - 1) as nat);
    }
}

} // verus!
