//! Correlation sets T^{-n}(A) ∩ B, whose measures decide weak and strong mixing.

use vstd::prelude::*;
use crate::measure::{lemma_filter_index_range, preimage_seq, slice_contains, strictly_increasing, Transformation};

verus! {

broadcast use vstd::seq_lib::group_filter_ensures;

/// T^{-n}(A) by n successive preimages (A itself, as given, when n = 0).
pub open spec fn iterated_preimage(map: Seq<usize>, a: Seq<usize>, n: nat) -> Seq<usize>
    decreases n,
{
    if n == 0 {
        a
    } else {
        preimage_seq(map, iterated_preimage(map, a, (n - 1) as nat))
    }
}

/// `x` reaches A in exactly `n` steps, every step from a point of the domain.
pub open spec fn reaches_in(map: Seq<usize>, a: Seq<usize>, x: usize, n: nat) -> bool
    decreases n,
{
    if n == 0 {
        a.contains(x)
    } else {
        x < map.len() && reaches_in(map, a, map[x as int], (n - 1) as nat)
    }
}

/// The points of T^{-n}(A) that lie in B, in the order of T^{-n}(A).
pub open spec fn correlation_points(map: Seq<usize>, a: Seq<usize>, b: Seq<usize>, n: nat) -> Seq<usize> {
    iterated_preimage(map, a, n).filter(|x: usize| b.contains(x))
}

/// A point is in T^{-n}(A) ∩ B exactly when it lies in B and reaches A in n
/// steps; for n >= 1 the points come in increasing order.
pub proof fn law_correlation_points(map: Seq<usize>, a: Seq<usize>, b: Seq<usize>, n: nat, x: usize)
    requires
        map.len() <= usize::MAX + 1,
    ensures
        correlation_points(map, a, b, n).contains(x) <==> (b.contains(x) && reaches_in(map, a, x, n)),
        n >= 1 ==> strictly_increasing(correlation_points(map, a, b, n)),
{
    lemma_iterated_preimage(map, a, n, x);
    let p = |y: usize| b.contains(y);
    let s = iterated_preimage(map, a, n);
    if s.filter(p).contains(x) {
        s.lemma_filter_contains_rev(p, x);
        let i = choose|i: int| 0 <= i < s.filter(p).len() && s.filter(p)[i] == x;
        assert(p(s.filter(p)[i]));
    }
    if b.contains(x) && s.contains(x) {
        let i = choose|i: int| 0 <= i < s.len() && s[i] == x;
        assert(s.filter(p).contains(s[i]));
    }
    if n >= 1 {
        lemma_filter_increasing(s, p);
    }
}

proof fn lemma_iterated_preimage(map: Seq<usize>, a: Seq<usize>, n: nat, x: usize)
    requires
        map.len() <= usize::MAX + 1,
    ensures
        iterated_preimage(map, a, n).contains(x) <==> reaches_in(map, a, x, n),
        n >= 1 ==> strictly_increasing(iterated_preimage(map, a, n)),
    decreases n,
{
    if n >= 1 {
        let prev = iterated_preimage(map, a, (n - 1) as nat);
        lemma_filter_index_range(map.len(), |y: usize| prev.contains(map[y as int]));
        if x < map.len() {
            lemma_iterated_preimage(map, a, (n - 1) as nat, map[x as int]);
        }
    }
}

proof fn lemma_filter_increasing(s: Seq<usize>, p: spec_fn(usize) -> bool)
    requires
        strictly_increasing(s),
    ensures
        strictly_increasing(s.filter(p)),
    decreases s.len(),
{
    reveal_with_fuel(Seq::filter, 1);
    if s.len() > 0 {
        let rest = s.drop_last();
        assert(strictly_increasing(rest));
        lemma_filter_increasing(rest, p);
        let fr = rest.filter(p);
        if p(s.last()) {
            assert forall|i: int, j: int| 0 <= i < j < fr.push(s.last()).len() implies
                fr.push(s.last())[i] < fr.push(s.last())[j] by {
                if j == fr.len() {
                    rest.lemma_filter_contains_rev(p, fr[i]);
                    assert(fr.contains(fr[i]));
                    let t = choose|t: int| 0 <= t < rest.len() && rest[t] == fr[i];
                    assert(s[t] < s[s.len() - 1]);
                }
            }
        }
    }
}

/// Checks weak and strong mixing properties.
pub struct MixingChecker;

impl MixingChecker {
    /// The points of T^{-n}(A) ∩ B, whose measure is the correlation
    /// mu(T^{-n}(A) ∩ B).
    pub fn correlation_set(transformation: &Transformation, set_a: &[usize], set_b: &[usize], n: usize) -> (points: Vec<usize>)
        ensures
            points@ == correlation_points(transformation.map@, set_a@, set_b@, n as nat),
    {
        let mut preimage: Vec<usize> = Vec::new();
        let mut i: usize = 0;
        while i < set_a.len()
            invariant
                i <= set_a.len(),
                preimage@ == set_a@.take(i as int),
            decreases set_a.len() - i,
        {
            preimage.push(set_a[i]);
            i = i + 1;
            assert(preimage@ =~= set_a@.take(i as int));
        }
        assert(set_a@.take(set_a.len() as int) =~= set_a@);
        let mut k: usize = 0;
        while k < n
            invariant
                k <= n,
                preimage@ == iterated_preimage(transformation.map@, set_a@, k as nat),
            decreases n - k,
        {
            preimage = transformation.preimage(preimage.as_slice());
            k = k + 1;
        }
        let ghost p = |x: usize| set_b@.contains(x);
        let mut points: Vec<usize> = Vec::new();
        let mut j: usize = 0;
        while j < preimage.len()
            invariant
                j <= preimage.len(),
                p == (|x: usize| set_b@.contains(x)),
                points@ == preimage@.take(j as int).filter(p),
            decreases preimage.len() - j,
        {
            proof {
                reveal_with_fuel(Seq::filter, 1);
                assert(preimage@.take(j + 1).drop_last() =~= preimage@.take(j as int));
            }
            if slice_contains(set_b, preimage[j]) {
                points.push(preimage[j]);
            }
            j = j + 1;
        }
        assert(preimage@.take(preimage.len() as int) =~= preimage@);
        points
    }
}

} // verus!
