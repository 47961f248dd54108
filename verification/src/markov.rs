//! The support graph of a finite-state Markov chain: the pattern of positive
//! transition probabilities, on which irreducibility and aperiodicity depend.

use vstd::prelude::*;
use vstd::arithmetic::div_mod::*;
use vstd::arithmetic::mul::*;
use crate::measure::lemma_distinct_below;

verus! {

/// `d` divides `x` (0 divides only 0).
pub open spec fn divides(d: nat, x: nat) -> bool {
    if d == 0 {
        x == 0
    } else {
        x % d == 0
    }
}

proof fn lemma_divides_euclid_step(d: nat, a: nat, b: nat)
    requires
        b > 0,
        divides(d, b),
    ensures
        divides(d, a) <==> divides(d, a % b),
{
    if d > 0 {
        let (ai, bi, di) = (a as int, b as int, d as int);
        lemma_fundamental_div_mod(ai, bi);
        let q = ai / bi;
        let r = ai % bi;
        assert(ai == bi * q + r);
        lemma_mul_mod_noop_left(bi, q, di);
        assert((bi % di) * q == 0) by {
            lemma_mul_basics(q);
        }
        lemma_small_mod(0, d);
        assert((bi * q) % di == 0);
        lemma_add_mod_noop(bi * q, r, di);
        lemma_mod_twice(r, di);
        assert(ai % di == r % di);
    }
}

/// `d` divides both `x` and `y`.
pub open spec fn common_divisor(d: nat, x: nat, y: nat) -> bool {
    divides(d, x) && divides(d, y)
}

/// Greatest common divisor of two numbers (Euclid's algorithm).
pub fn gcd(a: usize, b: usize) -> (g: usize)
    ensures
        divides(g as nat, a as nat),
        divides(g as nat, b as nat),
        forall|d: nat| divides(d, a as nat) && divides(d, b as nat) ==> #[trigger] divides(d, g as nat),
{
    let mut a = a;
    let mut b = b;
    let ghost a0 = a as nat;
    let ghost b0 = b as nat;
    while b != 0
        invariant
            forall|d: nat| #[trigger] common_divisor(d, a as nat, b as nat) == common_divisor(d, a0, b0),
        decreases b,
    {
        let t = b;
        proof {
            assert forall|d: nat| #[trigger] common_divisor(d, b as nat, (a % b) as nat) == common_divisor(d, a0, b0) by {
                if divides(d, b as nat) {
                    lemma_divides_euclid_step(d, a as nat, b as nat);
                }
                assert(common_divisor(d, a as nat, b as nat) == common_divisor(d, a0, b0));
            }
        }
        b = a % b;
        a = t;
    }
    proof {
        assert(divides(a as nat, a as nat)) by {
            if a > 0 {
                lemma_mod_self_0(a as int);
            }
        }
        assert(divides(a as nat, 0)) by {
            if a > 0 {
                lemma_small_mod(0, a as nat);
            }
        }
        assert(common_divisor(a as nat, a as nat, b as nat));
        assert forall|d: nat| divides(d, a0) && divides(d, b0) implies #[trigger] divides(d, a as nat) by {
            assert(common_divisor(d, a0, b0));
            if d > 0 {
                lemma_small_mod(0, d);
            }
            assert(common_divisor(d, a as nat, b as nat));
        }
    }
    a
}

/// The support of a finite Markov chain's transition matrix:
/// `edges[i][j]` holds exactly when P(i, j) > 0.
#[derive(Debug, Clone)]
pub struct TransitionGraph {
    /// Number of states.
    pub n_states: usize,
    /// `edges[i][j]` holds when a step from state i to state j has positive probability.
    pub edges: Vec<Vec<bool>>,
}

/// Every interior point of the walk `p` (all but its two ends) is below `k`.
pub open spec fn interior_below(p: Seq<int>, k: int) -> bool {
    forall|m: int| 0 < m < p.len() - 1 ==> #[trigger] p[m] < k
}

/// The state of the depth-first search over (state, step count) pairs that
/// collects the return times to state 0.
pub struct SearchState {
    /// Pairs (state, number of steps taken) still to be expanded; the last is next.
    pub stack: Seq<(usize, usize)>,
    /// `seen[j][d]`: the pair (j, d) has already been put on the stack.
    pub seen: Seq<Seq<bool>>,
    /// Return times to state 0 found so far, in the order found.
    pub found: Seq<usize>,
}

/// The rows of a matrix of flags, as sequences.
pub open spec fn rows_view(rows: Seq<Vec<bool>>) -> Seq<Seq<bool>> {
    rows.map_values(|r: Vec<bool>| r@)
}

/// The search state held by a stack, a matrix of flags and the times found.
pub open spec fn search_state(stack: Seq<(usize, usize)>, seen: Seq<Vec<bool>>, found: Seq<usize>) -> SearchState {
    SearchState { stack, seen: rows_view(seen), found }
}

/// Number of unset flags in a row.
pub open spec fn count_unseen_row(row: Seq<bool>) -> nat
    decreases row.len(),
{
    if row.len() == 0 {
        0
    } else {
        count_unseen_row(row.drop_last()) + if row.last() {
            0nat
        } else {
            1nat
        }
    }
}

/// Number of unset flags in a matrix.
pub open spec fn count_unseen(seen: Seq<Seq<bool>>) -> nat
    decreases seen.len(),
{
    if seen.len() == 0 {
        0
    } else {
        count_unseen(seen.drop_last()) + count_unseen_row(seen.last())
    }
}

pub proof fn lemma_count_unseen_row_mark(row: Seq<bool>, d: int)
    requires
        0 <= d < row.len(),
        !row[d],
    ensures
        count_unseen_row(row.update(d, true)) + 1 == count_unseen_row(row),
    decreases row.len(),
{
    let r2 = row.update(d, true);
    if d == row.len() - 1 {
        assert(r2.drop_last() =~= row.drop_last());
    } else {
        assert(r2.drop_last() =~= row.drop_last().update(d, true));
        lemma_count_unseen_row_mark(row.drop_last(), d);
    }
}

pub proof fn lemma_count_unseen_mark(seen: Seq<Seq<bool>>, j: int, d: int)
    requires
        0 <= j < seen.len(),
        0 <= d < seen[j].len(),
        !seen[j][d],
    ensures
        count_unseen(seen.update(j, seen[j].update(d, true))) + 1 == count_unseen(seen),
    decreases seen.len(),
{
    let s2 = seen.update(j, seen[j].update(d, true));
    if j == seen.len() - 1 {
        assert(s2.drop_last() =~= seen.drop_last());
        lemma_count_unseen_row_mark(seen[j], d);
    } else {
        assert(s2.drop_last() =~= seen.drop_last().update(j, seen[j].update(d, true)));
        lemma_count_unseen_mark(seen.drop_last(), j, d);
    }
}

/// `d` divides every element of `s`.
pub open spec fn divides_all(d: nat, s: Seq<usize>) -> bool {
    forall|i: int| 0 <= i < s.len() ==> #[trigger] divides(d, s[i] as nat)
}

impl TransitionGraph {
    /// The matrix holds at least `n_states` rows of at least `n_states` entries.
    pub open spec fn wf(self) -> bool {
        &&& self.edges.len() >= self.n_states
        &&& forall|i: int| 0 <= i < self.n_states ==> #[trigger] self.edges@[i].len() >= self.n_states
    }

    /// A step from `i` to `j` has positive probability.
    pub open spec fn has_edge(self, i: int, j: int) -> bool {
        self.edges@[i]@[j]
    }

    /// `p` is a walk of at least one step through the states along edges.
    pub open spec fn is_walk(self, p: Seq<int>) -> bool {
        &&& p.len() >= 2
        &&& forall|m: int| 0 <= m < p.len() ==> 0 <= #[trigger] p[m] < self.n_states
        &&& forall|m: int| 0 <= m < p.len() - 1 ==> #[trigger] self.edge_at(p, m)
    }

    /// The `m`-th step of `p` follows an edge.
    pub open spec fn edge_at(self, p: Seq<int>, m: int) -> bool {
        self.has_edge(p[m], p[m + 1])
    }

    /// `p` is a walk from `i` to `j`.
    pub open spec fn walk_between(self, p: Seq<int>, i: int, j: int) -> bool {
        self.is_walk(p) && p[0] == i && p.last() == j
    }

    /// State `j` can be reached from state `i` in one or more steps.
    pub open spec fn reachable(self, i: int, j: int) -> bool {
        exists|p: Seq<int>| #[trigger] self.walk_between(p, i, j)
    }

    /// Every state can be reached from every state.
    pub open spec fn irreducible(self) -> bool {
        forall|i: int, j: int| 0 <= i < self.n_states && 0 <= j < self.n_states ==> #[trigger] self.reachable(i, j)
    }

    /// `j` can be reached from `i` by a walk whose interior states are all below `k`.
    pub open spec fn reachable_within(self, i: int, j: int, k: int) -> bool {
        exists|p: Seq<int>| #[trigger] self.walk_between(p, i, j) && interior_below(p, k)
    }

    proof fn lemma_within_zero(self, i: int, j: int)
        requires
            0 <= i < self.n_states,
            0 <= j < self.n_states,
        ensures
            self.reachable_within(i, j, 0) == self.has_edge(i, j),
    {
        if self.reachable_within(i, j, 0) {
            let p = choose|p: Seq<int>| #[trigger] self.walk_between(p, i, j) && interior_below(p, 0);
            if p.len() > 2 {
                assert(p[1] < 0);
            }
            assert(self.edge_at(p, 0));
        }
        if self.has_edge(i, j) {
            let p = seq![i, j];
            assert(self.walk_between(p, i, j) && interior_below(p, 0));
        }
    }

    proof fn lemma_within_monotone(self, i: int, j: int, k: int)
        requires
            self.reachable_within(i, j, k),
        ensures
            self.reachable_within(i, j, k + 1),
    {
        let p = choose|p: Seq<int>| #[trigger] self.walk_between(p, i, j) && interior_below(p, k);
        assert(self.walk_between(p, i, j) && interior_below(p, k + 1));
    }

    proof fn lemma_within_concat(self, i: int, j: int, k: int)
        requires
            0 <= k < self.n_states,
            self.reachable_within(i, k, k),
            self.reachable_within(k, j, k),
        ensures
            self.reachable_within(i, j, k + 1),
    {
        let p1 = choose|p: Seq<int>| #[trigger] self.walk_between(p, i, k) && interior_below(p, k);
        let p2 = choose|p: Seq<int>| #[trigger] self.walk_between(p, k, j) && interior_below(p, k);
        let q = p1 + p2.subrange(1, p2.len() as int);
        let l1 = p1.len() as int;
        assert forall|m: int| 0 <= m < q.len() implies 0 <= #[trigger] q[m] < self.n_states by {
            if m >= l1 {
                assert(q[m] == p2[m - l1 + 1]);
            }
        }
        assert forall|m: int| 0 <= m < q.len() - 1 implies #[trigger] self.edge_at(q, m) by {
            if m < l1 - 1 {
                assert(self.edge_at(p1, m));
            } else if m == l1 - 1 {
                assert(self.edge_at(p2, 0));
            } else {
                assert(self.edge_at(p2, m - l1 + 1));
                assert(q[m] == p2[m - l1 + 1]);
                assert(q[m + 1] == p2[m - l1 + 2]);
            }
        }
        assert forall|m: int| 0 < m < q.len() - 1 implies #[trigger] q[m] < k + 1 by {
            if m < l1 - 1 {
                assert(q[m] == p1[m]);
            } else if m == l1 - 1 {
                assert(q[m] == k);
            } else {
                assert(q[m] == p2[m - l1 + 1]);
            }
        }
        assert(self.walk_between(q, i, j) && interior_below(q, k + 1));
    }

    proof fn lemma_split_walk(self, p: Seq<int>, i: int, j: int, k: int)
        requires
            0 <= k < self.n_states,
            self.walk_between(p, i, j),
            interior_below(p, k + 1),
        ensures
            self.reachable_within(i, j, k) || (self.reachable_within(i, k, k) && self.reachable_within(k, j, k)),
        decreases p.len(),
    {
        if exists|m: int| 0 < m < p.len() - 1 && #[trigger] p[m] == k {
            let m = choose|m: int| 0 < m < p.len() - 1 && #[trigger] p[m] == k;
            let p1 = p.subrange(0, m + 1);
            let p2 = p.subrange(m, p.len() as int);
            assert forall|t: int| 0 <= t < p1.len() - 1 implies #[trigger] self.edge_at(p1, t) by {
                assert(self.edge_at(p, t));
            }
            assert forall|t: int| 0 <= t < p2.len() - 1 implies #[trigger] self.edge_at(p2, t) by {
                assert(self.edge_at(p, m + t));
            }
            assert forall|t: int| 0 < t < p2.len() - 1 implies #[trigger] p2[t] < k + 1 by {
                assert(p2[t] == p[m + t]);
            }
            assert(self.walk_between(p1, i, k));
            assert(self.walk_between(p2, k, j));
            self.lemma_split_walk(p1, i, k, k);
            self.lemma_split_walk(p2, k, j, k);
        } else {
            assert(interior_below(p, k));
        }
    }

    /// Warshall's step: allowing state `k` as an interior state adds exactly the
    /// walks that pass through `k`.
    proof fn lemma_within_step(self, i: int, j: int, k: int)
        requires
            0 <= k < self.n_states,
        ensures
            self.reachable_within(i, j, k + 1) == (self.reachable_within(i, j, k) || (
            self.reachable_within(i, k, k) && self.reachable_within(k, j, k))),
    {
        if self.reachable_within(i, j, k + 1) {
            let p = choose|p: Seq<int>| #[trigger] self.walk_between(p, i, j) && interior_below(p, k + 1);
            self.lemma_split_walk(p, i, j, k);
        }
        if self.reachable_within(i, j, k) {
            self.lemma_within_monotone(i, j, k);
        }
        if self.reachable_within(i, k, k) && self.reachable_within(k, j, k) {
            self.lemma_within_concat(i, j, k);
        }
    }

    proof fn lemma_within_all(self, i: int, j: int)
        ensures
            self.reachable_within(i, j, self.n_states as int) == self.reachable(i, j),
    {
        if self.reachable(i, j) {
            let p = choose|p: Seq<int>| #[trigger] self.walk_between(p, i, j);
            assert(self.walk_between(p, i, j) && interior_below(p, self.n_states as int));
        }
    }

    /// The pair (j, dist) may be pushed: within the step horizon 2n and not seen.
    pub open spec fn can_visit(self, st: SearchState, j: int, dist: int) -> bool {
        &&& dist <= 2 * self.n_states
        &&& 0 <= j < st.seen.len()
        &&& 0 <= dist < st.seen[j].len()
        &&& !st.seen[j][dist]
    }

    /// Push the pair (j, dist) and mark it seen.
    pub open spec fn visit(st: SearchState, j: int, dist: int) -> SearchState {
        SearchState {
            stack: st.stack.push((j as usize, dist as usize)),
            seen: st.seen.update(j, st.seen[j].update(dist, true)),
            found: st.found,
        }
    }

    /// Push the unseen successors (among states 0..j) of state `s`, reached after `d` steps.
    pub open spec fn expand(self, st: SearchState, s: int, d: int, j: nat) -> SearchState
        decreases j,
    {
        if j == 0 {
            st
        } else {
            let prev = self.expand(st, s, d, (j - 1) as nat);
            if self.has_edge(s, j - 1) && self.can_visit(prev, j - 1, d + 1) {
                Self::visit(prev, j - 1, d + 1)
            } else {
                prev
            }
        }
    }

    /// One step of the search: pop the last pair; record a return to state 0;
    /// push its unseen successors.
    pub open spec fn search_step(self, st: SearchState) -> SearchState {
        let (s, d) = st.stack.last();
        let found = if s == 0 && d > 0 {
            st.found.push(d)
        } else {
            st.found
        };
        let noted = SearchState { stack: st.stack.drop_last(), seen: st.seen, found };
        self.expand(noted, s as int, d as int, self.n_states as nat)
    }

    pub proof fn lemma_expand_progress(self, st: SearchState, s: int, d: int, j: nat)
        ensures
            self.expand(st, s, d, j).stack.len() >= st.stack.len(),
            count_unseen(self.expand(st, s, d, j).seen) + self.expand(st, s, d, j).stack.len()
                == count_unseen(st.seen) + st.stack.len(),
            self.expand(st, s, d, j).found == st.found,
        decreases j,
    {
        if j > 0 {
            self.lemma_expand_progress(st, s, d, (j - 1) as nat);
            let prev = self.expand(st, s, d, (j - 1) as nat);
            if self.has_edge(s, j - 1) && self.can_visit(prev, j - 1, d + 1) {
                lemma_count_unseen_mark(prev.seen, j - 1, d + 1);
            }
        }
    }

    pub proof fn lemma_step_progress(self, st: SearchState)
        requires
            st.stack.len() > 0,
        ensures
            count_unseen(self.search_step(st).seen) < count_unseen(st.seen) || (
            count_unseen(self.search_step(st).seen) == count_unseen(st.seen)
                && self.search_step(st).stack.len() < st.stack.len()),
    {
        let (s, d) = st.stack.last();
        let found = if s == 0 && d > 0 {
            st.found.push(d)
        } else {
            st.found
        };
        let noted = SearchState { stack: st.stack.drop_last(), seen: st.seen, found };
        self.lemma_expand_progress(noted, s as int, d as int, self.n_states as nat);
    }

    /// Run the search until the stack is empty.
    pub open spec fn search(self, st: SearchState) -> SearchState
        decreases count_unseen(st.seen), st.stack.len(),
    {
        if st.stack.len() == 0 {
            st
        } else {
            proof {
                self.lemma_step_progress(st);
            }
            self.search(self.search_step(st))
        }
    }

    /// The search starts at state 0 after 0 steps, with nothing seen.
    pub open spec fn search_start(self) -> SearchState {
        SearchState {
            stack: seq![(0usize, 0usize)],
            seen: Seq::new(self.n_states as nat, |i: int| Seq::new((2 * self.n_states + 1) as nat, |t: int| false)),
            found: seq![],
        }
    }

    /// The return times to state 0 that the search collects: the lengths, at
    /// most 2n, of walks from state 0 back to state 0, each once, in the order
    /// the depth-first search meets them.
    pub open spec fn collected_return_times(self) -> Seq<usize> {
        self.search(self.search_start()).found
    }

    /// Some walk of exactly `d` steps leads from state 0 to state `s`
    /// (for d = 0: s is state 0).
    pub open spec fn walk_of_length(self, s: int, d: int) -> bool {
        if d == 0 {
            s == 0
        } else {
            exists|p: Seq<int>| #[trigger] self.walk_between(p, 0, s) && p.len() == d + 1
        }
    }

    /// `t` is a return time to state 0: some walk of exactly `t >= 1` steps
    /// leads from state 0 back to state 0.
    pub open spec fn is_return_time(self, t: int) -> bool {
        t >= 1 && self.walk_of_length(0, t)
    }

    /// State 0 is aperiodic up to `h` steps: 1 is the only number dividing
    /// every return time to state 0 of at most `h` steps.
    pub open spec fn aperiodic_within(self, h: int) -> bool {
        forall|d: nat| #[trigger] self.divides_return_times(d, h) ==> d == 1
    }

    /// `d` divides every return time to state 0.
    pub open spec fn divides_all_return_times(self, d: nat) -> bool {
        forall|t: int| #[trigger] self.is_return_time(t) ==> divides(d, t as nat)
    }

    /// State 0 is aperiodic: 1 is the only number dividing every return time
    /// to state 0 (its period is 1).
    pub open spec fn aperiodic(self) -> bool {
        forall|d: nat| #[trigger] self.divides_all_return_times(d) ==> d == 1
    }

    /// `d` divides every return time to state 0 of at most `h` steps.
    pub open spec fn divides_return_times(self, d: nat, h: int) -> bool {
        forall|t: int| 1 <= t <= h && #[trigger] self.is_return_time(t) ==> divides(d, t as nat)
    }

    /// Everything the search holds is sound: each pair (s, d) on the stack is
    /// reached from state 0 in exactly d <= 2n steps, and each return time
    /// found is a return time of at most 2n steps.
    pub open spec fn search_sound(self, st: SearchState) -> bool {
        &&& forall|m: int| 0 <= m < st.stack.len() ==> {
            let (s, d) = #[trigger] st.stack[m];
            &&& d <= 2 * self.n_states
            &&& (s < self.n_states || s == 0)
            &&& self.walk_of_length(s as int, d as int)
        }
        &&& forall|i: int| 0 <= i < st.found.len() ==>
            #[trigger] st.found[i] <= 2 * self.n_states && self.is_return_time(st.found[i] as int)
    }

    proof fn lemma_extend_walk(self, s: int, d: int, j: int)
        requires
            d >= 0,
            0 <= s < self.n_states,
            0 <= j < self.n_states,
            self.walk_of_length(s, d),
            self.has_edge(s, j),
        ensures
            self.walk_of_length(j, d + 1),
    {
        if d == 0 {
            let q = seq![0int, j];
            assert(self.edge_at(q, 0));
            assert(self.walk_between(q, 0, j));
        } else {
            let p = choose|p: Seq<int>| #[trigger] self.walk_between(p, 0, s) && p.len() == d + 1;
            let q = p.push(j);
            assert forall|m: int| 0 <= m < q.len() - 1 implies #[trigger] self.edge_at(q, m) by {
                if m < p.len() - 1 {
                    assert(self.edge_at(p, m));
                }
            }
            assert(self.walk_between(q, 0, j));
        }
    }

    proof fn lemma_expand_sound(self, st: SearchState, s: int, d: int, j: nat)
        requires
            self.wf(),
            2 * self.n_states < usize::MAX,
            self.search_sound(st),
            0 <= d <= 2 * self.n_states,
            s < self.n_states || (s == 0 && self.n_states == 0),
            0 <= s,
            self.walk_of_length(s, d),
            j <= self.n_states,
            st.seen.len() == self.n_states,
        ensures
            self.search_sound(self.expand(st, s, d, j)),
            self.expand(st, s, d, j).seen.len() == self.n_states,
        decreases j,
    {
        if j > 0 {
            self.lemma_expand_sound(st, s, d, (j - 1) as nat);
            let prev = self.expand(st, s, d, (j - 1) as nat);
            if self.has_edge(s, j - 1) && self.can_visit(prev, j - 1, d + 1) {
                self.lemma_extend_walk(s, d, j - 1);
                let next = Self::visit(prev, j - 1, d + 1);
                assert forall|m: int| 0 <= m < next.stack.len() implies {
                    let (s2, d2) = #[trigger] next.stack[m];
                    &&& d2 <= 2 * self.n_states
                    &&& (s2 < self.n_states || s2 == 0)
                    &&& self.walk_of_length(s2 as int, d2 as int)
                } by {
                    if m < prev.stack.len() {
                        assert(next.stack[m] == prev.stack[m]);
                    } else {
                        assert(next.stack[m] == ((j - 1) as usize, (d + 1) as usize));
                        assert(((j - 1) as usize) as int == j - 1);
                        assert(((d + 1) as usize) as int == d + 1);
                    }
                }
            }
        }
    }

    proof fn lemma_step_sound(self, st: SearchState)
        requires
            self.wf(),
            2 * self.n_states < usize::MAX,
            st.stack.len() > 0,
            st.seen.len() == self.n_states,
            self.search_sound(st),
        ensures
            self.search_sound(self.search_step(st)),
            self.search_step(st).seen.len() == self.n_states,
    {
        let (s, d) = st.stack.last();
        assert(self.search_sound(st));
        let top = st.stack[st.stack.len() - 1];
        assert(top == (s, d));
        let found = if s == 0 && d > 0 {
            st.found.push(d)
        } else {
            st.found
        };
        let noted = SearchState { stack: st.stack.drop_last(), seen: st.seen, found };
        assert forall|i: int| 0 <= i < found.len() implies
            #[trigger] found[i] <= 2 * self.n_states && self.is_return_time(found[i] as int) by {
            if i < st.found.len() {
                assert(found[i] == st.found[i]);
            }
        }
        assert forall|m: int| 0 <= m < noted.stack.len() implies {
            let (s2, d2) = #[trigger] noted.stack[m];
            &&& d2 <= 2 * self.n_states
            &&& (s2 < self.n_states || s2 == 0)
            &&& self.walk_of_length(s2 as int, d2 as int)
        } by {
            assert(noted.stack[m] == st.stack[m]);
        }
        assert(self.search_sound(noted));
        self.lemma_expand_sound(noted, s as int, d as int, self.n_states as nat);
    }

    proof fn lemma_search_sound(self, st: SearchState)
        requires
            self.wf(),
            2 * self.n_states < usize::MAX,
            st.seen.len() == self.n_states,
            self.search_sound(st),
        ensures
            self.search_sound(self.search(st)),
        decreases count_unseen(st.seen), st.stack.len(),
    {
        if st.stack.len() > 0 {
            self.lemma_step_progress(st);
            self.lemma_step_sound(st);
            self.lemma_search_sound(self.search_step(st));
        }
    }

    /// Every return time that the search collects is a genuine return time to
    /// state 0 of at most 2n steps.
    pub proof fn law_return_times_sound(self)
        requires
            self.wf(),
            2 * self.n_states < usize::MAX,
        ensures
            forall|i: int| 0 <= i < self.collected_return_times().len() ==>
                #[trigger] self.collected_return_times()[i] <= 2 * self.n_states
                && self.is_return_time(self.collected_return_times()[i] as int),
    {
        let st = self.search_start();
        assert(st.stack[0] == (0usize, 0usize));
        assert(self.search_sound(st));
        self.lemma_search_sound(st);
    }

    /// The pair (j, d) is marked seen.
    pub open spec fn seen_pair(st: SearchState, j: usize, d: usize) -> bool {
        &&& j < st.seen.len()
        &&& d < st.seen[j as int].len()
        &&& st.seen[j as int][d as int]
    }

    /// The pair (j, d) has been fully expanded: a return after d steps is
    /// recorded, and every successor pair within the horizon is seen.
    pub open spec fn expanded(self, st: SearchState, j: usize, d: usize) -> bool {
        &&& (j == 0 && d > 0 ==> st.found.contains(d))
        &&& forall|k: usize| k < self.n_states && #[trigger] self.has_edge(j as int, k as int)
            && d + 1 <= 2 * self.n_states ==> Self::seen_pair(st, k, (d + 1) as usize)
    }

    /// The matrix of flags has n rows of 2n + 1 flags.
    pub open spec fn seen_shaped(self, st: SearchState) -> bool {
        &&& st.seen.len() == self.n_states
        &&& forall|j: int| 0 <= j < self.n_states ==> #[trigger] st.seen[j].len() == 2 * self.n_states + 1
    }

    /// Nothing is lost: every seen pair, and the start pair (0, 0), is either
    /// still on the stack or already expanded.
    pub open spec fn search_complete(self, st: SearchState) -> bool {
        &&& self.seen_shaped(st)
        &&& forall|j: usize, d: usize| #[trigger] Self::seen_pair(st, j, d) ==>
            st.stack.contains((j, d)) || self.expanded(st, j, d)
        &&& st.stack.contains((0usize, 0usize)) || self.expanded(st, 0, 0)
    }

    proof fn lemma_expanded_monotone(self, st1: SearchState, st2: SearchState, j: usize, d: usize)
        requires
            self.expanded(st1, j, d),
            forall|a: usize, b: usize| #[trigger] Self::seen_pair(st1, a, b) ==> Self::seen_pair(st2, a, b),
            forall|t: usize| st1.found.contains(t) ==> #[trigger] st2.found.contains(t),
        ensures
            self.expanded(st2, j, d),
    {
        assert forall|k: usize| k < self.n_states && #[trigger] self.has_edge(j as int, k as int)
            && d + 1 <= 2 * self.n_states implies Self::seen_pair(st2, k, (d + 1) as usize) by {
            assert(Self::seen_pair(st1, k, (d + 1) as usize));
        }
    }

    proof fn lemma_expand_complete(self, st: SearchState, s: usize, d: usize, j: nat)
        requires
            self.seen_shaped(st),
            j <= self.n_states,
            d <= 2 * self.n_states,
            2 * self.n_states < usize::MAX,
        ensures
            ({
                let r = self.expand(st, s as int, d as int, j);
                &&& self.seen_shaped(r)
                &&& r.found == st.found
                &&& forall|a: usize, b: usize| #[trigger] Self::seen_pair(st, a, b) ==> Self::seen_pair(r, a, b)
                &&& r.stack.len() >= st.stack.len()
                &&& forall|m: int| 0 <= m < st.stack.len() ==> #[trigger] r.stack[m] == st.stack[m]
                &&& forall|a: usize, b: usize| #[trigger] Self::seen_pair(r, a, b) && !Self::seen_pair(st, a, b)
                    ==> r.stack.contains((a, b))
                &&& forall|k: usize| k < j && #[trigger] self.has_edge(s as int, k as int) && d + 1 <= 2 * self.n_states
                    ==> Self::seen_pair(r, k, (d + 1) as usize)
            }),
        decreases j,
    {
        if j > 0 {
            self.lemma_expand_complete(st, s, d, (j - 1) as nat);
            let prev = self.expand(st, s as int, d as int, (j - 1) as nat);
            let r = self.expand(st, s as int, d as int, j);
            let k0 = (j - 1) as usize;
            let d1 = (d + 1) as usize;
            if self.has_edge(s as int, j - 1) && self.can_visit(prev, j - 1, d + 1) {
                assert(r == Self::visit(prev, j - 1, d + 1));
                assert(r.stack.last() == (k0, d1));
                assert forall|a: usize, b: usize| #[trigger] Self::seen_pair(prev, a, b) implies Self::seen_pair(r, a, b) by {
                    if a == k0 {
                        assert(r.seen[a as int] == prev.seen[a as int].update(d + 1, true));
                    }
                }
                assert forall|a: usize, b: usize| #[trigger] Self::seen_pair(r, a, b) && !Self::seen_pair(st, a, b)
                    implies r.stack.contains((a, b)) by {
                    if a == k0 && b == d1 {
                        assert(r.stack[r.stack.len() - 1] == (a, b));
                    } else {
                        if a == k0 {
                            assert(r.seen[a as int][b as int] == prev.seen[a as int][b as int]);
                        }
                        assert(Self::seen_pair(prev, a, b));
                        let m = choose|m: int| 0 <= m < prev.stack.len() && prev.stack[m] == (a, b);
                        assert(r.stack[m] == (a, b));
                    }
                }
                assert forall|j2: int| 0 <= j2 < self.n_states implies #[trigger] r.seen[j2].len() == 2 * self.n_states + 1 by {
                    if j2 == j - 1 {
                    } else {
                        assert(r.seen[j2] == prev.seen[j2]);
                    }
                }
                assert forall|k: usize| k < j && #[trigger] self.has_edge(s as int, k as int) && d + 1 <= 2 * self.n_states
                    implies Self::seen_pair(r, k, (d + 1) as usize) by {
                    if k < j - 1 {
                        assert(Self::seen_pair(prev, k, (d + 1) as usize));
                    }
                }
            } else {
                assert forall|k: usize| k < j && #[trigger] self.has_edge(s as int, k as int) && d + 1 <= 2 * self.n_states
                    implies Self::seen_pair(r, k, (d + 1) as usize) by {
                    if k == j - 1 {
                        assert(prev.seen[k as int].len() == 2 * self.n_states + 1);
                    }
                }
            }
        }
    }

    proof fn lemma_step_complete(self, st: SearchState)
        requires
            self.wf(),
            2 * self.n_states < usize::MAX,
            st.stack.len() > 0,
            self.search_complete(st),
            self.search_sound(st),
        ensures
            self.search_complete(self.search_step(st)),
            forall|t: usize| st.found.contains(t) ==> #[trigger] self.search_step(st).found.contains(t),
    {
        let (s, d) = st.stack.last();
        let top = st.stack[st.stack.len() - 1];
        assert(top == (s, d));
        let found = if s == 0 && d > 0 {
            st.found.push(d)
        } else {
            st.found
        };
        let noted = SearchState { stack: st.stack.drop_last(), seen: st.seen, found };
        let r = self.search_step(st);
        assert(r == self.expand(noted, s as int, d as int, self.n_states as nat));
        self.lemma_expand_complete(noted, s, d, self.n_states as nat);
        assert forall|t: usize| st.found.contains(t) implies #[trigger] r.found.contains(t) by {
            let i = choose|i: int| 0 <= i < st.found.len() && st.found[i] == t;
            assert(found[i] == t);
        }
        assert forall|a: usize, b: usize| #[trigger] Self::seen_pair(st, a, b) implies Self::seen_pair(r, a, b) by {
            assert(Self::seen_pair(noted, a, b));
        }
        // the popped pair is now expanded
        assert(self.expanded(r, s, d)) by {
            if s == 0 && d > 0 {
                assert(found[found.len() - 1] == d);
                assert(r.found.contains(d));
            }
        }
        assert forall|j: usize, dd: usize| #[trigger] Self::seen_pair(r, j, dd) implies
            r.stack.contains((j, dd)) || self.expanded(r, j, dd) by {
            if Self::seen_pair(noted, j, dd) {
                assert(Self::seen_pair(st, j, dd));
                if st.stack.contains((j, dd)) {
                    let m = choose|m: int| 0 <= m < st.stack.len() && st.stack[m] == (j, dd);
                    if m < st.stack.len() - 1 {
                        assert(noted.stack[m] == (j, dd));
                        assert(r.stack[m] == (j, dd));
                    }
                } else {
                    self.lemma_expanded_monotone(st, r, j, dd);
                }
            }
        }
        if st.stack.contains((0usize, 0usize)) {
            let m = choose|m: int| 0 <= m < st.stack.len() && st.stack[m] == (0usize, 0usize);
            if m < st.stack.len() - 1 {
                assert(noted.stack[m] == (0usize, 0usize));
                assert(r.stack[m] == (0usize, 0usize));
            }
        } else {
            self.lemma_expanded_monotone(st, r, 0, 0);
        }
    }

    proof fn lemma_search_complete(self, st: SearchState)
        requires
            self.wf(),
            2 * self.n_states < usize::MAX,
            self.search_complete(st),
            self.search_sound(st),
        ensures
            self.search(st).stack.len() == 0,
            self.search_complete(self.search(st)),
        decreases count_unseen(st.seen), st.stack.len(),
    {
        if st.stack.len() > 0 {
            self.lemma_step_progress(st);
            self.lemma_step_complete(st);
            self.lemma_step_sound(st);
            self.lemma_search_complete(self.search_step(st));
        }
    }

    proof fn lemma_walks_seen(self, st: SearchState, j: usize, d: usize)
        requires
            self.search_complete(st),
            st.stack.len() == 0,
            1 <= d <= 2 * self.n_states,
            j < self.n_states,
            self.walk_of_length(j as int, d as int),
        ensures
            Self::seen_pair(st, j, d),
        decreases d,
    {
        let p = choose|p: Seq<int>| #[trigger] self.walk_between(p, 0, j as int) && p.len() == d + 1;
        assert(self.edge_at(p, d - 1));
        let s = p[d - 1];
        assert(0 <= s < self.n_states);
        if d == 1 {
            assert(s == 0);
            assert(self.expanded(st, 0, 0));
            assert(self.has_edge(0, j as int));
        } else {
            let q = p.take(d as int);
            assert forall|m: int| 0 <= m < q.len() - 1 implies #[trigger] self.edge_at(q, m) by {
                assert(self.edge_at(p, m));
            }
            assert(self.walk_between(q, 0, s));
            assert(self.walk_of_length(s, (d - 1) as int));
            self.lemma_walks_seen(st, s as usize, (d - 1) as usize);
            assert(self.expanded(st, s as usize, (d - 1) as usize));
            assert(self.has_edge(s as usize as int, j as int));
        }
    }

    /// The search finds every return time to state 0 of at most 2n steps.
    pub proof fn law_return_times_complete(self)
        requires
            self.wf(),
            2 * self.n_states < usize::MAX,
        ensures
            forall|t: int| 1 <= t <= 2 * self.n_states && #[trigger] self.is_return_time(t) ==>
                self.collected_return_times().contains(t as usize),
    {
        let st = self.search_start();
        assert(st.stack[0] == (0usize, 0usize));
        assert(self.search_sound(st));
        assert(self.search_complete(st)) by {
            assert(st.stack.contains((0usize, 0usize)));
            assert forall|j: usize, d: usize| #[trigger] Self::seen_pair(st, j, d) implies
                st.stack.contains((j, d)) || self.expanded(st, j, d) by {
            }
        }
        self.lemma_search_complete(st);
        let fin = self.search(st);
        assert forall|t: int| 1 <= t <= 2 * self.n_states && #[trigger] self.is_return_time(t) implies
            self.collected_return_times().contains(t as usize) by {
            let p = choose|p: Seq<int>| #[trigger] self.walk_between(p, 0, 0) && p.len() == t + 1;
            assert(0 <= p[0] < self.n_states);
            self.lemma_walks_seen(fin, 0, t as usize);
            assert(self.expanded(fin, 0, t as usize));
        }
    }

    /// No pair is on the stack twice, every pair pushed (after at least one
    /// step) is marked seen, each recorded return time belongs to a seen pair
    /// that has left the stack, and no return time is recorded twice.
    pub open spec fn search_distinct(self, st: SearchState) -> bool {
        &&& st.stack.no_duplicates()
        &&& forall|m: int| 0 <= m < st.stack.len() && (#[trigger] st.stack[m]).1 > 0 ==>
            Self::seen_pair(st, st.stack[m].0, st.stack[m].1)
        &&& forall|i: int| 0 <= i < st.found.len() ==>
            Self::seen_pair(st, 0, #[trigger] st.found[i]) && !st.stack.contains((0usize, st.found[i]))
        &&& st.found.no_duplicates()
    }

    proof fn lemma_expand_distinct(self, st: SearchState, s: usize, d: usize, j: nat)
        requires
            self.seen_shaped(st),
            self.search_distinct(st),
            j <= self.n_states,
            d <= 2 * self.n_states,
            2 * self.n_states < usize::MAX,
        ensures
            self.search_distinct(self.expand(st, s as int, d as int, j)),
        decreases j,
    {
        if j > 0 {
            self.lemma_expand_distinct(st, s, d, (j - 1) as nat);
            self.lemma_expand_complete(st, s, d, (j - 1) as nat);
            let prev = self.expand(st, s as int, d as int, (j - 1) as nat);
            let k0 = (j - 1) as usize;
            let d1 = (d + 1) as usize;
            if self.has_edge(s as int, j - 1) && self.can_visit(prev, j - 1, d + 1) {
                let r = Self::visit(prev, j - 1, d + 1);
                assert(!prev.stack.contains((k0, d1))) by {
                    if prev.stack.contains((k0, d1)) {
                        let m = choose|m: int| 0 <= m < prev.stack.len() && prev.stack[m] == (k0, d1);
                        assert(Self::seen_pair(prev, prev.stack[m].0, prev.stack[m].1));
                    }
                }
                assert forall|a: usize, b: usize| #[trigger] Self::seen_pair(prev, a, b) implies Self::seen_pair(r, a, b) by {
                    if a == k0 {
                        assert(r.seen[a as int] == prev.seen[a as int].update(d + 1, true));
                    }
                }
                assert(r.stack.no_duplicates()) by {
                    assert forall|x: int, y: int| 0 <= x < r.stack.len() && 0 <= y < r.stack.len() && x != y
                        implies r.stack[x] != r.stack[y] by {
                        if x == prev.stack.len() as int {
                            assert(prev.stack.contains(r.stack[y]) || y == x);
                        } else if y == prev.stack.len() as int {
                            assert(prev.stack.contains(r.stack[x]));
                        } else {
                            assert(r.stack[x] == prev.stack[x] && r.stack[y] == prev.stack[y]);
                        }
                    }
                }
                assert forall|m: int| 0 <= m < r.stack.len() && (#[trigger] r.stack[m]).1 > 0 implies
                    Self::seen_pair(r, r.stack[m].0, r.stack[m].1) by {
                    if m < prev.stack.len() {
                        assert(r.stack[m] == prev.stack[m]);
                        assert(Self::seen_pair(prev, prev.stack[m].0, prev.stack[m].1));
                    } else {
                        assert(r.stack[m] == (k0, d1));
                        assert(r.seen[j - 1] == prev.seen[j - 1].update(d + 1, true));
                    }
                }
                assert forall|i: int| 0 <= i < r.found.len() implies
                    Self::seen_pair(r, 0, #[trigger] r.found[i]) && !r.stack.contains((0usize, r.found[i])) by {
                    let f = prev.found[i];
                    assert(Self::seen_pair(prev, 0, f));
                    if r.stack.contains((0usize, f)) {
                        let m = choose|m: int| 0 <= m < r.stack.len() && r.stack[m] == (0usize, f);
                        if m < prev.stack.len() {
                            assert(prev.stack[m] == (0usize, f));
                        } else {
                            assert((k0, d1) == (0usize, f));
                        }
                    }
                }
            }
        }
    }

    proof fn lemma_step_distinct(self, st: SearchState)
        requires
            self.wf(),
            2 * self.n_states < usize::MAX,
            st.stack.len() > 0,
            self.seen_shaped(st),
            self.search_sound(st),
            self.search_distinct(st),
        ensures
            self.search_distinct(self.search_step(st)),
            self.seen_shaped(self.search_step(st)),
    {
        let (s, d) = st.stack.last();
        let last = st.stack.len() - 1;
        assert(st.stack[last] == (s, d));
        assert(st.stack[last].1 <= 2 * self.n_states);
        let found = if s == 0 && d > 0 {
            st.found.push(d)
        } else {
            st.found
        };
        let noted = SearchState { stack: st.stack.drop_last(), seen: st.seen, found };
        assert(noted.stack.no_duplicates()) by {
            assert forall|x: int, y: int| 0 <= x < noted.stack.len() && 0 <= y < noted.stack.len() && x != y
                implies noted.stack[x] != noted.stack[y] by {
                assert(noted.stack[x] == st.stack[x] && noted.stack[y] == st.stack[y]);
            }
        }
        assert forall|m: int| 0 <= m < noted.stack.len() && (#[trigger] noted.stack[m]).1 > 0 implies
            Self::seen_pair(noted, noted.stack[m].0, noted.stack[m].1) by {
            assert(noted.stack[m] == st.stack[m]);
        }
        assert forall|i: int| 0 <= i < found.len() implies
            Self::seen_pair(noted, 0, #[trigger] found[i]) && !noted.stack.contains((0usize, found[i])) by {
            if i < st.found.len() {
                assert(found[i] == st.found[i]);
                if noted.stack.contains((0usize, found[i])) {
                    let m = choose|m: int| 0 <= m < noted.stack.len() && noted.stack[m] == (0usize, found[i]);
                    assert(st.stack[m] == (0usize, found[i]));
                }
            } else {
                assert(found[i] == d && s == 0);
                assert(Self::seen_pair(st, st.stack[last].0, st.stack[last].1));
                if noted.stack.contains((0usize, d)) {
                    let m = choose|m: int| 0 <= m < noted.stack.len() && noted.stack[m] == (0usize, d);
                    assert(st.stack[m] == st.stack[last]);
                }
            }
        }
        assert(found.no_duplicates()) by {
            if s == 0 && d > 0 {
                assert forall|x: int, y: int| 0 <= x < found.len() && 0 <= y < found.len() && x != y
                    implies found[x] != found[y] by {
                    if x == st.found.len() as int || y == st.found.len() as int {
                        let other = if x == st.found.len() as int { y } else { x };
                        assert(found[other] == st.found[other]);
                        assert(!st.stack.contains((0usize, st.found[other])));
                        assert(st.stack[last] == (0usize, d));
                    } else {
                        assert(found[x] == st.found[x] && found[y] == st.found[y]);
                    }
                }
            }
        }
        assert(self.search_distinct(noted));
        self.lemma_expand_distinct(noted, s, d, self.n_states as nat);
        self.lemma_expand_complete(noted, s, d, self.n_states as nat);
    }

    proof fn lemma_search_distinct(self, st: SearchState)
        requires
            self.wf(),
            2 * self.n_states < usize::MAX,
            self.seen_shaped(st),
            self.search_sound(st),
            self.search_distinct(st),
        ensures
            self.search_distinct(self.search(st)),
        decreases count_unseen(st.seen), st.stack.len(),
    {
        if st.stack.len() > 0 {
            self.lemma_step_progress(st);
            self.lemma_step_distinct(st);
            self.lemma_step_sound(st);
            self.lemma_search_distinct(self.search_step(st));
        }
    }

    /// The search records each return time at most once.
    pub proof fn law_return_times_distinct(self)
        requires
            self.wf(),
            2 * self.n_states < usize::MAX,
        ensures
            self.collected_return_times().no_duplicates(),
    {
        let st = self.search_start();
        assert(st.stack[0] == (0usize, 0usize));
        assert(self.search_sound(st));
        assert(self.seen_shaped(st));
        assert(self.search_distinct(st));
        self.lemma_search_distinct(st);
    }

    /// A number divides every return time that the search collects exactly
    /// when it divides every return time to state 0 of at most 2n steps.
    pub proof fn law_collected_times_decide_divisors(self, d: nat)
        requires
            self.wf(),
            2 * self.n_states < usize::MAX,
        ensures
            divides_all(d, self.collected_return_times())
                == self.divides_return_times(d, 2 * self.n_states),
    {
        self.law_return_times_sound();
        self.law_return_times_complete();
        let rt = self.collected_return_times();
        if divides_all(d, rt) {
            assert forall|t: int| 1 <= t <= 2 * self.n_states && #[trigger] self.is_return_time(t)
                implies divides(d, t as nat) by {
                let i = choose|i: int| 0 <= i < rt.len() && rt[i] == t as usize;
                assert(divides(d, rt[i] as nat));
            }
        }
        if self.divides_return_times(d, 2 * self.n_states) {
            assert forall|i: int| 0 <= i < rt.len() implies #[trigger] divides(d, rt[i] as nat) by {
                assert(self.is_return_time(rt[i] as int));
            }
        }
    }

    /// Transitive closure by Warshall's algorithm: entry (i, j) holds exactly
    /// when j is reachable from i.
    fn transitive_closure(&self) -> (reach: Vec<Vec<bool>>)
        requires
            self.wf(),
        ensures
            reach.len() == self.n_states,
            forall|i: int| 0 <= i < self.n_states ==> #[trigger] reach@[i].len() == self.n_states,
            forall|i: int, j: int| 0 <= i < self.n_states && 0 <= j < self.n_states ==>
                reach@[i]@[j] == self.reachable(i, j),
    {
        let n = self.n_states;
        let mut reach: Vec<Vec<bool>> = Vec::new();
        let mut i: usize = 0;
        while i < n
            invariant
                i <= n,
                n == self.n_states,
                self.wf(),
                reach.len() == i,
                forall|a: int| 0 <= a < i ==> #[trigger] reach@[a].len() == n,
                forall|a: int, b: int| 0 <= a < i && 0 <= b < n ==> reach@[a]@[b] == self.has_edge(a, b),
            decreases n - i,
        {
            let mut row: Vec<bool> = Vec::new();
            let mut j: usize = 0;
            while j < n
                invariant
                    j <= n,
                    i < n,
                    n == self.n_states,
                    self.wf(),
                    row.len() == j,
                    forall|b: int| 0 <= b < j ==> row@[b] == self.has_edge(i as int, b),
                decreases n - j,
            {
                assert(self.edges@[i as int].len() >= n);
                row.push(self.edges[i][j]);
                j = j + 1;
            }
            reach.push(row);
            i = i + 1;
        }
        assert forall|a: int, b: int| 0 <= a < n && 0 <= b < n implies
            reach@[a]@[b] == self.reachable_within(a, b, 0) by {
            self.lemma_within_zero(a, b);
        }
        let mut k: usize = 0;
        while k < n
            invariant
                k <= n,
                n == self.n_states,
                reach.len() == n,
                forall|a: int| 0 <= a < n ==> #[trigger] reach@[a].len() == n,
                forall|a: int, b: int| 0 <= a < n && 0 <= b < n ==>
                    reach@[a]@[b] == self.reachable_within(a, b, k as int),
            decreases n - k,
        {
            let mut i: usize = 0;
            while i < n
                invariant
                    i <= n,
                    k < n,
                    n == self.n_states,
                    reach.len() == n,
                    forall|a: int| 0 <= a < n ==> #[trigger] reach@[a].len() == n,
                    forall|a: int, b: int| 0 <= a < i && 0 <= b < n ==>
                        reach@[a]@[b] == self.reachable_within(a, b, k + 1),
                    forall|a: int, b: int| i <= a < n && 0 <= b < n ==>
                        reach@[a]@[b] == self.reachable_within(a, b, k as int),
                decreases n - i,
            {
                let mut j: usize = 0;
                while j < n
                    invariant
                        j <= n,
                        i < n,
                        k < n,
                        n == self.n_states,
                        reach.len() == n,
                        forall|a: int| 0 <= a < n ==> #[trigger] reach@[a].len() == n,
                        forall|a: int, b: int| 0 <= a < i && 0 <= b < n ==>
                            reach@[a]@[b] == self.reachable_within(a, b, k + 1),
                        forall|a: int, b: int| i < a < n && 0 <= b < n ==>
                            reach@[a]@[b] == self.reachable_within(a, b, k as int),
                        forall|b: int| 0 <= b < j ==>
                            reach@[i as int]@[b] == self.reachable_within(i as int, b, k + 1),
                        forall|b: int| j <= b < n ==>
                            reach@[i as int]@[b] == self.reachable_within(i as int, b, k as int),
                    decreases n - j,
                {
                    proof {
                        self.lemma_within_step(i as int, k as int, k as int);
                        self.lemma_within_step(k as int, j as int, k as int);
                        self.lemma_within_step(i as int, j as int, k as int);
                    }
                    assert(reach@[i as int].len() == n && reach@[k as int].len() == n);
                    let v = reach[i][j] || (reach[i][k] && reach[k][j]);
                    reach[i].set(j, v);
                    j = j + 1;
                }
                i = i + 1;
            }
            k = k + 1;
        }
        assert forall|a: int, b: int| 0 <= a < n && 0 <= b < n implies
            reach@[a]@[b] == self.reachable(a, b) by {
            self.lemma_within_all(a, b);
        }
        reach
    }

    /// The support of the symmetric random walk on a ring of `n` states:
    /// from state i the walk steps to (i + 1) mod n or to (i + n - 1) mod n.
    pub fn symmetric_ring(n: usize) -> (g: Self)
        requires
            2 * n <= usize::MAX + 2,
        ensures
            g.n_states == n,
            g.wf(),
            is_ring(g, n as nat),
            g.edges.len() == n,
            forall|i: int| 0 <= i < n ==> #[trigger] g.edges@[i].len() == n,
            forall|i: int, j: int| 0 <= i < n && 0 <= j < n ==>
                #[trigger] g.has_edge(i, j) == (j == (i + 1) % (n as int) || j == (i + n - 1) % (n as int)),
    {
        let mut edges: Vec<Vec<bool>> = Vec::new();
        let mut i: usize = 0;
        while i < n
            invariant
                i <= n,
                2 * n <= usize::MAX + 2,
                edges.len() == i,
                forall|a: int| 0 <= a < i ==> #[trigger] edges@[a].len() == n,
                forall|a: int, b: int| 0 <= a < i && 0 <= b < n ==>
                    edges@[a]@[b] == (b == (a + 1) % (n as int) || b == (a + n - 1) % (n as int)),
            decreases n - i,
        {
            let next = (i + 1) % n;
            let prev = (i + n - 1) % n;
            let mut row: Vec<bool> = Vec::new();
            let mut j: usize = 0;
            while j < n
                invariant
                    j <= n,
                    row.len() == j,
                    forall|b: int| 0 <= b < j ==> row@[b] == (b == next || b == prev),
                decreases n - j,
            {
                row.push(j == next || j == prev);
                j = j + 1;
            }
            edges.push(row);
            i = i + 1;
        }
        TransitionGraph { n_states: n, edges }
    }

    /// Check if the chain is irreducible (every state reachable from every other).
    pub fn is_irreducible(&self) -> (r: bool)
        requires
            self.wf(),
        ensures
            r == self.irreducible(),
    {
        let n = self.n_states;
        let reach = self.transitive_closure();
        let mut i: usize = 0;
        while i < n
            invariant
                i <= n,
                n == self.n_states,
                reach.len() == n,
                forall|a: int| 0 <= a < n ==> #[trigger] reach@[a].len() == n,
                forall|a: int, b: int| 0 <= a < n && 0 <= b < n ==> reach@[a]@[b] == self.reachable(a, b),
                forall|a: int, b: int| 0 <= a < i && 0 <= b < n ==> self.reachable(a, b),
            decreases n - i,
        {
            let mut j: usize = 0;
            while j < n
                invariant
                    j <= n,
                    i < n,
                    n == self.n_states,
                    reach.len() == n,
                    forall|a: int| 0 <= a < n ==> #[trigger] reach@[a].len() == n,
                    forall|a: int, b: int| 0 <= a < n && 0 <= b < n ==> reach@[a]@[b] == self.reachable(a, b),
                    forall|a: int, b: int| 0 <= a < i && 0 <= b < n ==> self.reachable(a, b),
                    forall|b: int| 0 <= b < j ==> self.reachable(i as int, b),
                decreases n - j,
            {
                assert(reach@[i as int].len() == n);
                if !reach[i][j] {
                    assert(!self.reachable(i as int, j as int));
                    return false;
                }
                j = j + 1;
            }
            i = i + 1;
        }
        true
    }

    /// Check if the Markov chain is ergodic (irreducible and aperiodic): every
    /// state reaches every state, and 1 is the only common divisor of the
    /// return times to state 0. Return times up to 2n steps decide the period
    /// (see `law_period_horizon`); the search collects all of them.
    pub fn is_ergodic(&self) -> (r: bool)
        requires
            self.wf(),
            2 * self.n_states < usize::MAX,
        ensures
            r == (self.irreducible() && self.aperiodic_within(2 * self.n_states)),
            r == (self.irreducible() && self.aperiodic()),
    {
        proof {
            self.law_period_horizon();
        }
        if !self.is_irreducible() {
            return false;
        }
        let n = self.n_states;
        let horizon = 2 * n;
        let mut seen: Vec<Vec<bool>> = Vec::new();
        let mut i: usize = 0;
        while i < n
            invariant
                i <= n,
                horizon == 2 * n,
                2 * n < usize::MAX,
                seen.len() == i,
                forall|a: int| 0 <= a < i ==> #[trigger] seen@[a]@ == Seq::new((horizon + 1) as nat, |t: int| false),
            decreases n - i,
        {
            let mut row: Vec<bool> = Vec::new();
            let mut t: usize = 0;
            while t <= horizon
                invariant
                    t <= horizon + 1,
                    horizon == 2 * n,
                    2 * n < usize::MAX,
                    row@ == Seq::new(t as nat, |u: int| false),
                decreases horizon + 1 - t,
            {
                row.push(false);
                t = t + 1;
                assert(row@ =~= Seq::new(t as nat, |u: int| false));
            }
            seen.push(row);
            i = i + 1;
        }
        let mut stack: Vec<(usize, usize)> = Vec::new();
        stack.push((0, 0));
        let mut found: Vec<usize> = Vec::new();
        let ghost start = self.search_start();
        proof {
            assert(rows_view(seen@) =~= start.seen);
            assert(stack@ =~= start.stack);
            assert(found@ =~= start.found);
        }
        loop
            invariant
                self.wf(),
                n == self.n_states,
                horizon == 2 * n,
                2 * n < usize::MAX,
                seen.len() == n,
                forall|a: int| 0 <= a < n ==> #[trigger] seen@[a].len() == horizon + 1,
                forall|m: int| 0 <= m < stack.len() ==> (#[trigger] stack@[m].0 < n || n == 0) && stack@[m].1 <= horizon,
                self.search(search_state(stack@, seen@, found@))
                    == self.search(start),
            ensures
                found@ == self.search(start).found,
            decreases count_unseen(rows_view(seen@)), stack.len(),
        {
            let ghost cur = search_state(stack@, seen@, found@);
            match stack.pop() {
                None => {
                    break;
                },
                Some(top) => {
                    let (s, d) = top;
                    proof {
                        assert(top == cur.stack.last());
                        self.lemma_step_progress(cur);
                    }
                    if s == 0 && d > 0 {
                        found.push(d);
                    }
                    let ghost noted = search_state(stack@, seen@, found@);
                    let mut j: usize = 0;
                    while j < n
                        invariant
                            j <= n,
                            self.wf(),
                            n == self.n_states,
                            horizon == 2 * n,
                            2 * n < usize::MAX,
                            s < n || n == 0,
                            d <= horizon,
                            seen.len() == n,
                            forall|a: int| 0 <= a < n ==> #[trigger] seen@[a].len() == horizon + 1,
                            forall|m: int| 0 <= m < stack.len() ==> (#[trigger] stack@[m].0 < n || n == 0) && stack@[m].1 <= horizon,
                            search_state(stack@, seen@, found@)
                                == self.expand(noted, s as int, d as int, j as nat),
                        decreases n - j,
                    {
                        let ghost before = search_state(stack@, seen@, found@);
                        assert(self.edges@[s as int].len() >= n);
                        assert(seen@[j as int].len() == horizon + 1);
                        if self.edges[s][j] && d + 1 <= horizon && !seen[j][d + 1] {
                            let ghost old_seen = seen@;
                            seen[j].set(d + 1, true);
                            stack.push((j, d + 1));
                            assert forall|a: int| 0 <= a < n implies #[trigger] seen@[a].len() == horizon + 1 by {
                                if a != j {
                                    assert(seen@[a] == old_seen[a]);
                                }
                            }
                            assert(rows_view(seen@) =~= before.seen.update(j as int, before.seen[j as int].update(d + 1, true)));
                        }
                        j = j + 1;
                    }
                    assert(search_state(stack@, seen@, found@) == self.search_step(cur));
                },
            }
        }
        proof {
            assert forall|e: nat| #[trigger] divides_all(e, found@)
                == self.divides_return_times(e, 2 * self.n_states) by {
                self.law_collected_times_decide_divisors(e);
            }
        }
        if found.len() == 0 {
            assert(divides_all(2, found@));
            assert(self.divides_return_times(2, 2 * self.n_states));
            return false;
        }
        let mut g = found[0];
        let mut k: usize = 0;
        while k < found.len()
            invariant
                k <= found.len(),
                found.len() > 0,
                forall|e: nat| #[trigger] divides(e, g as nat) <==> (divides(e, found@[0] as nat) && forall|t: int| 0 <= t < k ==> divides(e, found@[t] as nat)),
            decreases found.len() - k,
        {
            let g2 = gcd(g, found[k]);
            assert forall|e: nat| #[trigger] divides(e, g2 as nat) <==> (divides(e, found@[0] as nat) && forall|t: int| 0 <= t < k + 1 ==> divides(e, found@[t] as nat)) by {
                if divides(e, g2 as nat) {
                    lemma_divides_transitive(e, g2 as nat, g as nat);
                    lemma_divides_transitive(e, g2 as nat, found@[k as int] as nat);
                }
                if divides(e, found@[0] as nat) && forall|t: int| 0 <= t < k + 1 ==> divides(e, found@[t] as nat) {
                    assert(divides(e, found@[k as int] as nat));
                    assert(common_divisor(e, g as nat, found@[k as int] as nat));
                }
            }
            g = g2;
            k = k + 1;
        }
        proof {
            assert forall|e: nat| divides_all(e, found@) <==> #[trigger] divides(e, g as nat) by {
                if divides_all(e, found@) {
                    assert(divides(e, found@[0] as nat));
                }
            }
            lemma_divides_self(g as nat);
            if g != 1 {
                assert(divides_all(g as nat, found@));
                assert(self.divides_return_times(g as nat, 2 * self.n_states));
            } else {
                assert forall|e: nat| #[trigger] self.divides_return_times(e, 2 * self.n_states) implies e == 1 by {
                    assert(divides_all(e, found@));
                    assert(divides(e, 1));
                    if e > 1 {
                        lemma_small_mod(1, e);
                    }
                }
            }
        }
        g == 1
    }
}

/// `a` is known to be greater than `b`; an absent key compares with nothing.
pub open spec fn key_greater(a: Option<u64>, b: Option<u64>) -> bool {
    match (a, b) {
        (Some(x), Some(y)) => x > y,
        _ => false,
    }
}

/// The index that a left-to-right maximum search over `row[0..=k]` ends on:
/// a later entry replaces the current one unless the current one is greater,
/// so among equal (or incomparable) entries the last one wins.
pub open spec fn last_max_index(row: Seq<Option<u64>>, k: nat) -> nat
    decreases k,
{
    if k == 0 {
        0
    } else {
        let a = last_max_index(row, (k - 1) as nat);
        if key_greater(row[a as int], row[k as int]) {
            a
        } else {
            k
        }
    }
}

/// The most likely successor of state `i` whose row of order keys is `row`
/// (state `i` itself when the row is empty).
pub open spec fn likeliest_successor(row: Seq<Option<u64>>, i: nat) -> nat {
    if row.len() == 0 {
        i
    } else {
        last_max_index(row, (row.len() - 1) as nat)
    }
}

/// Map each state to its most likely successor.
///
/// `order_keys[i][j]` stands for the transition probability P(i, j): keys
/// are ordered as the probabilities are, and an absent key marks an entry
/// that compares with nothing.
pub fn to_deterministic_map(order_keys: &Vec<Vec<Option<u64>>>) -> (map: Vec<usize>)
    ensures
        map.len() == order_keys.len(),
        forall|i: int| 0 <= i < order_keys.len() ==>
            #[trigger] map@[i] == likeliest_successor(order_keys@[i]@, i as nat),
{
    let mut map: Vec<usize> = Vec::new();
    let mut i: usize = 0;
    while i < order_keys.len()
        invariant
            i <= order_keys.len(),
            map.len() == i,
            forall|a: int| 0 <= a < i ==> #[trigger] map@[a] == likeliest_successor(order_keys@[a]@, a as nat),
        decreases order_keys.len() - i,
    {
        let row = &order_keys[i];
        if row.len() == 0 {
            map.push(i);
        } else {
            let mut best: usize = 0;
            let mut k: usize = 1;
            while k < row.len()
                invariant
                    1 <= k <= row.len(),
                    best == last_max_index(row@, (k - 1) as nat),
                    best < k,
                decreases row.len() - k,
            {
                let greater = match (row[best], row[k]) {
                    (Some(x), Some(y)) => x > y,
                    _ => false,
                };
                if !greater {
                    best = k;
                }
                k = k + 1;
            }
            map.push(best);
        }
        i = i + 1;
    }
    map
}

/// When every key is present, the most likely successor is the last index
/// holding the greatest key.
pub proof fn law_successor_is_last_maximum(row: Seq<Option<u64>>, i: nat)
    requires
        row.len() > 0,
        forall|j: int| 0 <= j < row.len() ==> #[trigger] row[j] is Some,
    ensures
        likeliest_successor(row, i) < row.len(),
        forall|j: int| 0 <= j < row.len() ==> (#[trigger] row[j])->0 <= row[likeliest_successor(row, i) as int]->0,
        forall|j: int| likeliest_successor(row, i) < j < row.len() ==>
            (#[trigger] row[j])->0 < row[likeliest_successor(row, i) as int]->0,
{
    lemma_last_max_index(row, (row.len() - 1) as nat);
}

proof fn lemma_last_max_index(row: Seq<Option<u64>>, k: nat)
    requires
        k < row.len(),
        forall|j: int| 0 <= j < row.len() ==> #[trigger] row[j] is Some,
    ensures
        last_max_index(row, k) <= k,
        forall|j: int| 0 <= j <= k ==> (#[trigger] row[j])->0 <= row[last_max_index(row, k) as int]->0,
        forall|j: int| last_max_index(row, k) < j <= k ==> (#[trigger] row[j])->0 < row[last_max_index(row, k) as int]->0,
    decreases k,
{
    if k > 0 {
        lemma_last_max_index(row, (k - 1) as nat);
        assert(row[k as int] is Some);
    }
}

/// `g` is the support of the symmetric random walk on a ring of `n` states.
pub open spec fn is_ring(g: TransitionGraph, n: nat) -> bool {
    &&& g.n_states == n
    &&& g.wf()
    &&& forall|i: int, j: int| 0 <= i < n && 0 <= j < n ==>
        #[trigger] g.has_edge(i, j) == (j == (i + 1) % (n as int) || j == (i + n - 1) % (n as int))
}

/// The walk i, i+1, ..., i+len around the ring (positions taken mod n).
pub open spec fn ring_forward(n: int, i: int, len: int) -> Seq<int> {
    Seq::new((len + 1) as nat, |m: int| (i + m) % n)
}

proof fn lemma_ring_neighbours(n: int, a: int)
    requires
        n >= 1,
        0 <= a < n,
    ensures
        (a + 1) % n == (if a + 1 < n { a + 1 } else { 0 }),
        (a + n - 1) % n == (if a >= 1 { a - 1 } else { n - 1 }),
{
    if a + 1 < n {
        lemma_small_mod((a + 1) as nat, n as nat);
    } else {
        lemma_mod_self_0(n);
    }
    if a >= 1 {
        lemma_fundamental_div_mod(a + n - 1, n);
        lemma_mod_add_multiples_vanish(a - 1, n);
        lemma_small_mod((a - 1) as nat, n as nat);
    } else {
        lemma_small_mod((n - 1) as nat, n as nat);
    }
}

proof fn lemma_ring_forward_walk(g: TransitionGraph, n: int, i: int, len: int)
    requires
        is_ring(g, n as nat),
        n >= 1,
        0 <= i < n,
        len >= 1,
    ensures
        g.walk_between(ring_forward(n, i, len), i, (i + len) % n),
{
    let p = ring_forward(n, i, len);
    assert forall|m: int| 0 <= m < p.len() implies 0 <= #[trigger] p[m] < g.n_states by {
        lemma_mod_bound(i + m, n);
    }
    assert forall|m: int| 0 <= m < p.len() - 1 implies #[trigger] g.edge_at(p, m) by {
        let a = (i + m) % n;
        lemma_mod_bound(i + m, n);
        lemma_add_mod_noop(i + m, 1, n);
        if n == 1 {
            lemma_small_mod(0, 1);
            assert(a == 0);
            assert((a + 1) % n == 0);
            lemma_mod_bound(i + m + 1, n);
        } else {
            lemma_small_mod(1, n as nat);
        }
        assert(p[m + 1] == (a + 1) % n);
        lemma_mod_bound(i + m + 1, n);
    }
    lemma_small_mod(i as nat, n as nat);
}

/// The ring of n >= 1 states is irreducible: walking forward around the ring
/// leads from every state to every state.
pub proof fn law_ring_irreducible(g: TransitionGraph, n: nat)
    requires
        is_ring(g, n),
        n >= 1,
    ensures
        g.irreducible(),
{
    let ni = n as int;
    assert forall|i: int, j: int| 0 <= i < g.n_states && 0 <= j < g.n_states implies #[trigger] g.reachable(i, j) by {
        let len = if j > i { j - i } else { j + ni - i };
        lemma_ring_forward_walk(g, ni, i, len);
        if j > i {
            lemma_small_mod(j as nat, n);
        } else {
            lemma_mod_add_multiples_vanish(j, ni);
            lemma_small_mod(j as nat, n);
        }
        assert(g.walk_between(ring_forward(ni, i, len), i, j));
    }
}

proof fn lemma_even_ring_parity(g: TransitionGraph, n: int, p: Seq<int>, m: int)
    requires
        is_ring(g, n as nat),
        n >= 2,
        n % 2 == 0,
        g.is_walk(p),
        0 <= m < p.len(),
    ensures
        p[m] % 2 == (p[0] + m) % 2,
    decreases m,
{
    if m > 0 {
        lemma_even_ring_parity(g, n, p, m - 1);
        assert(g.edge_at(p, m - 1));
        let a = p[m - 1];
        lemma_ring_neighbours(n, a);
    }
}

/// On a ring with an even number of states every return time to state 0 is
/// even (the walk has period 2), so state 0 is not aperiodic and the chain
/// is not ergodic.
pub proof fn law_even_ring_not_ergodic(g: TransitionGraph, n: nat)
    requires
        is_ring(g, n),
        n % 2 == 0,
    ensures
        forall|t: int| #[trigger] g.is_return_time(t) ==> t % 2 == 0,
        !g.aperiodic(),
        !g.aperiodic_within(2 * n as int),
{
    assert forall|t: int| #[trigger] g.is_return_time(t) implies t % 2 == 0 by {
        let p = choose|p: Seq<int>| #[trigger] g.walk_between(p, 0, 0) && p.len() == t + 1;
        if n >= 2 {
            lemma_even_ring_parity(g, n as int, p, t);
        } else {
            assert(0 <= p[0] < g.n_states);
        }
    }
    assert(g.divides_all_return_times(2));
    assert(g.divides_return_times(2, 2 * n as int));
}

/// On a ring with an odd number of states, state 0 is aperiodic (and so the
/// chain is ergodic): it returns after n steps (once around) and, for n >= 3, after 2
/// steps (there and back), and 1 is the only common divisor of these; for
/// n = 1 it returns after a single step.
pub proof fn law_odd_ring_aperiodic(g: TransitionGraph, n: nat)
    requires
        is_ring(g, n),
        n % 2 == 1,
    ensures
        g.irreducible(),
        g.aperiodic_within(2 * n as int),
        g.aperiodic(),
{
    law_ring_irreducible(g, n);
    g.law_period_horizon();
    let ni = n as int;
    lemma_ring_forward_walk(g, ni, 0, ni);
    lemma_mod_self_0(ni);
    assert(g.walk_between(ring_forward(ni, 0, ni), 0, 0));
    assert(g.is_return_time(ni));
    if n >= 3 {
        let q = seq![0int, 1int, 0int];
        lemma_ring_neighbours(ni, 0);
        lemma_ring_neighbours(ni, 1);
        assert(g.has_edge(0, 1));
        assert(g.has_edge(1, 0));
        assert(g.edge_at(q, 0));
        assert(g.edge_at(q, 1));
        assert(g.walk_between(q, 0, 0));
        assert(g.is_return_time(2));
    }
    assert forall|d: nat| #[trigger] g.divides_return_times(d, 2 * n as int) implies d == 1 by {
        assert(divides(d, n));
        if n >= 3 {
            assert(divides(d, 2));
            if d > 2 {
                lemma_small_mod(2, d);
            }
            if d == 2 {
                assert(n % 2 == 0);
            }
        } else {
            if d > 1 {
                lemma_small_mod(1, d);
            }
        }
    }
}

/// Among more than `n` numbers that all lie in `[0, n)`, two are equal.
proof fn lemma_pigeonhole(s: Seq<int>, n: int)
    requires
        0 <= n < s.len(),
        forall|m: int| 0 <= m < s.len() ==> 0 <= #[trigger] s[m] < n,
    ensures
        exists|i: int, j: int| 0 <= i < j < s.len() && #[trigger] s[i] == #[trigger] s[j],
{
    if !(exists|i: int, j: int| 0 <= i < j < s.len() && #[trigger] s[i] == #[trigger] s[j]) {
        assert forall|i: int, j: int| 0 <= i < s.len() && 0 <= j < s.len() && i != j implies s[i] != s[j] by {
            if i < j {
                assert(!(s[i] == s[j]));
            } else {
                assert(!(s[j] == s[i]));
            }
        }
        lemma_distinct_below(s, n);
    }
}

/// A common divisor of `a`, `b` and `e` divides `a + b - e`.
proof fn lemma_divides_combination(d: nat, a: nat, b: nat, e: nat)
    requires
        divides(d, a),
        divides(d, b),
        divides(d, e),
        a + b >= e,
    ensures
        divides(d, (a + b - e) as nat),
{
    if d > 0 {
        let di = d as int;
        lemma_fundamental_div_mod(a as int, di);
        lemma_fundamental_div_mod(b as int, di);
        lemma_fundamental_div_mod(e as int, di);
        let (qa, qb, qe) = (a as int / di, b as int / di, e as int / di);
        assert(a + b - e == di * (qa + qb - qe)) by {
            lemma_mul_is_distributive_add(di, qa, qb);
            lemma_mul_is_distributive_sub(di, qa + qb, qe);
        }
        lemma_mul_is_commutative(di, qa + qb - qe);
        lemma_mod_multiples_basic(qa + qb - qe, di);
    }
}

/// The walk `p` with the closed stretch from position `i` to position `j`
/// (where it visits the same state) left out.
pub open spec fn cut_loop(p: Seq<int>, i: int, j: int) -> Seq<int> {
    Seq::new((p.len() - (j - i)) as nat, |m: int| if m <= i { p[m] } else { p[m + (j - i)] })
}

impl TransitionGraph {
    proof fn lemma_cut_loop(self, p: Seq<int>, i: int, j: int)
        requires
            self.is_walk(p),
            0 <= i < j < p.len(),
            p[i] == p[j],
            p.len() - (j - i) >= 2,
        ensures
            self.is_walk(cut_loop(p, i, j)),
            cut_loop(p, i, j).len() == p.len() - (j - i),
            cut_loop(p, i, j)[0] == p[0],
            cut_loop(p, i, j).last() == p.last(),
            forall|m: int| 0 <= m <= i ==> #[trigger] cut_loop(p, i, j)[m] == p[m],
    {
        let q = cut_loop(p, i, j);
        let c = j - i;
        assert forall|m: int| 0 <= m < q.len() implies 0 <= #[trigger] q[m] < self.n_states by {
            if m <= i {
                assert(q[m] == p[m]);
            } else {
                assert(q[m] == p[m + c]);
            }
        }
        assert forall|m: int| 0 <= m < q.len() - 1 implies #[trigger] self.edge_at(q, m) by {
            if m < i {
                assert(self.edge_at(p, m));
            } else if m == i {
                assert(self.edge_at(p, j));
                assert(q[m + 1] == p[j + 1]);
            } else {
                assert(self.edge_at(p, m + c));
                assert(q[m + 1] == p[m + 1 + c]);
            }
        }
        if q.len() - 1 <= i {
            assert(j == p.len() - 1);
        }
    }

    /// A number that divides every return time to state 0 of at most 2n
    /// steps divides every return time `t`. A closed walk longer than 2n
    /// steps repeats a state among its first n + 1 positions and again among
    /// the next n + 1; leaving out either loop, or both, gives shorter closed
    /// walks of t - c, t - c' and t - c - c' steps, and d divides
    /// (t - c) + (t - c') - (t - c - c') = t.
    proof fn lemma_return_time_divisible(self, d: nat, t: int)
        requires
            self.divides_return_times(d, 2 * self.n_states),
            self.is_return_time(t),
        ensures
            divides(d, t as nat),
        decreases t,
    {
        let n = self.n_states as int;
        if t > 2 * n {
            let p = choose|p: Seq<int>| #[trigger] self.walk_between(p, 0, 0) && p.len() == t + 1;
            let s1 = p.subrange(0, n + 1);
            let s2 = p.subrange(n, 2 * n + 1);
            assert forall|m: int| 0 <= m < s1.len() implies 0 <= #[trigger] s1[m] < n by {
                assert(s1[m] == p[m]);
            }
            assert forall|m: int| 0 <= m < s2.len() implies 0 <= #[trigger] s2[m] < n by {
                assert(s2[m] == p[n + m]);
            }
            lemma_pigeonhole(s1, n);
            lemma_pigeonhole(s2, n);
            let (i, j) = choose|i: int, j: int| 0 <= i < j < s1.len() && #[trigger] s1[i] == #[trigger] s1[j];
            let (k0, l0) = choose|i: int, j: int| 0 <= i < j < s2.len() && #[trigger] s2[i] == #[trigger] s2[j];
            let (k, l) = (n + k0, n + l0);
            assert(p[i] == p[j] && p[k] == p[l]) by {
                assert(s1[i] == p[i] && s1[j] == p[j]);
                assert(s2[k0] == p[k] && s2[l0] == p[l]);
            }
            let c = j - i;
            let c2 = l - k;
            // leave out the first loop
            self.lemma_cut_loop(p, i, j);
            let q1 = cut_loop(p, i, j);
            assert(self.walk_between(q1, 0, 0) && q1.len() == (t - c) + 1);
            assert(self.is_return_time(t - c));
            self.lemma_return_time_divisible(d, t - c);
            // leave out the second loop
            self.lemma_cut_loop(p, k, l);
            let q2 = cut_loop(p, k, l);
            assert(self.walk_between(q2, 0, 0) && q2.len() == (t - c2) + 1);
            assert(self.is_return_time(t - c2));
            self.lemma_return_time_divisible(d, t - c2);
            // leave out both
            assert(q2[i] == p[i] && q2[j] == p[j]);
            self.lemma_cut_loop(q2, i, j);
            let q3 = cut_loop(q2, i, j);
            assert(self.walk_between(q3, 0, 0) && q3.len() == (t - c - c2) + 1);
            assert(self.is_return_time(t - c - c2));
            self.lemma_return_time_divisible(d, t - c - c2);
            lemma_divides_combination(d, (t - c) as nat, (t - c2) as nat, (t - c - c2) as nat);
            assert((t - c) + (t - c2) - (t - c - c2) == t);
        }
    }

    /// Return times of at most 2n steps decide the period of state 0: a
    /// number divides every return time to state 0 exactly when it divides
    /// those of at most 2n steps, so state 0 is aperiodic exactly when it is
    /// aperiodic within 2n steps.
    pub proof fn law_period_horizon(self)
        ensures
            forall|d: nat| #[trigger] self.divides_return_times(d, 2 * self.n_states)
                == self.divides_all_return_times(d),
            self.aperiodic_within(2 * self.n_states) == self.aperiodic(),
    {
        assert forall|d: nat| #[trigger] self.divides_return_times(d, 2 * self.n_states)
            == self.divides_all_return_times(d) by {
            if self.divides_return_times(d, 2 * self.n_states) {
                assert forall|t: int| #[trigger] self.is_return_time(t) implies divides(d, t as nat) by {
                    self.lemma_return_time_divisible(d, t);
                }
            }
        }
        if self.aperiodic_within(2 * self.n_states) {
            assert forall|d: nat| #[trigger] self.divides_all_return_times(d) implies d == 1 by {
                assert(self.divides_return_times(d, 2 * self.n_states));
            }
        }
        if self.aperiodic() {
            assert forall|d: nat| #[trigger] self.divides_return_times(d, 2 * self.n_states) implies d == 1 by {
                assert(self.divides_all_return_times(d));
            }
        }
    }
}

/// Divisibility is transitive.
pub proof fn lemma_divides_transitive(a: nat, b: nat, c: nat)
    requires
        divides(a, b),
        divides(b, c),
    ensures
        divides(a, c),
{
    if b == 0 {
    } else if a == 0 {
    } else {
        lemma_fundamental_div_mod(c as int, b as int);
        lemma_fundamental_div_mod(b as int, a as int);
        let q1 = c as int / b as int;
        let q2 = b as int / a as int;
        assert(c as int == b as int * q1);
        assert(b as int == a as int * q2);
        assert(c as int == a as int * (q2 * q1)) by {
            lemma_mul_is_associative(a as int, q2, q1);
        }
        lemma_mod_multiples_basic(q2 * q1, a as int);
        lemma_mul_is_commutative(a as int, q2 * q1);
    }
}

/// Every number divides itself.
pub proof fn lemma_divides_self(a: nat)
    ensures
        divides(a, a),
{
    if a > 0 {
        lemma_mod_self_0(a as int);
    }
}

} // verus!