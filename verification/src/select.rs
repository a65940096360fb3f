//! Linear rank selection: the population is sorted worst-first, rank
//! position `i` (zero-based) receives a selection weight proportional to
//! `i + 1`, and a parent is drawn by a uniform value against the cumulative
//! triangular weights.

use vstd::prelude::*;
use crate::individual::Individual;
use crate::rng::rand_below;

verus! {

/// Most individuals a rank draw may select among.
pub const RANK_LIMIT: usize = 1_000_000_000;

/// The cumulative triangular weight of `RANK_LIMIT` rank positions.
pub const TRI_LIMIT: u64 = 500_000_000_500_000_000;

/// The triangular number `1 + 2 + ... + n`.
pub open spec fn spec_tri(n: int) -> int
    decreases n,
{
    if n <= 0 {
        0
    } else {
        n + spec_tri(n - 1)
    }
}

/// The usual closed form of the triangular number.
pub proof fn lemma_tri_closed_form(n: int)
    requires
        0 <= n,
    ensures
        2 * spec_tri(n) == n * (n + 1),
    decreases n,
{
    if n == 0 {
        assert(spec_tri(0) == 0);
    } else {
        lemma_tri_closed_form(n - 1);
        assert(spec_tri(n) == n + spec_tri(n - 1));
        assert(2 * spec_tri(n) == 2 * n + (n - 1) * n);
        assert(2 * n + (n - 1) * n == n * (n + 1)) by (nonlinear_arith);
    }
}

/// Triangular numbers grow monotonically.
pub proof fn lemma_tri_mono(a: int, b: int)
    requires
        0 <= a <= b,
    ensures
        spec_tri(a) <= spec_tri(b),
    decreases b,
{
    if a < b {
        lemma_tri_mono(a, b - 1);
    }
}

/// The cumulative weight of at most [`RANK_LIMIT`] positions fits `u64`.
pub proof fn lemma_tri_bound(n: int)
    requires
        0 <= n <= RANK_LIMIT,
    ensures
        spec_tri(n) <= TRI_LIMIT,
{
    lemma_tri_mono(n, RANK_LIMIT as int);
    lemma_tri_closed_form(RANK_LIMIT as int);
}

/// `w` holds the cumulative rank weights of `n` positions: position `i`
/// accumulates `1 + 2 + ... + (i + 1)`.
pub open spec fn is_rank_weights(w: Seq<u64>, n: int) -> bool {
    &&& w.len() == n
    &&& forall|i: int| 0 <= i < n ==> #[trigger] w[i] == spec_tri(i + 1)
}

/// Builds the cumulative rank-weight table for `n` positions.
#[verifier::loop_isolation(false)]
pub fn build_rank_weights(n: usize) -> (w: Vec<u64>)
    requires
        n <= RANK_LIMIT,
    ensures
        is_rank_weights(w@, n as int),
{
    let mut w: Vec<u64> = Vec::new();
    let mut acc: u64 = 0;
    let mut i: usize = 0;
    while i < n
        invariant
            0 <= i <= n,
            w@.len() == i,
            acc == spec_tri(i as int),
            forall|k: int| 0 <= k < i ==> #[trigger] w@[k] == spec_tri(k + 1),
        decreases n - i,
    {
        proof {
            lemma_tri_bound(i + 1);
        }
        acc = acc + (i as u64) + 1;
        w.push(acc);
        i = i + 1;
    }
    w
}

/// The first index whose cumulative weight exceeds the draw, starting the
/// scan at `i`; the last index is the fallback when no weight exceeds it.
pub open spec fn spec_pick_from(v: u64, w: Seq<u64>, i: int) -> int
    decreases w.len() - i,
{
    if i < 0 || i >= w.len() {
        w.len() - 1
    } else if v < w[i] {
        i
    } else {
        spec_pick_from(v, w, i + 1)
    }
}

/// The rank position a draw `v` selects: the first index `i` with
/// `v < w[i]`, or the last index if the draw exceeds every weight.
pub open spec fn spec_pick(v: u64, w: Seq<u64>) -> int {
    spec_pick_from(v, w, 0)
}

/// What the selected index looks like: it is in range, every earlier
/// cumulative weight is at most the draw, and the draw is below the
/// selected weight unless the fallback fired.
pub proof fn lemma_pick_properties(v: u64, w: Seq<u64>, i: int)
    requires
        0 <= i < w.len(),
        forall|j: int| 0 <= j < i ==> #[trigger] w[j] <= v,
    ensures
        i <= spec_pick_from(v, w, i) < w.len(),
        forall|j: int| 0 <= j < spec_pick_from(v, w, i) ==> #[trigger] w[j] <= v,
        spec_pick_from(v, w, i) < w.len() - 1 ==> v < w[spec_pick_from(v, w, i)],
    decreases w.len() - i,
{
    if v < w[i] {
    } else if i + 1 < w.len() {
        lemma_pick_properties(v, w, i + 1);
    } else {
        assert(spec_pick_from(v, w, i + 1) == w.len() - 1);
    }
}

/// Finds the rank position a draw selects.
#[verifier::loop_isolation(false)]
pub fn pick_rank(v: u64, rank_vec: &Vec<u64>) -> (id: usize)
    requires
        rank_vec@.len() >= 1,
    ensures
        id == spec_pick(v, rank_vec@),
        id < rank_vec@.len(),
{
    let n = rank_vec.len();
    let mut i: usize = 0;
    while i < n
        invariant
            0 <= i <= n,
            spec_pick(v, rank_vec@) == spec_pick_from(v, rank_vec@, i as int),
        decreases n - i,
    {
        if v < rank_vec[i] {
            return i;
        }
        i = i + 1;
    }
    n - 1
}

/// Draws a parent index by linear rank selection over a worst-first
/// collection of `population_size` individuals: a uniform value below the
/// total cumulative weight is mapped to the first rank position whose
/// cumulative weight exceeds it.
pub fn get_parent_id(population_size: usize, rank_vec: &Vec<u64>) -> (id: usize)
    requires
        1 <= population_size <= RANK_LIMIT,
        is_rank_weights(rank_vec@, population_size as int),
    ensures
        id < population_size,
        exists|v: u64|
            v < spec_tri(population_size as int) && id == spec_pick(v, rank_vec@),
{
    let total = rank_vec[population_size - 1];
    proof {
        lemma_tri_mono(1, population_size as int);
        assert(spec_tri(0) == 0);
        assert(spec_tri(1) == 1);
    }
    let v = rand_below(total);
    let id = pick_rank(v, rank_vec);
    proof {
        assert(v < spec_tri(population_size as int) && id as int == spec_pick(v, rank_vec@));
    }
    id
}

/// Linear rank selection in exact terms: with the cumulative weights of
/// `n` rank positions, the draws that select position `i` are precisely
/// those in `[tri(i), tri(i + 1))`, so position `i` owns `i + 1` of the
/// `tri(n)` equally likely draw values -- a selection share proportional to
/// `i + 1`, growing from the worst position to the best.
pub proof fn lemma_rank_selection_share(w: Seq<u64>, n: int, v: u64, i: int)
    requires
        is_rank_weights(w, n),
        1 <= n <= RANK_LIMIT,
        0 <= v < spec_tri(n),
        0 <= i < n,
    ensures
        spec_pick(v, w) == i <==> spec_tri(i) <= v < spec_tri(i + 1),
{
    lemma_pick_properties(v, w, 0);
    let p = spec_pick(v, w);
    assert forall|a: int, b: int| 0 <= a <= b implies spec_tri(a) <= spec_tri(b) by {
        lemma_tri_mono(a, b);
    }
    if spec_tri(i) <= v < spec_tri(i + 1) {
        // Every earlier weight is at most the draw, and weight i exceeds it,
        // so the first qualifying index is exactly i.
        assert(v < w[i]);
        if p < i {
            assert(w[p] <= v);
            assert(v < w[p]);
        }
        if p > i {
            assert(w[i] <= v);
        }
    }
    if p == i {
        if i < n - 1 {
            assert(v < w[i]);
        } else {
            assert(v < spec_tri(n));
        }
        if i > 0 {
            assert(w[i - 1] <= v);
        }
    }
}

/// Worst-first order: costs are non-increasing from front to back, so the
/// highest cost stands first and the lowest last.
pub open spec fn sorted_desc(s: Seq<Individual>) -> bool {
    forall|i: int, j: int| 0 <= i <= j < s.len() ==> (#[trigger] s[i]).fitness >= (
    #[trigger] s[j]).fitness
}

/// Sorts the individuals worst-first (highest cost first), keeping exactly
/// the same individuals.
pub fn sort_by_fitness_desc(v: Vec<Individual>) -> (r: Vec<Individual>)
    ensures
        r@.len() == v@.len(),
        r@.to_multiset() == v@.to_multiset(),
        sorted_desc(r@),
{
    broadcast use vstd::seq_lib::group_to_multiset_ensures;

    let mut rest = v;
    let mut out: Vec<Individual> = Vec::new();
    while rest.len() > 0
        invariant
            out@.len() + rest@.len() == v@.len(),
            out@.to_multiset().add(rest@.to_multiset()) =~= v@.to_multiset(),
            sorted_desc(out@),
            forall|i: int, j: int|
                0 <= i < out@.len() && 0 <= j < rest@.len() ==> (#[trigger] out@[i]).fitness >= (
                #[trigger] rest@[j]).fitness,
        decreases rest@.len(),
    {
        let mut max_idx: usize = 0;
        let mut k: usize = 1;
        #[verifier::loop_isolation(false)]
        while k < rest.len()
            invariant
                0 <= max_idx < k <= rest@.len(),
                forall|j: int| 0 <= j < k ==> rest@[max_idx as int].fitness >= (
                #[trigger] rest@[j]).fitness,
            decreases rest@.len() - k,
        {
            if rest[k].fitness > rest[max_idx].fitness {
                max_idx = k;
            }
            k = k + 1;
        }
        let ghost old_out = out@;
        let ghost old_rest = rest@;
        let picked = rest.remove(max_idx);
        out.push(picked);
        proof {
            broadcast use vstd::seq_lib::group_to_multiset_ensures;

            assert(old_rest.contains(picked)) by {
                assert(old_rest[max_idx as int] == picked);
            }
            assert(out@ == old_out.push(picked));
            assert(out@.to_multiset() =~= old_out.to_multiset().insert(picked));
            assert(rest@.to_multiset() =~= old_rest.to_multiset().remove(picked));
            assert(out@.to_multiset().add(rest@.to_multiset()) =~= v@.to_multiset());
            assert forall|j: int| 0 <= j < rest@.len() implies picked.fitness >= (
            #[trigger] rest@[j]).fitness by {
                if j < max_idx {
                    assert(rest@[j] == old_rest[j]);
                } else {
                    assert(rest@[j] == old_rest[j + 1]);
                }
            }
        }
    }
    out
}

} // verus!
