//! The genetic-algorithm individual: a fixed-length weight vector, the cost
//! the scorer assigned to it, and an age counter.  Every genetic operator
//! yields a new individual of age zero, freshly scored against the dataset
//! it was produced with.

use vstd::prelude::*;
use vstd::set_lib::{set_int_range, lemma_int_range, lemma_subset_equality};
use crate::fixed::{abs, spec_half, half, SCALE, GENE_LIMIT, TERM_LIMIT};
use crate::rng::{rand_unit, copy_shuffle};
use crate::score::{
    genes_bounded, spec_dot, spec_score, calculate_fitness, lemma_dot_bound, SCORE_LIMIT,
};
use crate::training::{TrainingData, values_bounded};

verus! {

/// The element-wise arithmetic mean of two genotypes, each entry rounded
/// toward zero.
pub open spec fn mean_seq(a: Seq<i64>, b: Seq<i64>) -> Seq<i64> {
    Seq::new(a.len(), |i: int| spec_half(a[i] + b[i]) as i64)
}

/// `p` lists each index below `n` exactly once.
pub open spec fn is_index_permutation(p: Seq<usize>, n: nat) -> bool {
    &&& p.len() == n
    &&& p.no_duplicates()
    &&& forall|k: int| 0 <= k < p.len() ==> (#[trigger] p[k]) < n
}

/// Walking the permutation `p`, the child keeps the parent's gene at every
/// even walk position; odd walk positions are the replaced loci.
pub open spec fn keeps_even_positions(parent: Seq<i64>, child: Seq<i64>, p: Seq<usize>) -> bool {
    forall|k: int|
        0 <= k < p.len() && k % 2 == 0 ==> child[(#[trigger] p[k]) as int] == parent[p[k] as int]
}

/// Walking the permutation `p`, the child holds a unit-interval draw -- a
/// fixed-point value in `[-1, 1)` -- at every odd walk position: the
/// replaced loci really carry fresh uniform genes.
pub open spec fn unit_draws_at_odd_positions(child: Seq<i64>, p: Seq<usize>) -> bool {
    forall|k: int|
        0 <= k < p.len() && k % 2 == 1 ==> -SCALE <= child[(#[trigger] p[k]) as int] < SCALE
}

/// A shuffled copy of the identity index sequence is a permutation of it.
proof fn lemma_shuffled_identity(id: Seq<usize>, p: Seq<usize>)
    requires
        forall|k: int| 0 <= k < id.len() ==> (#[trigger] id[k]) as int == k,
        p.len() == id.len(),
        p.to_multiset() == id.to_multiset(),
    ensures
        is_index_permutation(p, id.len()),
{
    broadcast use vstd::seq_lib::group_to_multiset_ensures;

    assert(id.no_duplicates());
    id.lemma_multiset_has_no_duplicates();
    assert forall|x: usize| p.to_multiset().contains(x) implies p.to_multiset().count(x)
        == 1 by {
        assert(id.to_multiset().contains(x));
    }
    p.lemma_multiset_has_no_duplicates_conv();
    assert forall|k: int| 0 <= k < p.len() implies (#[trigger] p[k]) < id.len() by {
        let x = p[k];
        assert(p.contains(x));
        assert(p.to_multiset().count(x) > 0);
        assert(id.to_multiset().count(x) > 0);
        assert(id.contains(x));
        let j = choose|j: int| 0 <= j < id.len() && id[j] == x;
        assert(id[j] as int == j);
    }
}

/// Crossover is deterministic given the two parents and the dataset: any
/// two results of the same crossover agree bit for bit in genotype and
/// cost.  Only the choice of parents is random, never the operator itself.
pub proof fn lemma_crossover_deterministic(
    a: Individual,
    b: Individual,
    td: TrainingData,
    r1: Individual,
    r2: Individual,
)
    requires
        r1.genotype@ == mean_seq(a.genotype@, b.genotype@),
        r1.fitness == spec_score(r1.genotype@, td.rows()),
        r2.genotype@ == mean_seq(a.genotype@, b.genotype@),
        r2.fitness == spec_score(r2.genotype@, td.rows()),
    ensures
        r1.genotype@ == r2.genotype@,
        r1.fitness == r2.fitness,
{
}

/// The loci a mutation walk replaces: the values the permutation takes at
/// its odd walk positions.
pub open spec fn replaced_loci(p: Seq<usize>) -> Set<int> {
    Set::new(|i: int| exists|k: int| 0 <= k < p.len() && k % 2 == 1 && (#[trigger] p[k]) == i)
}

/// Mutation replaces exactly `n / 2` (rounded down) of the `n` loci --
/// between one and all of them for a genotype of at least two genes -- and
/// keeps the parent's gene everywhere else.  Which loci those are is drawn
/// anew from a fresh permutation on every call.
pub proof fn lemma_mutation_replaced_count(parent: Seq<i64>, child: Seq<i64>, p: Seq<usize>)
    requires
        is_index_permutation(p, parent.len()),
        keeps_even_positions(parent, child, p),
        unit_draws_at_odd_positions(child, p),
        child.len() == parent.len(),
        parent.len() >= 2,
    ensures
        replaced_loci(p).finite(),
        replaced_loci(p).len() == parent.len() / 2,
        1 <= replaced_loci(p).len() <= parent.len(),
        forall|i: int|
            0 <= i < parent.len() && !replaced_loci(p).contains(i) ==> child[i] == parent[i],
        forall|i: int| replaced_loci(p).contains(i) ==> -SCALE <= #[trigger] child[i] < SCALE,
{
    assert forall|i: int| replaced_loci(p).contains(i) implies -SCALE <= #[trigger] child[i]
        < SCALE by {
        let k = choose|k: int| 0 <= k < p.len() && k % 2 == 1 && (#[trigger] p[k]) == i;
        assert(-SCALE <= child[p[k] as int] < SCALE);
    }
    broadcast use vstd::seq_lib::group_seq_lib_default;
    broadcast use vstd::set::group_set_axioms;

    let n = parent.len() as int;
    let h = n / 2;
    let q = Seq::new(h as nat, |j: int| p[2 * j + 1] as int);
    assert(q.no_duplicates()) by {
        assert forall|j1: int, j2: int| 0 <= j1 < j2 < q.len() implies q[j1] != q[j2] by {
            assert(p[2 * j1 + 1] != p[2 * j2 + 1]);
        }
    }
    q.unique_seq_to_set();
    assert(replaced_loci(p) =~= q.to_set()) by {
        assert forall|i: int| replaced_loci(p).contains(i) implies q.to_set().contains(i) by {
            let k = choose|k: int| 0 <= k < p.len() && k % 2 == 1 && (#[trigger] p[k]) == i;
            let j = k / 2;
            assert(k == 2 * j + 1);
            assert(0 <= j < h);
            assert(q[j] == i);
            assert(q.contains(i));
        }
        assert forall|i: int| q.to_set().contains(i) implies replaced_loci(p).contains(i) by {
            assert(q.contains(i));
            let j = choose|j: int| 0 <= j < q.len() && q[j] == i;
            let k = 2 * j + 1;
            assert(0 <= k < p.len() && k % 2 == 1 && p[k] == i);
        }
    }
    assert(replaced_loci(p).len() == h);
    let full = Seq::new(n as nat, |k: int| p[k] as int);
    assert(full.no_duplicates()) by {
        assert forall|k1: int, k2: int| 0 <= k1 < k2 < full.len() implies full[k1]
            != full[k2] by {
            assert(p[k1] != p[k2]);
        }
    }
    full.unique_seq_to_set();
    lemma_int_range(0, n);
    assert(full.to_set().subset_of(set_int_range(0, n))) by {
        assert forall|i: int| full.to_set().contains(i) implies set_int_range(0, n).contains(
            i,
        ) by {
            assert(full.contains(i));
            let k = choose|k: int| 0 <= k < full.len() && full[k] == i;
            assert(p[k] < parent.len());
        }
    }
    lemma_subset_equality(full.to_set(), set_int_range(0, n));
    assert forall|i: int|
        0 <= i < parent.len() && !replaced_loci(p).contains(i) implies child[i] == parent[i] by {
        assert(set_int_range(0, n).contains(i));
        assert(full.to_set().contains(i));
        assert(full.contains(i));
        let k = choose|k: int| 0 <= k < full.len() && full[k] == i;
        assert(p[k] == i);
        if k % 2 == 1 {
            assert(replaced_loci(p).contains(i));
        } else {
            assert(k % 2 == 0);
            assert(child[p[k] as int] == parent[p[k] as int]);
        }
    }
}

/// A genetic-algorithm individual.  `fitness` is the scorer's output for
/// `genotype` against the dataset the individual was produced with; despite
/// the customary name it is a cost, and lower is better.
#[derive(Debug)]
pub struct Individual {
    pub genotype: Vec<i64>,
    pub fitness: i128,
    pub age: usize,
}

impl Individual {
    /// The individual is scored against `td`: its genotype fits the
    /// dataset's genotype size and its fitness is exactly the scorer's value.
    pub open spec fn scored(self, td: TrainingData) -> bool {
        &&& self.genotype@.len() == td.genotype_size
        &&& self.fitness == spec_score(self.genotype@, td.rows())
    }

    /// An empty individual: no genes, cost zero, age zero.
    pub fn new() -> (r: Individual)
        ensures
            r.genotype@.len() == 0,
            r.fitness == 0,
            r.age == 0,
    {
        Individual { genotype: Vec::new(), fitness: 0, age: 0 }
    }

    /// A fresh individual whose genes are drawn uniformly from `[-1, 1)`,
    /// scored immediately against the dataset.
    pub fn random(gen_number: usize, training_data: &TrainingData) -> (r: Individual)
        requires
            training_data.wf(),
            gen_number == training_data.genotype_size,
        ensures
            r.age == 0,
            r.genotype@.len() == gen_number,
            forall|j: int| 0 <= j < r.genotype@.len() ==> -SCALE <= #[trigger] r.genotype@[j]
                < SCALE,
            genes_bounded(r.genotype@),
            r.scored(*training_data),
    {
        let mut genotype: Vec<i64> = Vec::new();
        let mut i: usize = 0;
        while i < gen_number
            invariant
                0 <= i <= gen_number,
                genotype@.len() == i,
                forall|j: int| 0 <= j < i ==> -SCALE <= #[trigger] genotype@[j] < SCALE,
            decreases gen_number - i,
        {
            genotype.push(rand_unit());
            i = i + 1;
        }
        assert(genes_bounded(genotype@));
        let fitness = calculate_fitness(&genotype, training_data);
        Individual { genotype, fitness, age: 0 }
    }

    /// The crossover child of two parents: the element-wise mean of their
    /// genotypes, freshly scored, age zero.  Deterministic in its inputs:
    /// the genotype and cost are a function of the two parents and the
    /// dataset alone.
    pub fn crossover(&self, other: &Individual, training_data: &TrainingData) -> (r: Individual)
        requires
            training_data.wf(),
            self.genotype@.len() == training_data.genotype_size,
            other.genotype@.len() == training_data.genotype_size,
            genes_bounded(self.genotype@),
            genes_bounded(other.genotype@),
        ensures
            r.age == 0,
            r.genotype@ == mean_seq(self.genotype@, other.genotype@),
            genes_bounded(r.genotype@),
            r.scored(*training_data),
    {
        let n = self.genotype.len();
        let mut new_genotype: Vec<i64> = Vec::new();
        let mut i: usize = 0;
        while i < n
            invariant
                0 <= i <= n,
                n == self.genotype@.len(),
                n == other.genotype@.len(),
                genes_bounded(self.genotype@),
                genes_bounded(other.genotype@),
                new_genotype@.len() == i,
                forall|j: int| 0 <= j < i ==> #[trigger] new_genotype@[j] == spec_half(
                    self.genotype@[j] + other.genotype@[j],
                ) as i64,
                genes_bounded(new_genotype@),
            decreases n - i,
        {
            let a = self.genotype[i];
            let b = other.genotype[i];
            let m = half(a + b);
            assert(-GENE_LIMIT <= m <= GENE_LIMIT);
            new_genotype.push(m);
            i = i + 1;
        }
        assert(new_genotype@ =~= mean_seq(self.genotype@, other.genotype@));
        let fitness = calculate_fitness(&new_genotype, training_data);
        Individual { genotype: new_genotype, fitness, age: 0 }
    }

    /// The mutant of a parent: a fresh random permutation of the gene
    /// indices is walked in order; at even walk positions the parent's gene
    /// is kept, at odd walk positions the gene is replaced with a fresh
    /// uniform draw from `[-1, 1)`.  Which loci are replaced is therefore
    /// randomized anew on every call, and for a genotype of length `n`
    /// exactly `n / 2` (rounded down) loci are replaced.
    pub fn mutate(&self, training_data: &TrainingData) -> (r: Individual)
        requires
            training_data.wf(),
            self.genotype@.len() == training_data.genotype_size,
            genes_bounded(self.genotype@),
        ensures
            r.age == 0,
            r.genotype@.len() == self.genotype@.len(),
            genes_bounded(r.genotype@),
            r.scored(*training_data),
            exists|p: Seq<usize>|
                is_index_permutation(p, self.genotype@.len()) && keeps_even_positions(
                    self.genotype@,
                    r.genotype@,
                    p,
                ) && unit_draws_at_odd_positions(r.genotype@, p),
    {
        let n = self.genotype.len();
        let mut indexes: Vec<usize> = Vec::new();
        let mut i: usize = 0;
        while i < n
            invariant
                0 <= i <= n,
                indexes@.len() == i,
                forall|k: int| 0 <= k < i ==> (#[trigger] indexes@[k]) as int == k,
            decreases n - i,
        {
            indexes.push(i);
            i = i + 1;
        }
        let perm = copy_shuffle(&indexes);
        proof {
            lemma_shuffled_identity(indexes@, perm@);
        }
        let mut new_genotype: Vec<i64> = Vec::new();
        let mut i: usize = 0;
        while i < n
            invariant
                0 <= i <= n,
                new_genotype@.len() == i,
                forall|j: int| 0 <= j < i ==> -GENE_LIMIT <= #[trigger] new_genotype@[j]
                    <= GENE_LIMIT,
            decreases n - i,
        {
            new_genotype.push(0);
            i = i + 1;
        }
        let mut k: usize = 0;
        while k < n
            invariant
                0 <= k <= n,
                n == self.genotype@.len(),
                genes_bounded(self.genotype@),
                is_index_permutation(perm@, n as nat),
                new_genotype@.len() == n,
                genes_bounded(new_genotype@),
                forall|k2: int|
                    0 <= k2 < k && k2 % 2 == 0 ==> new_genotype@[(#[trigger] perm@[k2]) as int]
                        == self.genotype@[perm@[k2] as int],
                forall|k2: int|
                    0 <= k2 < k && k2 % 2 == 1 ==> -SCALE <= new_genotype@[(
                    #[trigger] perm@[k2]) as int] < SCALE,
            decreases n - k,
        {
            let index = perm[k];
            assert forall|k2: int| 0 <= k2 < k implies perm@[k2] != perm@[k as int] by {
            }
            if k % 2 == 0 {
                let kept = self.genotype[index];
                new_genotype.set(index, kept);
            } else {
                new_genotype.set(index, rand_unit());
            }
            k = k + 1;
        }
        assert(keeps_even_positions(self.genotype@, new_genotype@, perm@));
        assert(unit_draws_at_odd_positions(new_genotype@, perm@));
        let fitness = calculate_fitness(&new_genotype, training_data);
        let r = Individual { genotype: new_genotype, fitness, age: 0 };
        proof {
            let p = perm@;
            assert(is_index_permutation(p, self.genotype@.len()) && keeps_even_positions(
                self.genotype@,
                r.genotype@,
                p,
            ) && unit_draws_at_odd_positions(r.genotype@, p));
        }
        r
    }

    /// The fixed-point dot product of the genotype with a feature vector:
    /// the individual's prediction for that vector.
    pub fn predict_value(&self, data: &Vec<i64>) -> (prediction: i128)
        requires
            genes_bounded(self.genotype@),
            values_bounded(data@),
            data@.len() >= self.genotype@.len(),
        ensures
            prediction == spec_dot(self.genotype@, data@, self.genotype@.len() as int),
    {
        let n = self.genotype.len();
        let mut result: i128 = 0;
        let mut j: usize = 0;
        #[verifier::loop_isolation(false)]
        while j < n
            invariant
                0 <= j <= n,
                result == spec_dot(self.genotype@, data@, j as int),
                abs(result as int) <= j * TERM_LIMIT,
            decreases n - j,
        {
            let term = crate::fixed::fxmul(self.genotype[j], data[j]);
            proof {
                lemma_dot_bound(self.genotype@, data@, j + 1);
                assert((j as int) * TERM_LIMIT + TERM_LIMIT == (j + 1) * TERM_LIMIT)
                    by (nonlinear_arith);
                assert((j + 1) * TERM_LIMIT <= (usize::MAX as int) * TERM_LIMIT)
                    by (nonlinear_arith)
                    requires
                        0 <= j + 1 <= usize::MAX as int,
                ;
            }
            result = result + (term as i128);
            j = j + 1;
        }
        result
    }

    /// An exact copy, age and cost included; no rescoring.
    pub fn dup(&self) -> (r: Individual)
        ensures
            r.genotype@ == self.genotype@,
            r.fitness == self.fitness,
            r.age == self.age,
    {
        let genotype = self.genotype.clone();
        assert(genotype@ =~= self.genotype@);
        Individual { genotype, fitness: self.fitness, age: self.age }
    }

    /// A copy with the same genotype and cost but its age reset to zero.
    pub fn dup_reset(&self) -> (r: Individual)
        ensures
            r.genotype@ == self.genotype@,
            r.fitness == self.fitness,
            r.age == 0,
    {
        let genotype = self.genotype.clone();
        assert(genotype@ =~= self.genotype@);
        Individual { genotype, fitness: self.fitness, age: 0 }
    }

    /// A copy of the genotype rescored against the given dataset, age zero:
    /// how an outside individual enters a population.
    pub fn to_new(&self, training_data: &TrainingData) -> (r: Individual)
        requires
            training_data.wf(),
            self.genotype@.len() == training_data.genotype_size,
            genes_bounded(self.genotype@),
        ensures
            r.age == 0,
            r.genotype@ == self.genotype@,
            genes_bounded(r.genotype@),
            r.scored(*training_data),
    {
        let genotype = self.genotype.clone();
        assert(genotype@ =~= self.genotype@);
        let fitness = calculate_fitness(&genotype, training_data);
        Individual { genotype, fitness, age: 0 }
    }
}

/// Two individuals are equal exactly when their genotypes are element-wise
/// equal; cost and age take no part in equality.
impl PartialEq for Individual {
    fn eq(&self, other: &Individual) -> (r: bool) {
        if self.genotype.len() != other.genotype.len() {
            return false;
        }
        let n = self.genotype.len();
        let mut i: usize = 0;
        #[verifier::loop_isolation(false)]
        while i < n
            invariant
                0 <= i <= n,
                forall|j: int| 0 <= j < i ==> self.genotype@[j] == other.genotype@[j],
            decreases n - i,
        {
            if self.genotype[i] != other.genotype[i] {
                return false;
            }
            i = i + 1;
        }
        assert(self.genotype@ =~= other.genotype@);
        true
    }
}

impl vstd::std_specs::cmp::PartialEqSpecImpl for Individual {
    open spec fn obeys_eq_spec() -> bool {
        true
    }

    open spec fn eq_spec(&self, other: &Individual) -> bool {
        self.genotype@ == other.genotype@
    }
}

} // verus!
