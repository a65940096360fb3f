//! The population: an ordered collection of individuals, the dataset they
//! are scored against, and the evolution parameters.  It owns the
//! generational step and best-individual extraction.

use vstd::prelude::*;
use crate::Error;
use crate::fixed::SCALE;
use crate::individual::{
    Individual, mean_seq, is_index_permutation, keeps_even_positions,
    unit_draws_at_odd_positions,
};
use crate::score::{genes_bounded, spec_score, calculate_fitness, lemma_score_bound};
use crate::select::{
    sorted_desc, sort_by_fitness_desc, build_rank_weights, get_parent_id, RANK_LIMIT,
};
use crate::training::TrainingData;

verus! {

/// The individual is scored against `td` and its genes are in range.
pub open spec fn member_ok(c: Individual, td: TrainingData) -> bool {
    &&& c.scored(td)
    &&& genes_bounded(c.genotype@)
}

/// The same individual one generation older.
pub open spec fn aged(c: Individual) -> Individual {
    Individual { genotype: c.genotype, fitness: c.fitness, age: (c.age + 1) as usize }
}

/// Every individual of the sequence, one generation older.
pub open spec fn aged_all(s: Seq<Individual>) -> Seq<Individual> {
    s.map_values(|c: Individual| aged(c))
}

/// Whether the individual survives a generational turnover: aged by one, it
/// has not yet reached the age ceiling.
pub open spec fn outlives(c: Individual, max_age: int) -> bool {
    c.age + 1 < max_age
}

/// The individuals that outlive one turnover, in their order, ages not yet
/// raised.
pub open spec fn culled(s: Seq<Individual>, max_age: int) -> Seq<Individual> {
    s.filter(|c: Individual| outlives(c, max_age))
}

/// The survivors of one generational turnover, each one generation older:
/// an individual created at some generation is removed by the step that
/// would raise its age to `max_age`, so it survives exactly
/// `max_age - 1` further steps.
pub open spec fn spec_survivors(s: Seq<Individual>, max_age: int) -> Seq<Individual> {
    aged_all(culled(s, max_age))
}

/// Culling an empty collection leaves an empty collection.
pub proof fn lemma_culled_empty(max_age: int)
    ensures
        culled(Seq::empty(), max_age) == Seq::<Individual>::empty(),
{
    reveal(Seq::filter);
}

/// Culling one more individual keeps it exactly when it outlives the
/// turnover.
pub proof fn lemma_culled_append_one(s: Seq<Individual>, c: Individual, max_age: int)
    ensures
        culled(s.push(c), max_age) == if outlives(c, max_age) {
            culled(s, max_age).push(c)
        } else {
            culled(s, max_age)
        },
{
    broadcast use vstd::seq_lib::group_seq_lib_default;

    reveal_with_fuel(Seq::filter, 2);
    assert(s.push(c) =~= s + seq![c]);
    assert(seq![c].drop_last() =~= Seq::<Individual>::empty());
    if outlives(c, max_age) {
        assert(culled(s.push(c), max_age) =~= culled(s, max_age).push(c));
    } else {
        assert(culled(s.push(c), max_age) =~= culled(s, max_age));
    }
}

/// Every culled survivor outlives the turnover and comes from the original
/// collection.
pub proof fn lemma_culled_members(s: Seq<Individual>, max_age: int)
    ensures
        forall|i: int|
            0 <= i < culled(s, max_age).len() ==> outlives(
                #[trigger] culled(s, max_age)[i],
                max_age,
            ),
        forall|i: int|
            0 <= i < culled(s, max_age).len() ==> s.contains(#[trigger] culled(s, max_age)[i]),
    decreases s.len(),
{
    reveal(Seq::filter);
    if s.len() > 0 {
        lemma_culled_members(s.drop_last(), max_age);
        let f = culled(s, max_age);
        let pf = culled(s.drop_last(), max_age);
        assert forall|i: int| 0 <= i < f.len() implies outlives(#[trigger] f[i], max_age)
            && s.contains(f[i]) by {
            if i < pf.len() {
                assert(f[i] == pf[i]);
                assert(s.drop_last().contains(pf[i]));
                let j = choose|j: int|
                    0 <= j < s.drop_last().len() && s.drop_last()[j] == pf[i];
                assert(s[j] == pf[i]);
            } else {
                assert(f[i] == s.last());
                assert(s[s.len() - 1] == s.last());
            }
        }
    }
}

/// Two collections with the same individuals (as a multiset) have their
/// members scored against the same dataset.
pub proof fn lemma_members_transfer(a: Seq<Individual>, b: Seq<Individual>, td: TrainingData)
    requires
        a.to_multiset() == b.to_multiset(),
        forall|i: int| 0 <= i < b.len() ==> member_ok(#[trigger] b[i], td),
    ensures
        forall|i: int| 0 <= i < a.len() ==> member_ok(#[trigger] a[i], td),
{
    broadcast use vstd::seq_lib::group_to_multiset_ensures;

    assert forall|i: int| 0 <= i < a.len() implies member_ok(#[trigger] a[i], td) by {
        assert(a.contains(a[i]));
        assert(a.to_multiset().count(a[i]) > 0);
        assert(b.contains(a[i]));
        let j = choose|j: int| 0 <= j < b.len() && b[j] == a[i];
        assert(member_ok(b[j], td));
    }
}

/// A newly produced offspring: age zero, scored against the dataset, genes
/// in range.
pub open spec fn fresh_offspring(c: Individual, td: TrainingData) -> bool {
    &&& c.age == 0
    &&& member_ok(c, td)
}

/// `m` is a mutant of `parent`: same genotype length, and some fresh
/// permutation of the loci kept the parent's genes at its even walk
/// positions and put unit-interval draws at its odd walk positions.
pub open spec fn is_mutant_of(parent: Individual, m: Individual) -> bool {
    &&& m.genotype@.len() == parent.genotype@.len()
    &&& exists|p: Seq<usize>|
        is_index_permutation(p, parent.genotype@.len()) && keeps_even_positions(
            parent.genotype@,
            m.genotype@,
            p,
        ) && unit_draws_at_odd_positions(m.genotype@, p)
}

/// The same individual `k` generations older.
pub open spec fn aged_by(c: Individual, k: int) -> Individual {
    Individual { genotype: c.genotype, fitness: c.fitness, age: (c.age + k) as usize }
}

/// The live collection after one full generational step, abstractly: the
/// aged survivors of the previous collection, followed by whatever fresh
/// offspring the step appended.
pub open spec fn one_turnover(
    s: Seq<Individual>,
    fresh: Seq<Individual>,
    max_age: int,
) -> Seq<Individual> {
    spec_survivors(s, max_age) + fresh
}

/// The collection after a run of generational steps, one per fresh batch.
pub open spec fn iter_turnover(
    s: Seq<Individual>,
    freshes: Seq<Seq<Individual>>,
    max_age: int,
) -> Seq<Individual>
    decreases freshes.len(),
{
    if freshes.len() == 0 {
        s
    } else {
        iter_turnover(one_turnover(s, freshes[0], max_age), freshes.drop_first(), max_age)
    }
}

/// The aging law in a newborn's round numbers, positive half: an
/// individual that joins the collection at age zero is still present after
/// `max_age - 1` further generational turnovers, carrying age
/// `max_age - 1`.
pub proof fn lemma_newborn_survives_to_the_ceiling(
    s: Seq<Individual>,
    freshes: Seq<Seq<Individual>>,
    c: Individual,
    max_age: int,
)
    requires
        s.contains(c),
        c.age == 0,
        freshes.len() == max_age - 1,
        1 <= max_age <= usize::MAX,
    ensures
        iter_turnover(s, freshes, max_age).contains(aged_by(c, max_age - 1)),
{
    lemma_aging_presence(s, freshes, c, max_age);
}

/// The aging law, negative half: after the `max_age`-th turnover no copy
/// of the newborn aged `max_age` remains -- removal happens exactly
/// `max_age` generations after creation.
pub proof fn lemma_newborn_culled_at_the_ceiling(
    s: Seq<Individual>,
    freshes: Seq<Seq<Individual>>,
    c: Individual,
    max_age: int,
)
    requires
        c.age == 0,
        freshes.len() == max_age,
        forall|b: int, i: int|
            0 <= b < freshes.len() && 0 <= i < (#[trigger] freshes[b]).len() ==> (
            #[trigger] freshes[b][i]).age == 0,
        1 <= max_age <= usize::MAX,
    ensures
        !iter_turnover(s, freshes, max_age).contains(aged_by(c, max_age)),
{
    lemma_aging_absence(s, freshes, c, max_age);
}

/// One generational step's outcome is one abstract turnover: the aged
/// survivors of the ranked snapshot followed by that step's offspring.
/// This ties the executable step to the aging laws stated over
/// [`iter_turnover`].
pub proof fn lemma_evolve_is_turnover(
    pre: Population,
    post: Population,
    sorted: Seq<Individual>,
    children: Seq<Individual>,
    mutants: Seq<Individual>,
)
    requires
        evolve_step(pre, post, sorted, children, mutants),
    ensures
        post.individuals@ == one_turnover(sorted, children + mutants, pre.max_age as int),
{
    assert(post.individuals@ =~= spec_survivors(sorted, pre.max_age as int) + (children
        + mutants));
}

/// An individual that outlives the turnover is among the culled survivors.
pub proof fn lemma_culled_contains(s: Seq<Individual>, c: Individual, max_age: int)
    requires
        s.contains(c),
        outlives(c, max_age),
    ensures
        culled(s, max_age).contains(c),
    decreases s.len(),
{
    reveal(Seq::filter);
    if s.len() > 0 {
        if s.last() == c {
            assert(culled(s, max_age).last() == c);
        } else {
            let j = choose|j: int| 0 <= j < s.len() && s[j] == c;
            assert(s.drop_last()[j] == c);
            lemma_culled_contains(s.drop_last(), c, max_age);
            let i = choose|i: int|
                0 <= i < culled(s.drop_last(), max_age).len() && culled(
                    s.drop_last(),
                    max_age,
                )[i] == c;
            assert(culled(s, max_age)[i] == c);
        }
    }
}

/// An individual that survives one turnover is present afterwards, one
/// generation older.
pub proof fn lemma_turnover_presence(
    s: Seq<Individual>,
    fresh: Seq<Individual>,
    c: Individual,
    max_age: int,
)
    requires
        s.contains(c),
        c.age + 1 < max_age,
    ensures
        one_turnover(s, fresh, max_age).contains(aged(c)),
{
    lemma_culled_contains(s, c, max_age);
    let cu = culled(s, max_age);
    let j = choose|j: int| 0 <= j < cu.len() && cu[j] == c;
    assert(spec_survivors(s, max_age)[j] == aged(c));
    assert(one_turnover(s, fresh, max_age)[j] == aged(c));
}

/// Aging, positively: an individual is still present -- `k` generations
/// older -- after any `k` generational steps that its age ceiling lets it
/// survive.  In particular an individual created at age zero is still live
/// after `max_age - 1` further steps.
pub proof fn lemma_aging_presence(
    s: Seq<Individual>,
    freshes: Seq<Seq<Individual>>,
    c: Individual,
    max_age: int,
)
    requires
        s.contains(c),
        c.age + freshes.len() < max_age,
        max_age <= usize::MAX + 1,
    ensures
        iter_turnover(s, freshes, max_age).contains(aged_by(c, freshes.len() as int)),
    decreases freshes.len(),
{
    if freshes.len() == 0 {
        assert(aged_by(c, 0) == c);
    } else {
        lemma_turnover_presence(s, freshes[0], c, max_age);
        let c1 = aged(c);
        assert(c1 == aged_by(c, 1));
        lemma_aging_presence(
            one_turnover(s, freshes[0], max_age),
            freshes.drop_first(),
            c1,
            max_age,
        );
        assert(aged_by(c1, freshes.drop_first().len() as int) == aged_by(
            c,
            freshes.len() as int,
        ));
    }
}

/// After any generational step, every live individual's age is below the
/// ceiling: survivors were aged to strictly below `max_age` and offspring
/// are newborn.
pub proof fn lemma_turnover_age_ceiling(
    s: Seq<Individual>,
    fresh: Seq<Individual>,
    max_age: int,
)
    requires
        forall|i: int| 0 <= i < fresh.len() ==> (#[trigger] fresh[i]).age == 0,
        max_age >= 1,
    ensures
        forall|i: int|
            0 <= i < one_turnover(s, fresh, max_age).len() ==> (#[trigger] one_turnover(
                s,
                fresh,
                max_age,
            )[i]).age < max_age,
{
    lemma_culled_members(s, max_age);
    let out = one_turnover(s, fresh, max_age);
    let sur = spec_survivors(s, max_age);
    assert forall|i: int| 0 <= i < out.len() implies (#[trigger] out[i]).age < max_age by {
        if i < sur.len() {
            assert(out[i] == aged(culled(s, max_age)[i]));
            assert(outlives(culled(s, max_age)[i], max_age));
        } else {
            assert(out[i] == fresh[i - sur.len()]);
        }
    }
}

/// Aging, negatively: once at least one generational step has run, no live
/// individual's age reaches the ceiling -- so an individual whose age the
/// steps would have carried to `max_age` or beyond is no longer present.
/// An individual created at age zero is therefore absent after `max_age`
/// further steps.
pub proof fn lemma_aging_absence(
    s: Seq<Individual>,
    freshes: Seq<Seq<Individual>>,
    c: Individual,
    max_age: int,
)
    requires
        freshes.len() >= 1,
        forall|b: int, i: int|
            0 <= b < freshes.len() && 0 <= i < (#[trigger] freshes[b]).len() ==> (
            #[trigger] freshes[b][i]).age == 0,
        max_age >= 1,
        c.age + freshes.len() >= max_age,
        c.age + freshes.len() <= usize::MAX,
    ensures
        forall|i: int|
            0 <= i < iter_turnover(s, freshes, max_age).len() ==> (#[trigger] iter_turnover(
                s,
                freshes,
                max_age,
            )[i]).age < max_age,
        !iter_turnover(s, freshes, max_age).contains(aged_by(c, freshes.len() as int)),
    decreases freshes.len(),
{
    let next = one_turnover(s, freshes[0], max_age);
    lemma_turnover_age_ceiling(s, freshes[0], max_age);
    if freshes.len() == 1 {
        assert(iter_turnover(s, freshes, max_age) == next);
        assert(aged_by(c, 1).age >= max_age);
    } else {
        assert forall|b: int, i: int|
            0 <= b < freshes.drop_first().len() && 0 <= i < (
            #[trigger] freshes.drop_first()[b]).len() implies (
        #[trigger] freshes.drop_first()[b][i]).age == 0 by {
            assert(freshes.drop_first()[b] == freshes[b + 1]);
        }
        lemma_aging_absence(next, freshes.drop_first(), aged_by(c, 1), max_age);
        assert(iter_turnover(s, freshes, max_age) == iter_turnover(
            next,
            freshes.drop_first(),
            max_age,
        ));
        assert(aged_by(aged_by(c, 1), freshes.drop_first().len() as int) == aged_by(
            c,
            freshes.len() as int,
        ));
    }
}

/// `c` is the crossover child of two members of the ranked snapshot.
pub open spec fn crossover_parented(c: Individual, sorted: Seq<Individual>) -> bool {
    exists|a: int, b: int|
        0 <= a < sorted.len() && 0 <= b < sorted.len() && c.genotype@ == mean_seq(
            sorted[a].genotype@,
            sorted[b].genotype@,
        )
}

/// `m` is the mutant of some member of the ranked snapshot.
pub open spec fn mutant_parented(m: Individual, sorted: Seq<Individual>) -> bool {
    exists|p: int| 0 <= p < sorted.len() && is_mutant_of(sorted[p], m)
}

/// What one generational step did, witnessed by the ranked snapshot and the
/// two offspring batches: the snapshot is the pre-step collection sorted
/// worst-first; each batch holds at most `max_children_size` fresh
/// offspring; an impossible probability yields none and a certain one fills
/// every slot; every child is the crossover of two snapshot members and
/// every mutant the mutation of one; and the new collection is exactly the
/// aged survivors of the snapshot followed by the children and the mutants.
pub open spec fn evolve_step(
    pre: Population,
    post: Population,
    sorted: Seq<Individual>,
    children: Seq<Individual>,
    mutants: Seq<Individual>,
) -> bool {
    &&& sorted.len() == pre.individuals@.len()
    &&& sorted.to_multiset() == pre.individuals@.to_multiset()
    &&& sorted_desc(sorted)
    &&& children.len() <= pre.max_children_size
    &&& mutants.len() <= pre.max_children_size
    &&& (pre.crossover_chance == 0 ==> children.len() == 0)
    &&& (pre.mutation_chance == 0 ==> mutants.len() == 0)
    &&& (pre.crossover_chance == SCALE && pre.individuals@.len() >= 1 ==> children.len()
        == pre.max_children_size)
    &&& (pre.mutation_chance == SCALE && pre.individuals@.len() >= 1 ==> mutants.len()
        == pre.max_children_size)
    &&& (forall|k: int|
        0 <= k < children.len() ==> fresh_offspring(#[trigger] children[k], pre.training_data))
    &&& (forall|k: int|
        0 <= k < children.len() ==> crossover_parented(#[trigger] children[k], sorted))
    &&& (forall|k: int|
        0 <= k < mutants.len() ==> fresh_offspring(#[trigger] mutants[k], pre.training_data))
    &&& (forall|k: int|
        0 <= k < mutants.len() ==> mutant_parented(#[trigger] mutants[k], sorted))
    &&& post.individuals@ == spec_survivors(sorted, pre.max_age as int) + children + mutants
}

/// The index of the first individual with the strictly smallest cost.
pub open spec fn first_min_index(s: Seq<Individual>) -> int
    decreases s.len(),
{
    if s.len() <= 1 {
        0
    } else {
        let m = first_min_index(s.drop_last());
        if s[s.len() - 1].fitness < s[m].fitness {
            s.len() - 1
        } else {
            m
        }
    }
}

/// `first_min_index` names the first minimum: its cost is at most every
/// cost in the sequence, and every earlier individual costs strictly more.
pub proof fn lemma_first_min_index_ensures(s: Seq<Individual>)
    requires
        s.len() >= 1,
    ensures
        0 <= first_min_index(s) < s.len(),
        forall|j: int| 0 <= j < s.len() ==> s[first_min_index(s)].fitness <= (
        #[trigger] s[j]).fitness,
        forall|j: int| 0 <= j < first_min_index(s) ==> (#[trigger] s[j]).fitness
            > s[first_min_index(s)].fitness,
    decreases s.len(),
{
    if s.len() > 1 {
        let pre = s.drop_last();
        lemma_first_min_index_ensures(pre);
        let m = first_min_index(pre);
        let f = first_min_index(s);
        assert(forall|j: int| 0 <= j < pre.len() ==> #[trigger] pre[j] == s[j]);
        if s[s.len() - 1].fitness < s[m].fitness {
            assert(f == s.len() - 1);
            assert forall|j: int| 0 <= j < s.len() implies s[f].fitness <= (
            #[trigger] s[j]).fitness by {
                if j < s.len() - 1 {
                    assert(pre[m].fitness <= pre[j].fitness);
                }
            }
            assert forall|j: int| 0 <= j < f implies (#[trigger] s[j]).fitness
                > s[f].fitness by {
                assert(pre[m].fitness <= pre[j].fitness);
            }
        } else {
            assert(f == m);
            assert forall|j: int| 0 <= j < s.len() implies s[f].fitness <= (
            #[trigger] s[j]).fitness by {
                if j < s.len() - 1 {
                    assert(pre[m].fitness <= pre[j].fitness);
                }
            }
            assert forall|j: int| 0 <= j < f implies (#[trigger] s[j]).fitness
                > s[f].fitness by {
                assert(pre[j].fitness > pre[m].fitness);
            }
        }
    }
}

/// A population: the live individuals, a cached best slot, the owned
/// dataset, descriptive header labels, and the evolution parameters.  The
/// probabilities are fixed-point values in `[0, 1]`.
#[derive(Debug)]
pub struct Population {
    pub individuals: Vec<Individual>,
    pub best: Individual,
    pub training_data: TrainingData,
    pub header: Vec<Vec<u8>>,
    pub max_children_size: usize,
    pub genotype_size: usize,
    pub crossover_chance: i64,
    pub mutation_chance: i64,
    pub max_age: usize,
}

impl Population {
    /// Well-formedness: a well-formed dataset, a genotype size that matches
    /// it, every live individual scored against it with bounded genes, and
    /// non-degenerate configuration.
    pub open spec fn wf(self) -> bool {
        &&& self.training_data.wf()
        &&& self.genotype_size == self.training_data.genotype_size
        &&& forall|i: int|
            0 <= i < self.individuals@.len() ==> member_ok(
                #[trigger] self.individuals@[i],
                self.training_data,
            )
        &&& 0 <= self.crossover_chance <= SCALE
        &&& 0 <= self.mutation_chance <= SCALE
        &&& self.max_age >= 1
    }

    /// Everything but the live individuals is unchanged.
    pub open spec fn same_but_individuals(self, other: Population) -> bool {
        &&& self.best == other.best
        &&& self.training_data == other.training_data
        &&& self.header == other.header
        &&& self.max_children_size == other.max_children_size
        &&& self.genotype_size == other.genotype_size
        &&& self.crossover_chance == other.crossover_chance
        &&& self.mutation_chance == other.mutation_chance
        &&& self.max_age == other.max_age
    }

    /// An empty population with the default parameters: both probabilities
    /// one half, age ceiling seven.
    pub fn new() -> (r: Population)
        ensures
            r.wf(),
            r.individuals@.len() == 0,
            r.best.genotype@.len() == 0,
            r.training_data.rows().len() == 0,
            r.header@.len() == 0,
            r.max_children_size == 0,
            r.genotype_size == 0,
            r.crossover_chance == SCALE / 2,
            r.mutation_chance == SCALE / 2,
            r.max_age == 7,
    {
        Population {
            individuals: Vec::new(),
            best: Individual::new(),
            training_data: TrainingData::new(),
            header: Vec::new(),
            max_children_size: 0,
            genotype_size: 0,
            crossover_chance: SCALE / 2,
            mutation_chance: SCALE / 2,
            max_age: 7,
        }
    }

    /// `init_size` fresh random individuals, each scored against the dataset.
    pub fn random_individuals(
        init_size: usize,
        genotype_size: usize,
        training_data: &TrainingData,
    ) -> (r: Vec<Individual>)
        requires
            training_data.wf(),
            genotype_size == training_data.genotype_size,
        ensures
            r@.len() == init_size,
            forall|i: int|
                0 <= i < r@.len() ==> member_ok(#[trigger] r@[i], *training_data)
                    && r@[i].age == 0 && r@[i].genotype@.len() == genotype_size
                    && r@[i].fitness >= 0,
    {
        let mut individuals: Vec<Individual> = Vec::new();
        let mut i: usize = 0;
        #[verifier::loop_isolation(false)]
        while i < init_size
            invariant
                0 <= i <= init_size,
                individuals@.len() == i,
                forall|k: int|
                    0 <= k < i ==> member_ok(#[trigger] individuals@[k], *training_data)
                        && individuals@[k].age == 0 && individuals@[k].genotype@.len()
                        == genotype_size && individuals@[k].fitness >= 0,
            decreases init_size - i,
        {
            let fresh = Individual::random(genotype_size, training_data);
            proof {
                lemma_score_bound(fresh.genotype@, *training_data);
            }
            individuals.push(fresh);
            i = i + 1;
        }
        individuals
    }

    /// Seeds a population of `initial_population_size` random individuals
    /// from the dataset, which the population takes ownership of; every
    /// seeded individual carries the genotype size the dataset derives and
    /// the non-negative cost the scorer assigns it.
    pub fn from_training_data(
        training_data: TrainingData,
        initial_population_size: usize,
        max_children_size: usize,
    ) -> (r: Population)
        requires
            training_data.wf(),
        ensures
            r.wf(),
            r.training_data == training_data,
            r.genotype_size == training_data.genotype_size,
            r.individuals@.len() == initial_population_size,
            forall|i: int|
                0 <= i < r.individuals@.len() ==> (#[trigger] r.individuals@[i]).age == 0
                    && r.individuals@[i].genotype@.len() == training_data.genotype_size
                    && r.individuals@[i].fitness == spec_score(
                    r.individuals@[i].genotype@,
                    training_data.rows(),
                ) && r.individuals@[i].fitness >= 0,
            r.best.genotype@.len() == 0,
            r.header@.len() == 0,
            r.max_children_size == max_children_size,
            r.crossover_chance == SCALE / 2,
            r.mutation_chance == SCALE / 2,
            r.max_age == 7,
    {
        let genotype_size = training_data.genotype_size;
        let initial_population = Population::random_individuals(
            initial_population_size,
            genotype_size,
            &training_data,
        );
        Population {
            individuals: initial_population,
            best: Individual::new(),
            training_data,
            header: Vec::new(),
            max_children_size,
            genotype_size,
            crossover_chance: SCALE / 2,
            mutation_chance: SCALE / 2,
            max_age: 7,
        }
    }

    /// Inserts a copy of the given individual, re-scored against this
    /// population's dataset and with its age reset to zero.  An individual
    /// whose genotype does not fit the dataset is rejected
    /// (`ShapeMismatch`), as is one with genes out of range
    /// (`ValueOutOfRange`); the population is unchanged on rejection.
    pub fn add_individual(&mut self, individual: &Individual) -> (r: Result<(), Error>)
        requires
            old(self).wf(),
        ensures
            final(self).wf(),
            final(self).same_but_individuals(*old(self)),
            individual.genotype@.len() != old(self).genotype_size ==> r == Err::<(), Error>(
                Error::ShapeMismatch,
            ) && *final(self) == *old(self),
            individual.genotype@.len() == old(self).genotype_size && !genes_bounded(
                individual.genotype@,
            ) ==> r == Err::<(), Error>(Error::ValueOutOfRange) && *final(self) == *old(self),
            individual.genotype@.len() == old(self).genotype_size && genes_bounded(
                individual.genotype@,
            ) ==> {
                &&& r is Ok
                &&& final(self).individuals@.len() == old(self).individuals@.len() + 1
                &&& final(self).individuals@.drop_last() == old(self).individuals@
                &&& final(self).individuals@.last().genotype@ == individual.genotype@
                &&& final(self).individuals@.last().age == 0
                &&& final(self).individuals@.last().fitness == spec_score(
                    individual.genotype@,
                    old(self).training_data.rows(),
                )
            },
    {
        if individual.genotype.len() != self.genotype_size {
            return Err(Error::ShapeMismatch);
        }
        let n = individual.genotype.len();
        let mut j: usize = 0;
        #[verifier::loop_isolation(false)]
        while j < n
            invariant
                0 <= j <= n,
                forall|l: int|
                    0 <= l < j ==> -crate::fixed::GENE_LIMIT <= #[trigger] individual.genotype@[l]
                        <= crate::fixed::GENE_LIMIT,
            decreases n - j,
        {
            if individual.genotype[j] < -crate::fixed::GENE_LIMIT || individual.genotype[j]
                > crate::fixed::GENE_LIMIT {
                return Err(Error::ValueOutOfRange);
            }
            j = j + 1;
        }
        assert(genes_bounded(individual.genotype@));
        let fresh = individual.to_new(&self.training_data);
        let ghost before = self.individuals@;
        self.individuals.push(fresh);
        proof {
            assert(self.individuals@.drop_last() =~= before);
        }
        Ok(())
    }

    /// Ages every live individual by one generation.
    pub fn increment_age(&mut self)
        requires
            forall|i: int| 0 <= i < old(self).individuals@.len() ==> (
            #[trigger] old(self).individuals@[i]).age < usize::MAX,
        ensures
            final(self).same_but_individuals(*old(self)),
            final(self).individuals@ == aged_all(old(self).individuals@),
    {
        let ghost orig = self.individuals@;
        let mut remaining: Vec<Individual> = Vec::new();
        core::mem::swap(&mut remaining, &mut self.individuals);
        let ghost total: int = orig.len() as int;
        #[verifier::loop_isolation(false)]
        while remaining.len() > 0
            invariant
                self.individuals@.len() + remaining@.len() == total,
                orig.len() == total,
                forall|i: int| 0 <= i < orig.len() ==> (#[trigger] orig[i]).age < usize::MAX,
                forall|i: int|
                    0 <= i < remaining@.len() ==> #[trigger] remaining@[i] == orig[self.individuals@.len() + i],
                forall|i: int|
                    0 <= i < self.individuals@.len() ==> #[trigger] self.individuals@[i] == aged(
                        orig[i],
                    ),
                self.best == old(self).best,
                self.training_data == old(self).training_data,
                self.header == old(self).header,
                self.max_children_size == old(self).max_children_size,
                self.genotype_size == old(self).genotype_size,
                self.crossover_chance == old(self).crossover_chance,
                self.mutation_chance == old(self).mutation_chance,
                self.max_age == old(self).max_age,
            decreases remaining@.len(),
        {
            let mut c = remaining.remove(0);
            c.age = c.age + 1;
            self.individuals.push(c);
        }
        proof {
            assert(self.individuals@ =~= aged_all(orig));
        }
    }

    /// Removes every individual that the coming age increment would carry
    /// to the configured ceiling: the cull half of the generational
    /// turnover.
    pub fn decrement_population(&mut self)
        requires
            old(self).max_age >= 1,
        ensures
            final(self).same_but_individuals(*old(self)),
            final(self).individuals@ == culled(
                old(self).individuals@,
                old(self).max_age as int,
            ),
    {
        let ghost orig = self.individuals@;
        let ghost ma: int = self.max_age as int;
        let mut remaining: Vec<Individual> = Vec::new();
        core::mem::swap(&mut remaining, &mut self.individuals);
        let ghost total: int = orig.len() as int;
        proof {
            lemma_culled_empty(ma);
            assert(orig.subrange(0, 0) =~= Seq::<Individual>::empty());
        }
        #[verifier::loop_isolation(false)]
        while remaining.len() > 0
            invariant
                remaining@.len() <= total,
                forall|i: int|
                    0 <= i < remaining@.len() ==> #[trigger] remaining@[i] == orig[total
                        - remaining@.len() + i],
                self.individuals@ == culled(orig.subrange(0, total - remaining@.len()), ma),
                orig.len() == total,
                self.best == old(self).best,
                self.training_data == old(self).training_data,
                self.header == old(self).header,
                self.max_children_size == old(self).max_children_size,
                self.genotype_size == old(self).genotype_size,
                self.crossover_chance == old(self).crossover_chance,
                self.mutation_chance == old(self).mutation_chance,
                self.max_age == old(self).max_age,
            decreases remaining@.len(),
        {
            let ghost k = total - remaining@.len();
            let c = remaining.remove(0);
            assert(c == orig[k]);
            if c.age < self.max_age - 1 {
                self.individuals.push(c);
            }
            proof {
                let prefix = orig.subrange(0, k);
                let next = orig.subrange(0, k + 1);
                assert(next =~= prefix.push(orig[k]));
                lemma_culled_append_one(prefix, orig[k], ma);
                assert(self.individuals@ =~= culled(next, ma));
            }
        }
        proof {
            assert(orig.subrange(0, total) =~= orig);
        }
    }

    /// A copy of the live individual with the strictly smallest cost (the
    /// first one, where several tie); asking an empty population fails with
    /// the distinct empty condition.
    pub fn get_best(&self) -> (r: Result<Individual, Error>)
        ensures
            self.individuals@.len() == 0 <==> r == Err::<Individual, Error>(
                Error::EmptyPopulation,
            ),
            self.individuals@.len() > 0 ==> r is Ok && ({
                let i = first_min_index(self.individuals@);
                &&& r->Ok_0.genotype@ == self.individuals@[i].genotype@
                &&& r->Ok_0.fitness == self.individuals@[i].fitness
                &&& r->Ok_0.age == self.individuals@[i].age
            }),
            self.individuals@.len() > 0 ==> forall|j: int|
                0 <= j < self.individuals@.len() ==> r->Ok_0.fitness <= (
                #[trigger] self.individuals@[j]).fitness,
    {
        let ghost s = self.individuals@;
        if self.individuals.len() == 0 {
            return Err(Error::EmptyPopulation);
        }
        let n = self.individuals.len();
        let mut best_idx: usize = 0;
        let mut i: usize = 1;
        #[verifier::loop_isolation(false)]
        while i < n
            invariant
                1 <= i <= n,
                0 <= best_idx < i,
                best_idx == first_min_index(s.subrange(0, i as int)),
            decreases n - i,
        {
            proof {
                let cur = s.subrange(0, i as int);
                let next = s.subrange(0, i + 1);
                assert(next.drop_last() =~= cur);
                assert(next[next.len() - 1] == s[i as int]);
            }
            if self.individuals[i].fitness < self.individuals[best_idx].fitness {
                best_idx = i;
            }
            i = i + 1;
        }
        proof {
            assert(s.subrange(0, n as int) =~= s);
            lemma_first_min_index_ensures(s);
        }
        Ok(self.individuals[best_idx].dup())
    }

    /// Replaces the dataset.  The genotype sizes must agree unless no
    /// individuals are live (`ShapeMismatch` otherwise); on success every
    /// live individual is re-scored against the new dataset, ages kept.
    pub fn set_training_data(&mut self, training_data: TrainingData) -> (r: Result<(), Error>)
        requires
            old(self).wf(),
            training_data.wf(),
        ensures
            final(self).wf(),
            ({
                let mismatch = training_data.genotype_size != old(self).genotype_size
                    && old(self).individuals@.len() > 0;
                mismatch ==> r == Err::<(), Error>(Error::ShapeMismatch)
                    && *final(self) == *old(self)
            }),
            training_data.genotype_size == old(self).genotype_size
                || old(self).individuals@.len() == 0 ==> {
                &&& r is Ok
                &&& final(self).training_data == training_data
                &&& final(self).genotype_size == training_data.genotype_size
                &&& final(self).individuals@.len() == old(self).individuals@.len()
                &&& forall|i: int|
                    0 <= i < old(self).individuals@.len() ==> {
                        let c = #[trigger] old(self).individuals@[i];
                        &&& final(self).individuals@[i].genotype == c.genotype
                        &&& final(self).individuals@[i].fitness == spec_score(
                            c.genotype@,
                            training_data.rows(),
                        )
                        &&& final(self).individuals@[i].age == c.age
                    }
                &&& final(self).best == old(self).best
                &&& final(self).header == old(self).header
                &&& final(self).max_children_size == old(self).max_children_size
                &&& final(self).crossover_chance == old(self).crossover_chance
                &&& final(self).mutation_chance == old(self).mutation_chance
                &&& final(self).max_age == old(self).max_age
            },
    {
        if training_data.genotype_size != self.genotype_size && self.individuals.len() > 0 {
            return Err(Error::ShapeMismatch);
        }
        self.training_data = training_data;
        self.genotype_size = self.training_data.genotype_size;
        let ghost orig = self.individuals@;
        let mut remaining: Vec<Individual> = Vec::new();
        core::mem::swap(&mut remaining, &mut self.individuals);
        let ghost total: int = orig.len() as int;
        #[verifier::loop_isolation(false)]
        while remaining.len() > 0
            invariant
                self.individuals@.len() + remaining@.len() == total,
                orig.len() == total,
                self.training_data.wf(),
                self.training_data == training_data,
                self.genotype_size == self.training_data.genotype_size,
                self.best == old(self).best,
                self.header == old(self).header,
                self.max_children_size == old(self).max_children_size,
                self.crossover_chance == old(self).crossover_chance,
                self.mutation_chance == old(self).mutation_chance,
                self.max_age == old(self).max_age,
                old(self).wf(),
                forall|i: int|
                    0 <= i < orig.len() ==> member_ok(#[trigger] orig[i], old(self).training_data)
                        && orig[i].genotype@.len() == self.genotype_size,
                forall|i: int|
                    0 <= i < remaining@.len() ==> #[trigger] remaining@[i] == orig[self.individuals@.len() + i],
                forall|i: int|
                    0 <= i < self.individuals@.len() ==> {
                        let c = #[trigger] self.individuals@[i];
                        &&& c.genotype == orig[i].genotype
                        &&& c.fitness == spec_score(orig[i].genotype@, self.training_data.rows())
                        &&& c.age == orig[i].age
                    },
            decreases remaining@.len(),
        {
            let c = remaining.remove(0);
            let fitness = calculate_fitness(&c.genotype, &self.training_data);
            self.individuals.push(Individual { genotype: c.genotype, fitness, age: c.age });
        }
        Ok(())
    }

    /// Sets the mutation probability; a value outside `[0, 1]` is rejected.
    pub fn set_mutation_chance(&mut self, chance: i64) -> (r: Result<(), Error>)
        requires
            old(self).wf(),
        ensures
            final(self).wf(),
            !(0 <= chance <= SCALE) ==> r == Err::<(), Error>(Error::InvalidConfig)
                && *final(self) == *old(self),
            0 <= chance <= SCALE ==> r is Ok && *final(self) == (Population {
                mutation_chance: chance,
                ..*old(self)
            }),
    {
        if chance < 0 || chance > SCALE {
            return Err(Error::InvalidConfig);
        }
        self.mutation_chance = chance;
        Ok(())
    }

    /// Sets the crossover probability; a value outside `[0, 1]` is rejected.
    pub fn set_crossover_chance(&mut self, chance: i64) -> (r: Result<(), Error>)
        requires
            old(self).wf(),
        ensures
            final(self).wf(),
            !(0 <= chance <= SCALE) ==> r == Err::<(), Error>(Error::InvalidConfig)
                && *final(self) == *old(self),
            0 <= chance <= SCALE ==> r is Ok && *final(self) == (Population {
                crossover_chance: chance,
                ..*old(self)
            }),
    {
        if chance < 0 || chance > SCALE {
            return Err(Error::InvalidConfig);
        }
        self.crossover_chance = chance;
        Ok(())
    }

    /// Sets the age ceiling; zero is rejected as degenerate.
    pub fn set_max_age(&mut self, max_age: usize) -> (r: Result<(), Error>)
        requires
            old(self).wf(),
        ensures
            final(self).wf(),
            max_age == 0 ==> r == Err::<(), Error>(Error::InvalidConfig)
                && *final(self) == *old(self),
            max_age >= 1 ==> r is Ok && *final(self) == (Population {
                max_age,
                ..*old(self)
            }),
    {
        if max_age == 0 {
            return Err(Error::InvalidConfig);
        }
        self.max_age = max_age;
        Ok(())
    }

    /// Sets the offspring quota: the number of crossover slots and of
    /// mutation slots tried per generation.
    pub fn set_max_children_size(&mut self, max_children_size: usize)
        requires
            old(self).wf(),
        ensures
            final(self).wf(),
            *final(self) == (Population { max_children_size, ..*old(self) }),
    {
        self.max_children_size = max_children_size;
    }

    /// One generational step.  The live collection is ranked worst-first;
    /// for each of `max_children_size` trial slots a crossover child is
    /// produced with probability `crossover_chance` from two rank-selected
    /// parents, and independently a mutant with probability
    /// `mutation_chance` from one; every survivor then ages by one
    /// generation and those that reach `max_age` are culled; finally the
    /// offspring, all age zero, join the survivors.  Parents are drawn from
    /// the pre-culling ranked snapshot.  An empty collection or a zero
    /// quota produces no offspring and no error.
    pub fn evolve_by_rank(&mut self)
        requires
            old(self).wf(),
            old(self).individuals@.len() <= RANK_LIMIT,
        ensures
            final(self).wf(),
            final(self).same_but_individuals(*old(self)),
            exists|sorted: Seq<Individual>, children: Seq<Individual>, mutants: Seq<Individual>|
                evolve_step(*old(self), *final(self), sorted, children, mutants),
    {
        let ghost pre = *self;
        let mut taken: Vec<Individual> = Vec::new();
        core::mem::swap(&mut taken, &mut self.individuals);
        let sorted_vec = sort_by_fitness_desc(taken);
        let ghost sorted = sorted_vec@;
        proof {
            lemma_members_transfer(sorted, pre.individuals@, self.training_data);
        }
        let population_size = sorted_vec.len();
        let rank_vec = build_rank_weights(population_size);
        let mut children: Vec<Individual> = Vec::new();
        let mut t: usize = 0;
        #[verifier::loop_isolation(false)]
        while t < self.max_children_size
            invariant
                0 <= t <= self.max_children_size,
                children@.len() <= t,
                self.crossover_chance == 0 ==> children@.len() == 0,
                self.crossover_chance == SCALE && population_size >= 1 ==> children@.len() == t,
                forall|k: int|
                    0 <= k < children@.len() ==> fresh_offspring(
                        #[trigger] children@[k],
                        self.training_data,
                    ),
                forall|k: int|
                    0 <= k < children@.len() ==> crossover_parented(
                        #[trigger] children@[k],
                        sorted,
                    ),
            decreases self.max_children_size - t,
        {
            if crate::rng::chance_hit(self.crossover_chance) && population_size > 0 {
                let m = get_parent_id(population_size, &rank_vec);
                let f = get_parent_id(population_size, &rank_vec);
                let child = sorted_vec[m].crossover(&sorted_vec[f], &self.training_data);
                let ghost prev = children@;
                children.push(child);
                proof {
                    let ai = m as int;
                    let bi = f as int;
                    assert(0 <= ai < sorted.len() && 0 <= bi < sorted.len() && child.genotype@
                        == mean_seq(sorted[ai].genotype@, sorted[bi].genotype@));
                    assert(crossover_parented(child, sorted));
                    assert forall|k: int| 0 <= k < children@.len() implies crossover_parented(
                        #[trigger] children@[k],
                        sorted,
                    ) by {
                        if k < prev.len() {
                            assert(children@[k] == prev[k]);
                        } else {
                            assert(children@[k] == child);
                        }
                    }
                }
            }
            t = t + 1;
        }
        let mut mutated: Vec<Individual> = Vec::new();
        let mut t: usize = 0;
        #[verifier::loop_isolation(false)]
        while t < self.max_children_size
            invariant
                0 <= t <= self.max_children_size,
                mutated@.len() <= t,
                self.mutation_chance == 0 ==> mutated@.len() == 0,
                self.mutation_chance == SCALE && population_size >= 1 ==> mutated@.len() == t,
                forall|k: int|
                    0 <= k < mutated@.len() ==> fresh_offspring(
                        #[trigger] mutated@[k],
                        self.training_data,
                    ),
                forall|k: int|
                    0 <= k < mutated@.len() ==> mutant_parented(#[trigger] mutated@[k], sorted),
            decreases self.max_children_size - t,
        {
            if crate::rng::chance_hit(self.mutation_chance) && population_size > 0 {
                let a = get_parent_id(population_size, &rank_vec);
                let mutant = sorted_vec[a].mutate(&self.training_data);
                let ghost prev = mutated@;
                mutated.push(mutant);
                proof {
                    let pi = a as int;
                    assert(0 <= pi < sorted.len() && is_mutant_of(sorted[pi], mutant));
                    assert(mutant_parented(mutant, sorted));
                    assert forall|k: int| 0 <= k < mutated@.len() implies mutant_parented(
                        #[trigger] mutated@[k],
                        sorted,
                    ) by {
                        if k < prev.len() {
                            assert(mutated@[k] == prev[k]);
                        } else {
                            assert(mutated@[k] == mutant);
                        }
                    }
                }
            }
            t = t + 1;
        }
        self.individuals = sorted_vec;
        self.decrement_population();
        proof {
            lemma_culled_members(sorted, pre.max_age as int);
            assert forall|i: int| 0 <= i < self.individuals@.len() implies (
            #[trigger] self.individuals@[i]).age < usize::MAX by {
                assert(outlives(self.individuals@[i], pre.max_age as int));
            }
        }
        self.increment_age();
        proof {
            assert(self.individuals@ == spec_survivors(sorted, pre.max_age as int));
        }
        let ghost survivors = self.individuals@;
        let ghost children_s = children@;
        let ghost mutated_s = mutated@;
        self.individuals.append(&mut children);
        self.individuals.append(&mut mutated);
        proof {
            assert(self.individuals@ =~= survivors + children_s + mutated_s);
            // Well-formedness of the merged collection: survivors keep their
            // genotype and cost through aging, and offspring are scored.
            lemma_members_transfer(sorted, pre.individuals@, self.training_data);
            lemma_culled_members(sorted, pre.max_age as int);
            let ghost c = culled(sorted, pre.max_age as int);
            assert forall|i: int| 0 <= i < self.individuals@.len() implies member_ok(
                #[trigger] self.individuals@[i],
                self.training_data,
            ) by {
                if i < survivors.len() {
                    assert(survivors[i] == aged(c[i]));
                    assert(sorted.contains(c[i]));
                    let j = choose|j: int| 0 <= j < sorted.len() && sorted[j] == c[i];
                    assert(member_ok(sorted[j], self.training_data));
                } else if i < survivors.len() + children_s.len() {
                    assert(self.individuals@[i] == children_s[i - survivors.len()]);
                } else {
                    assert(self.individuals@[i] == mutated_s[
                        i - survivors.len() - children_s.len()
                    ]);
                }
            }
            assert(evolve_step(pre, *self, sorted, children_s, mutated_s));
        }
    }

    /// Attaches the descriptive header labels; no algorithm reads them.
    pub fn set_header(&mut self, header: Vec<Vec<u8>>)
        requires
            old(self).wf(),
        ensures
            final(self).wf(),
            *final(self) == (Population { header, ..*old(self) }),
    {
        self.header = header;
    }
}

} // verus!
