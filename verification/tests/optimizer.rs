use evofit::fixed::SCALE;
use evofit::individual::Individual;
use evofit::population::Population;
use evofit::score::calculate_fitness;
use evofit::select::{build_rank_weights, get_parent_id};
use evofit::training::TrainingData;
use evofit::Error;

/// The dataset rows [[1, 2], [2, 4], [3, 6]] in fixed-point form:
/// genotype size one, target twice the feature.
fn linear_dataset() -> TrainingData {
    TrainingData::from_vec(vec![
        vec![1_000_000, 2_000_000],
        vec![2_000_000, 4_000_000],
        vec![3_000_000, 6_000_000],
    ])
    .unwrap()
}

/// Independently recomputes the scorer: sum over rows of the absolute
/// difference between the trailing target and the fixed-point dot product
/// of the genotype with the feature prefix.
fn expected_cost(genotype: &[i64], rows: &[Vec<i64>]) -> i128 {
    let mut total: i128 = 0;
    for row in rows {
        let mut dot: i128 = 0;
        for (g, x) in genotype.iter().zip(row.iter()) {
            dot += (*g as i128) * (*x as i128) / 1_000_000;
        }
        let target = row[genotype.len()] as i128;
        total += (target - dot).abs();
    }
    total
}

fn individual_with(genes: Vec<i64>, td: &TrainingData) -> Individual {
    let fitness = calculate_fitness(&genes, td);
    Individual { genotype: genes, fitness, age: 0 }
}

#[test]
fn seed_population_counts_and_costs() {
    let td = linear_dataset();
    let pop = Population::from_training_data(td, 5, 3);
    assert_eq!(pop.individuals.len(), 5);
    for ind in &pop.individuals {
        assert_eq!(ind.genotype.len(), 1);
        assert_eq!(ind.age, 0);
        assert!(ind.fitness >= 0);
        assert_eq!(
            ind.fitness,
            expected_cost(&ind.genotype, &[
                vec![1_000_000, 2_000_000],
                vec![2_000_000, 4_000_000],
                vec![3_000_000, 6_000_000],
            ])
        );
    }
    assert_eq!(pop.max_children_size, 3);
    assert_eq!(pop.max_age, 7);
    assert_eq!(pop.crossover_chance, SCALE / 2);
    assert_eq!(pop.mutation_chance, SCALE / 2);
}

#[test]
fn scorer_exact_value() {
    let td = linear_dataset();
    // A genotype holding the single weight 0.5: prediction is half the
    // feature, residuals are 1.5, 3.0 and 4.5.
    let cost = calculate_fitness(&vec![500_000], &td);
    assert_eq!(cost, 9_000_000);
    // A perfect weight of 2.0 would reach zero, but the optimizer's own
    // draws stay inside [-1, 1); the scorer itself accepts it.
    let cost2 = calculate_fitness(&vec![2_000_000], &td);
    assert_eq!(cost2, 0);
}

#[test]
fn crossover_is_deterministic() {
    let td = linear_dataset();
    let a = individual_with(vec![250_000], &td);
    let b = individual_with(vec![750_001], &td);
    let c1 = a.crossover(&b, &td);
    let c2 = a.crossover(&b, &td);
    assert_eq!(c1.genotype, c2.genotype);
    assert_eq!(c1.fitness, c2.fitness);
    assert_eq!(c1.age, 0);
    // The mean rounds toward zero: (250000 + 750001) / 2 == 500000.
    assert_eq!(c1.genotype, vec![500_000]);
    assert_eq!(c1.fitness, 9_000_000);
}

#[test]
fn mutation_preserves_length_and_replaces_at_most_half() {
    let rows: Vec<Vec<i64>> = (1..=4i64)
        .map(|i| vec![
            i * 1_000_000,
            i * 2_000_000,
            i * 3_000_000,
            i * 500_000,
            i * 250_000,
            i * 750_000,
            i * 125_000,
            i * 1_500_000,
            i * 4_000_000,
        ])
        .collect();
    let td = TrainingData::from_vec(rows).unwrap();
    assert_eq!(td.genotype_size, 8);
    let parent = individual_with(vec![1, 2, 3, 4, 5, 6, 7, 8], &td);
    let mut saw_change = false;
    for _ in 0..30 {
        let m = parent.mutate(&td);
        assert_eq!(m.genotype.len(), 8);
        assert_eq!(m.age, 0);
        let differing = m
            .genotype
            .iter()
            .zip(parent.genotype.iter())
            .filter(|(x, y)| x != y)
            .count();
        // Exactly four loci are redrawn, so at most four genes can differ.
        assert!(differing <= 4);
        if differing > 0 {
            saw_change = true;
        }
    }
    assert!(saw_change);
}

#[test]
fn mutation_redraws_exactly_half_inside_the_unit_interval() {
    let rows: Vec<Vec<i64>> = vec![(1..=9i64).map(|i| i * 1_000).collect()];
    let td = TrainingData::from_vec(rows).unwrap();
    assert_eq!(td.genotype_size, 8);
    // Every parent gene sits far outside [-1, 1), so a replaced locus is
    // recognizable by its fresh unit-interval draw.
    let parent = individual_with(vec![5_000_000; 8], &td);
    for _ in 0..10 {
        let m = parent.mutate(&td);
        let kept = m.genotype.iter().filter(|g| **g == 5_000_000).count();
        let redrawn = m.genotype.iter().filter(|g| -SCALE <= **g && **g < SCALE).count();
        assert_eq!(kept, 4);
        assert_eq!(redrawn, 4);
    }
}

#[test]
fn rank_selection_frequencies_increase_with_rank() {
    let rank_vec = build_rank_weights(5);
    assert_eq!(rank_vec, vec![1, 3, 6, 10, 15]);
    let mut counts = [0usize; 5];
    for _ in 0..15_000 {
        let id = get_parent_id(5, &rank_vec);
        assert!(id < 5);
        counts[id] += 1;
    }
    // Expected shares are 1:2:3:4:5 of 15000 draws; the ordering is many
    // standard deviations wide.
    for i in 0..4 {
        assert!(counts[i] < counts[i + 1]);
    }
}

#[test]
fn aging_culls_exactly_at_max_age() {
    let td = linear_dataset();
    let mut pop = Population::from_training_data(td, 0, 0);
    pop.set_max_age(3).unwrap();
    let outsider = Individual { genotype: vec![400_000], fitness: 0, age: 9 };
    pop.add_individual(&outsider).unwrap();
    assert_eq!(pop.individuals.len(), 1);
    assert_eq!(pop.individuals[0].age, 0);
    pop.evolve_by_rank();
    assert_eq!(pop.individuals.len(), 1);
    assert_eq!(pop.individuals[0].age, 1);
    pop.evolve_by_rank();
    assert_eq!(pop.individuals.len(), 1);
    assert_eq!(pop.individuals[0].age, 2);
    pop.evolve_by_rank();
    assert_eq!(pop.individuals.len(), 0);
}

#[test]
fn get_best_returns_first_strict_minimum() {
    let td = linear_dataset();
    let mut pop = Population::from_training_data(td, 0, 0);
    pop.add_individual(&Individual { genotype: vec![100_000], fitness: 0, age: 0 }).unwrap();
    pop.add_individual(&Individual { genotype: vec![900_000], fitness: 0, age: 0 }).unwrap();
    pop.add_individual(&Individual { genotype: vec![500_000], fitness: 0, age: 0 }).unwrap();
    // Costs are 12e6 - 6*gene: 11.4e6, 6.6e6, 9e6; the best is the 0.9 gene.
    let best = pop.get_best().unwrap();
    assert_eq!(best.genotype, vec![900_000]);
    assert_eq!(best.fitness, 6_600_000);
}

#[test]
fn get_best_on_empty_population_fails() {
    let pop = Population::new();
    assert_eq!(pop.get_best().unwrap_err(), Error::EmptyPopulation);
}

#[test]
fn offspring_counts_follow_certain_probabilities() {
    let td = linear_dataset();
    let mut pop = Population::from_training_data(td, 5, 4);
    pop.set_max_age(1_000).unwrap();
    pop.set_crossover_chance(SCALE).unwrap();
    pop.set_mutation_chance(0).unwrap();
    pop.evolve_by_rank();
    // Five aged survivors plus exactly four crossover children.
    assert_eq!(pop.individuals.len(), 9);
    pop.set_crossover_chance(0).unwrap();
    pop.set_mutation_chance(SCALE).unwrap();
    pop.evolve_by_rank();
    // Nine survivors plus exactly four mutants.
    assert_eq!(pop.individuals.len(), 13);
    pop.set_mutation_chance(0).unwrap();
    pop.evolve_by_rank();
    // No offspring at all when both probabilities are zero.
    assert_eq!(pop.individuals.len(), 13);
}

#[test]
fn linear_scenario_improves_toward_the_target() {
    let td = linear_dataset();
    let mut pop = Population::from_training_data(td, 20, 10);
    pop.set_crossover_chance(SCALE).unwrap();
    pop.set_mutation_chance(0).unwrap();
    pop.set_max_age(5).unwrap();
    let mut best_ever = pop.get_best().unwrap().fitness;
    let initial_best = best_ever;
    for _ in 0..200 {
        pop.evolve_by_rank();
        if let Ok(best) = pop.get_best() {
            if best.fitness < best_ever {
                best_ever = best.fitness;
            }
        }
    }
    // The best-ever cost never increases, and with genes confined to
    // [-1, 1) the cost 12e6 - 6*gene can approach but not cross 6e6.
    assert!(best_ever <= initial_best);
    assert!(best_ever >= 6_000_000);
    let final_best = pop.get_best().unwrap();
    // Selection pushes the single gene toward the target weight 2.0, so it
    // ends well above the symmetric starting average of zero.
    assert!(final_best.genotype[0] > 0);
}

#[test]
fn predict_value_is_the_dot_product() {
    let td = linear_dataset();
    let ind = individual_with(vec![500_000], &td);
    // 0.5 times 3.0 is 1.5.
    assert_eq!(ind.predict_value(&vec![3_000_000]), 1_500_000);
}

#[test]
fn dup_keeps_age_and_cost() {
    let td = linear_dataset();
    let mut ind = individual_with(vec![123_456], &td);
    ind.age = 4;
    let copy = ind.dup();
    assert_eq!(copy.genotype, ind.genotype);
    assert_eq!(copy.fitness, ind.fitness);
    assert_eq!(copy.age, 4);
    let young = ind.dup_reset();
    assert_eq!(young.genotype, ind.genotype);
    assert_eq!(young.fitness, ind.fitness);
    assert_eq!(young.age, 0);
}

#[test]
fn equality_ignores_cost_and_age() {
    let a = Individual { genotype: vec![1, 2, 3], fitness: 10, age: 1 };
    let b = Individual { genotype: vec![1, 2, 3], fitness: 99, age: 7 };
    let c = Individual { genotype: vec![1, 2, 4], fitness: 10, age: 1 };
    let d = Individual { genotype: vec![1, 2], fitness: 10, age: 1 };
    assert!(a == b);
    assert!(a != c);
    assert!(a != d);
}

#[test]
fn random_individual_draws_unit_genes() {
    let rows: Vec<Vec<i64>> = vec![(1..=101i64).map(|i| i * 1_000).collect()];
    let td = TrainingData::from_vec(rows).unwrap();
    assert_eq!(td.genotype_size, 100);
    let ind = Individual::random(100, &td);
    assert_eq!(ind.genotype.len(), 100);
    for g in &ind.genotype {
        assert!(-SCALE <= *g && *g < SCALE);
    }
    let distinct = {
        let mut sorted = ind.genotype.clone();
        sorted.sort();
        sorted.dedup();
        sorted.len()
    };
    assert!(distinct > 1);
}

#[test]
fn copy_shuffle_permutes_the_indices() {
    let indices: Vec<usize> = (0..20).collect();
    let mut reordered = false;
    for _ in 0..10 {
        let shuffled = evofit::rng::copy_shuffle(&indices);
        let mut sorted = shuffled.clone();
        sorted.sort();
        assert_eq!(sorted, indices);
        if shuffled != indices {
            reordered = true;
        }
    }
    assert!(reordered);
}
