use evofit::fixed::SCALE;
use evofit::individual::Individual;
use evofit::population::Population;
use evofit::training::TrainingData;
use evofit::Error;

fn small_dataset() -> TrainingData {
    TrainingData::from_vec(vec![vec![1_000_000, 2_000_000], vec![2_000_000, 4_000_000]])
        .unwrap()
}

#[test]
fn from_vec_rejects_ragged_and_empty_rows() {
    let ragged = TrainingData::from_vec(vec![vec![1, 2], vec![3]]);
    assert_eq!(ragged.unwrap_err(), Error::ShapeMismatch);
    let empty_row = TrainingData::from_vec(vec![vec![]]);
    assert_eq!(empty_row.unwrap_err(), Error::ShapeMismatch);
    let no_rows = TrainingData::from_vec(vec![]).unwrap();
    assert_eq!(no_rows.genotype_size, 0);
}

#[test]
fn from_vec_rejects_oversized_values() {
    let huge = TrainingData::from_vec(vec![vec![2_000_000_000_000, 1]]);
    assert_eq!(huge.unwrap_err(), Error::ValueOutOfRange);
}

#[test]
fn add_row_fixes_the_genotype_size() {
    let mut td = TrainingData::new();
    td.add_row(vec![1, 2, 3]).unwrap();
    assert_eq!(td.genotype_size, 2);
    assert_eq!(td.add_row(vec![4, 5]).unwrap_err(), Error::ShapeMismatch);
    assert_eq!(td.add_row(vec![]).unwrap_err(), Error::ShapeMismatch);
    assert_eq!(
        td.add_row(vec![1, 2, -3_000_000_000_000]).unwrap_err(),
        Error::ValueOutOfRange
    );
    td.add_row(vec![4, 5, 6]).unwrap();
    assert_eq!(td.data.len(), 2);
}

#[test]
fn add_individual_checks_shape_and_range() {
    let mut pop = Population::from_training_data(small_dataset(), 0, 0);
    let wrong_len = Individual { genotype: vec![1, 2], fitness: 0, age: 0 };
    assert_eq!(pop.add_individual(&wrong_len).unwrap_err(), Error::ShapeMismatch);
    let huge_gene = Individual { genotype: vec![5_000_000_000_000], fitness: 0, age: 0 };
    assert_eq!(pop.add_individual(&huge_gene).unwrap_err(), Error::ValueOutOfRange);
    let fine = Individual { genotype: vec![250_000], fitness: 77, age: 3 };
    pop.add_individual(&fine).unwrap();
    // Inserted as a re-scored copy, age reset to zero.
    assert_eq!(pop.individuals.len(), 1);
    assert_eq!(pop.individuals[0].age, 0);
    assert_ne!(pop.individuals[0].fitness, 77);
}

#[test]
fn configuration_is_validated() {
    let mut pop = Population::new();
    assert_eq!(pop.set_crossover_chance(-1).unwrap_err(), Error::InvalidConfig);
    assert_eq!(pop.set_crossover_chance(SCALE + 1).unwrap_err(), Error::InvalidConfig);
    assert_eq!(pop.set_mutation_chance(-5).unwrap_err(), Error::InvalidConfig);
    assert_eq!(pop.set_max_age(0).unwrap_err(), Error::InvalidConfig);
    pop.set_crossover_chance(SCALE).unwrap();
    pop.set_mutation_chance(0).unwrap();
    pop.set_max_age(12).unwrap();
    assert_eq!(pop.crossover_chance, SCALE);
    assert_eq!(pop.mutation_chance, 0);
    assert_eq!(pop.max_age, 12);
}

#[test]
fn set_max_children_size_touches_only_the_quota() {
    let mut pop = Population::new();
    let age_before = pop.max_age;
    pop.set_max_children_size(42);
    assert_eq!(pop.max_children_size, 42);
    assert_eq!(pop.max_age, age_before);
}

#[test]
fn set_header_carries_labels_only() {
    let mut pop = Population::new();
    pop.set_header(vec![b"alpha".to_vec(), b"beta".to_vec()]);
    assert_eq!(pop.header.len(), 2);
    assert_eq!(pop.header[0], b"alpha".to_vec());
}

#[test]
fn set_training_data_rescores_or_rejects() {
    let mut pop = Population::from_training_data(small_dataset(), 0, 0);
    pop.add_individual(&Individual { genotype: vec![500_000], fitness: 0, age: 0 }).unwrap();
    let old_cost = pop.individuals[0].fitness;
    // Same shape, different targets: all individuals are re-scored.
    let other = TrainingData::from_vec(vec![vec![1_000_000, 3_000_000]]).unwrap();
    pop.set_training_data(other).unwrap();
    assert_ne!(pop.individuals[0].fitness, old_cost);
    assert_eq!(pop.individuals[0].fitness, 2_500_000);
    // A dataset of another genotype size cannot replace it while
    // individuals are live.
    let wider =
        TrainingData::from_vec(vec![vec![1_000_000, 1_000_000, 3_000_000]]).unwrap();
    assert_eq!(pop.set_training_data(wider).unwrap_err(), Error::ShapeMismatch);
}
