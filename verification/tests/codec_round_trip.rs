use evofit::codec::{
    decode_individual, decode_population, decode_training, encode_individual,
    encode_population, encode_training,
};
use evofit::individual::Individual;
use evofit::population::Population;
use evofit::score::calculate_fitness;
use evofit::training::TrainingData;
use evofit::Error;

fn sample_dataset() -> TrainingData {
    TrainingData::from_vec(vec![
        vec![1_000_000, 2_000_000],
        vec![2_000_000, 4_000_000],
        vec![3_000_000, 6_000_000],
    ])
    .unwrap()
}

#[test]
fn individual_round_trip() {
    let td = sample_dataset();
    let genes = vec![-123_456, 999_999];
    let mut ind = Individual { genotype: vec![314_159], fitness: 0, age: 5 };
    ind.fitness = calculate_fitness(&ind.genotype, &td);
    let words = encode_individual(&ind);
    let back = decode_individual(&words).unwrap();
    assert_eq!(back.genotype, ind.genotype);
    assert_eq!(back.fitness, ind.fitness);
    assert_eq!(back.age, ind.age);
    let other = Individual { genotype: genes, fitness: -7, age: 0 };
    let back2 = decode_individual(&encode_individual(&other)).unwrap();
    assert_eq!(back2.genotype, other.genotype);
    assert_eq!(back2.fitness, other.fitness);
    assert_eq!(back2.age, other.age);
}

#[test]
fn individual_encoding_layout_is_exact() {
    let ind = Individual { genotype: vec![5, -6], fitness: 7, age: 2 };
    // Gene count, genes, cost, age.
    assert_eq!(encode_individual(&ind), vec![2, 5, -6, 7, 2]);
    let td = TrainingData::from_vec(vec![vec![3, 4], vec![5, 6]]).unwrap();
    // Genotype size, row count, then each row as cell count and cells.
    assert_eq!(encode_training(&td), vec![1, 2, 2, 3, 4, 2, 5, 6]);
}

#[test]
fn individual_decode_rejects_malformed() {
    // Truncated stream: claims two genes but carries none.
    assert_eq!(decode_individual(&vec![2]).unwrap_err(), Error::MalformedInput);
    // A gene beyond the supported magnitude.
    assert_eq!(
        decode_individual(&vec![1, 2_000_000_000_000_000, 0, 0]).unwrap_err(),
        Error::MalformedInput
    );
    // Trailing garbage after a complete individual.
    assert_eq!(
        decode_individual(&vec![1, 5, 0, 0, 42]).unwrap_err(),
        Error::MalformedInput
    );
    // A negative age.
    assert_eq!(decode_individual(&vec![1, 5, 0, -1]).unwrap_err(), Error::MalformedInput);
}

#[test]
fn training_round_trip() {
    let td = sample_dataset();
    let words = encode_training(&td);
    let back = decode_training(&words).unwrap();
    assert_eq!(back.genotype_size, td.genotype_size);
    assert_eq!(back.data, td.data);
    let empty = TrainingData::new();
    let back2 = decode_training(&encode_training(&empty)).unwrap();
    assert_eq!(back2.genotype_size, 0);
    assert_eq!(back2.data.len(), 0);
}

#[test]
fn training_decode_rejects_malformed() {
    // Row count claims more rows than the stream holds.
    assert_eq!(decode_training(&vec![1, 2, 2, 5, 5]).unwrap_err(), Error::MalformedInput);
    // Rows of differing lengths cannot come from a well-formed dataset.
    assert_eq!(
        decode_training(&vec![1, 2, 2, 5, 5, 1, 7]).unwrap_err(),
        Error::MalformedInput
    );
}

#[test]
fn population_round_trip() {
    let td = sample_dataset();
    let mut pop = Population::from_training_data(td, 4, 2);
    pop.set_crossover_chance(750_000).unwrap();
    pop.set_mutation_chance(250_000).unwrap();
    pop.set_max_age(9).unwrap();
    pop.set_header(vec![b"feature".to_vec(), b"target".to_vec()]);
    pop.evolve_by_rank();
    let words = encode_population(&pop);
    let back = decode_population(&words).unwrap();
    assert_eq!(back.individuals.len(), pop.individuals.len());
    for (x, y) in back.individuals.iter().zip(pop.individuals.iter()) {
        assert_eq!(x.genotype, y.genotype);
        assert_eq!(x.fitness, y.fitness);
        assert_eq!(x.age, y.age);
    }
    assert_eq!(back.best.genotype, pop.best.genotype);
    assert_eq!(back.training_data.data, pop.training_data.data);
    assert_eq!(back.training_data.genotype_size, pop.training_data.genotype_size);
    assert_eq!(back.header, pop.header);
    assert_eq!(back.max_children_size, 2);
    assert_eq!(back.genotype_size, 1);
    assert_eq!(back.crossover_chance, 750_000);
    assert_eq!(back.mutation_chance, 250_000);
    assert_eq!(back.max_age, 9);
}

#[test]
fn population_decode_rejects_tampered_cost() {
    let td = sample_dataset();
    let pop = Population::from_training_data(td, 1, 0);
    let mut words = encode_population(&pop);
    // The lone individual's stored cost hides behind the dataset, the best
    // slot and its own gene; corrupt it and the decoder must notice that
    // the cost is no longer the scorer's value.
    let n = words.len();
    words[n - 3] += 1;
    assert_eq!(decode_population(&words).unwrap_err(), Error::MalformedInput);
}
