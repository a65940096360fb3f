//! The scorer: total absolute prediction error of a weight vector over a
//! dataset.  Lower is better; zero means a perfect fit.

use vstd::prelude::*;
use crate::fixed::{abs, spec_fxmul, fxmul, GENE_LIMIT, VAL_LIMIT, TERM_LIMIT};
use crate::training::{TrainingData, values_bounded, ROW_LIMIT, COL_LIMIT};

verus! {

/// Bound on one row's absolute residual.
pub const ROW_COST_LIMIT: i128 = 100_000_000_000_000_000_000_000;

/// Bound on a whole dataset's score.
pub const SCORE_LIMIT: i128 = 100_000_000_000_000_000_000_000_000_000_000;

/// Every gene lies within the supported magnitude.
pub open spec fn genes_bounded(g: Seq<i64>) -> bool {
    forall|j: int| 0 <= j < g.len() ==> -GENE_LIMIT <= #[trigger] g[j] <= GENE_LIMIT
}

/// Dot product of the first `n` genes with the first `n` cells of a row,
/// in fixed-point arithmetic.
pub open spec fn spec_dot(g: Seq<i64>, row: Seq<i64>, n: int) -> int
    decreases n,
{
    if n <= 0 {
        0
    } else {
        spec_dot(g, row, n - 1) + spec_fxmul(g[n - 1] as int, row[n - 1] as int)
    }
}

/// One row's cost: the absolute difference between the trailing target cell
/// and the genotype's prediction from the feature cells.
pub open spec fn spec_row_cost(g: Seq<i64>, row: Seq<i64>) -> int {
    abs(row[g.len() as int] as int - spec_dot(g, row, g.len() as int))
}

/// Sum of the costs of the first `n` rows.
pub open spec fn spec_score_upto(g: Seq<i64>, rows: Seq<Seq<i64>>, n: int) -> int
    decreases n,
{
    if n <= 0 {
        0
    } else {
        spec_score_upto(g, rows, n - 1) + spec_row_cost(g, rows[n - 1])
    }
}

/// The score of a genotype against a dataset: the sum over all rows of the
/// absolute prediction error.
pub open spec fn spec_score(g: Seq<i64>, rows: Seq<Seq<i64>>) -> int {
    spec_score_upto(g, rows, rows.len() as int)
}

/// A partial dot product of bounded genes and cells is bounded by the number
/// of terms taken.
pub proof fn lemma_dot_bound(g: Seq<i64>, row: Seq<i64>, n: int)
    requires
        genes_bounded(g),
        values_bounded(row),
        0 <= n <= g.len(),
        n <= row.len(),
    ensures
        abs(spec_dot(g, row, n)) <= n * TERM_LIMIT,
    decreases n,
{
    if n > 0 {
        lemma_dot_bound(g, row, n - 1);
        crate::fixed::lemma_fxmul_bound(g[n - 1] as int, row[n - 1] as int);
        assert((n - 1) * TERM_LIMIT + TERM_LIMIT == n * TERM_LIMIT) by (nonlinear_arith);
    }
}

/// One row's cost is non-negative and bounded.
pub proof fn lemma_row_cost_bound(g: Seq<i64>, row: Seq<i64>)
    requires
        genes_bounded(g),
        values_bounded(row),
        row.len() == g.len() + 1,
        g.len() + 1 <= COL_LIMIT,
    ensures
        0 <= spec_row_cost(g, row) <= ROW_COST_LIMIT,
{
    lemma_dot_bound(g, row, g.len() as int);
    assert(g.len() as int * TERM_LIMIT <= (COL_LIMIT - 1) * TERM_LIMIT) by (nonlinear_arith)
        requires
            0 <= g.len() as int <= COL_LIMIT - 1,
    ;
}

/// A partial score of a well-formed dataset is non-negative and bounded by
/// the number of rows taken.
pub proof fn lemma_score_upto_bound(g: Seq<i64>, td: TrainingData, n: int)
    requires
        td.wf(),
        genes_bounded(g),
        g.len() == td.genotype_size,
        0 <= n <= td.rows().len(),
    ensures
        0 <= spec_score_upto(g, td.rows(), n) <= n * ROW_COST_LIMIT,
    decreases n,
{
    if n > 0 {
        lemma_score_upto_bound(g, td, n - 1);
        lemma_row_cost_bound(g, td.rows()[n - 1]);
        assert((n - 1) * ROW_COST_LIMIT + ROW_COST_LIMIT == n * ROW_COST_LIMIT)
            by (nonlinear_arith);
    }
}

/// The score of a bounded genotype against a well-formed dataset is
/// non-negative and at most [`SCORE_LIMIT`].
pub proof fn lemma_score_bound(g: Seq<i64>, td: TrainingData)
    requires
        td.wf(),
        genes_bounded(g),
        g.len() == td.genotype_size,
    ensures
        0 <= spec_score(g, td.rows()) <= SCORE_LIMIT,
{
    lemma_score_upto_bound(g, td, td.rows().len() as int);
    assert(td.rows().len() as int * ROW_COST_LIMIT <= ROW_LIMIT as int * ROW_COST_LIMIT)
        by (nonlinear_arith)
        requires
            0 <= td.rows().len() as int <= ROW_LIMIT as int,
    ;
}

/// Computes the score of a genotype against a dataset: for each row, the
/// prediction is the fixed-point dot product of the genotype with the row's
/// feature prefix, and the row's cost is the absolute difference from the
/// trailing target; costs are summed over all rows.
pub fn calculate_fitness(genotype: &Vec<i64>, training_data: &TrainingData) -> (cost: i128)
    requires
        training_data.wf(),
        genotype@.len() == training_data.genotype_size,
        genes_bounded(genotype@),
    ensures
        cost == spec_score(genotype@, training_data.rows()),
        0 <= cost <= SCORE_LIMIT,
{
    let ghost g = genotype@;
    let ghost rows = training_data.rows();
    proof {
        lemma_score_bound(g, *training_data);
    }
    let n_genes = genotype.len();
    let mut total: i128 = 0;
    let mut i: usize = 0;
    while i < training_data.data.len()
        invariant
            training_data.wf(),
            g == genotype@,
            rows == training_data.rows(),
            genes_bounded(g),
            g.len() == training_data.genotype_size,
            n_genes == g.len(),
            0 <= i <= rows.len(),
            total == spec_score_upto(g, rows, i as int),
            0 <= total <= SCORE_LIMIT,
        decreases rows.len() - i,
    {
        proof {
            assert(rows[i as int] =~= training_data.data@[i as int]@);
            lemma_row_cost_bound(g, rows[i as int]);
            lemma_score_upto_bound(g, *training_data, i as int);
            lemma_score_upto_bound(g, *training_data, i + 1);
        }
        let row = &training_data.data[i];
        let mut dot: i128 = 0;
        let mut j: usize = 0;
        while j < n_genes
            invariant
                g == genotype@,
                genes_bounded(g),
                values_bounded(row@),
                n_genes == g.len(),
                n_genes + 1 == row@.len(),
                n_genes + 1 <= COL_LIMIT,
                0 <= j <= n_genes,
                dot == spec_dot(g, row@, j as int),
                abs(dot as int) <= j * TERM_LIMIT,
            decreases n_genes - j,
        {
            let term = fxmul(genotype[j], row[j]);
            proof {
                lemma_dot_bound(g, row@, j + 1);
                assert((j as int) * TERM_LIMIT + TERM_LIMIT == (j + 1) * TERM_LIMIT)
                    by (nonlinear_arith);
            }
            dot = dot + (term as i128);
            j = j + 1;
        }
        let target: i128 = row[n_genes] as i128;
        let residual: i128 = if target >= dot {
            target - dot
        } else {
            dot - target
        };
        assert(residual == spec_row_cost(g, rows[i as int]));
        total = total + residual;
        i = i + 1;
    }
    total
}

} // verus!
