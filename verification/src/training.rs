//! The dataset the optimizer scores against: a table of rows, each a feature
//! vector followed by one trailing target value.

use vstd::prelude::*;
use crate::Error;
use crate::fixed::VAL_LIMIT;

verus! {

/// Most rows a dataset may hold.
pub const ROW_LIMIT: usize = 1_000_000_000;

/// Longest row a dataset may hold (features plus the trailing target).
pub const COL_LIMIT: usize = 65_536;

/// Every cell of the row lies within the supported magnitude.
pub open spec fn values_bounded(row: Seq<i64>) -> bool {
    forall|j: int| 0 <= j < row.len() ==> -VAL_LIMIT <= #[trigger] row[j] <= VAL_LIMIT
}

/// All rows have the length of the first, and rows are never empty:
/// each needs at least its trailing target value.
pub open spec fn rows_uniform(rows: Seq<Seq<i64>>) -> bool {
    &&& forall|i: int| 0 <= i < rows.len() ==> (#[trigger] rows[i]).len() == rows[0].len()
    &&& rows.len() > 0 ==> rows[0].len() >= 1
}

/// The table fits the supported sizes and magnitudes.
pub open spec fn rows_within_limits(rows: Seq<Seq<i64>>) -> bool {
    &&& rows.len() <= ROW_LIMIT
    &&& rows.len() > 0 ==> rows[0].len() <= COL_LIMIT
    &&& forall|i: int| 0 <= i < rows.len() ==> values_bounded(#[trigger] rows[i])
}

/// An immutable (after construction) table of rows; the last column of each
/// row is the target, the rest are features, so `genotype_size` is one less
/// than the row length.
#[derive(Debug)]
pub struct TrainingData {
    pub data: Vec<Vec<i64>>,
    pub genotype_size: usize,
}

impl TrainingData {
    /// The table as a mathematical sequence of rows.
    pub open spec fn rows(self) -> Seq<Seq<i64>> {
        self.data.deep_view()
    }

    /// Well-formedness: uniform bounded rows, each one cell longer than the
    /// genotype, and a genotype size that is zero until the first row fixes it.
    pub open spec fn wf(self) -> bool {
        &&& self.rows().len() <= ROW_LIMIT
        &&& self.genotype_size + 1 <= COL_LIMIT
        &&& forall|i: int| 0 <= i < self.rows().len() ==> (#[trigger] self.rows()[i]).len()
            == self.genotype_size + 1
        &&& forall|i: int| 0 <= i < self.rows().len() ==> values_bounded(#[trigger] self.rows()[i])
        &&& self.rows().len() == 0 ==> self.genotype_size == 0
    }

    /// An empty dataset; its genotype size stays zero until a row arrives.
    pub fn new() -> (r: TrainingData)
        ensures
            r.wf(),
            r.rows().len() == 0,
            r.genotype_size == 0,
    {
        TrainingData { data: Vec::new(), genotype_size: 0 }
    }

    /// Builds a dataset from a whole matrix at once.  Rejects a table whose
    /// rows differ in length or are empty (`ShapeMismatch`), and one that
    /// exceeds the supported sizes or magnitudes (`ValueOutOfRange`).
    #[verifier::loop_isolation(false)]
    pub fn from_vec(data: Vec<Vec<i64>>) -> (r: Result<TrainingData, Error>)
        ensures
            !rows_uniform(data.deep_view()) ==> r == Err::<TrainingData, Error>(
                Error::ShapeMismatch,
            ),
            rows_uniform(data.deep_view()) && !rows_within_limits(data.deep_view()) ==> r
                == Err::<TrainingData, Error>(Error::ValueOutOfRange),
            rows_uniform(data.deep_view()) && rows_within_limits(data.deep_view()) ==> {
                &&& r is Ok
                &&& r->Ok_0.wf()
                &&& r->Ok_0.rows() == data.deep_view()
                &&& r->Ok_0.genotype_size + 1 == if data.deep_view().len() == 0 {
                    1int
                } else {
                    data.deep_view()[0].len() as int
                }
            },
    {
        let ghost rows = data.deep_view();
        proof {
            assert forall|k: int| 0 <= k < rows.len() implies rows[k] =~= data@[k]@ by {
            }
        }
        if data.len() == 0 {
            return Ok(TrainingData { data, genotype_size: 0 });
        }
        let first_len = data[0].len();
        if first_len == 0 {
            return Err(Error::ShapeMismatch);
        }
        let mut i: usize = 0;
        while i < data.len()
            invariant
                0 <= i <= data.len(),
                rows == data.deep_view(),
                rows.len() == data.len(),
                data.len() > 0,
                first_len == rows[0].len(),
                first_len >= 1,
                forall|k: int| 0 <= k < i ==> (#[trigger] rows[k]).len() == first_len,
            decreases data.len() - i,
        {
            assert(rows[i as int] =~= data@[i as int]@);
            if data[i].len() != first_len {
                return Err(Error::ShapeMismatch);
            }
            i = i + 1;
        }
        assert(rows_uniform(rows));
        if data.len() > ROW_LIMIT || first_len > COL_LIMIT {
            return Err(Error::ValueOutOfRange);
        }
        let mut i: usize = 0;
        while i < data.len()
            invariant
                0 <= i <= data.len(),
                rows == data.deep_view(),
                rows.len() == data.len(),
                forall|k: int| 0 <= k < rows.len() ==> (#[trigger] rows[k]).len() == first_len,
                forall|k: int| 0 <= k < i ==> values_bounded(#[trigger] rows[k]),
            decreases data.len() - i,
        {
            assert(rows[i as int] =~= data@[i as int]@);
            let row = &data[i];
            let mut j: usize = 0;
            while j < row.len()
                invariant
                    0 <= j <= row.len(),
                    forall|l: int| 0 <= l < j ==> -VAL_LIMIT <= #[trigger] row@[l] <= VAL_LIMIT,
                decreases row.len() - j,
            {
                if row[j] < -VAL_LIMIT || row[j] > VAL_LIMIT {
                    return Err(Error::ValueOutOfRange);
                }
                j = j + 1;
            }
            assert(values_bounded(rows[i as int]));
            i = i + 1;
        }
        assert(rows_within_limits(rows));
        Ok(TrainingData { data, genotype_size: first_len - 1 })
    }

    /// Appends one row.  The first row fixes the genotype size; later rows
    /// must match it exactly (`ShapeMismatch`), and every row must fit the
    /// supported sizes and magnitudes (`ValueOutOfRange`).
    #[verifier::loop_isolation(false)]
    pub fn add_row(&mut self, row: Vec<i64>) -> (r: Result<(), Error>)
        requires
            old(self).wf(),
        ensures
            final(self).wf(),
            ({
                let fits_shape = if old(self).rows().len() == 0 {
                    row@.len() >= 1
                } else {
                    row@.len() == old(self).genotype_size + 1
                };
                let fits_limits = row@.len() <= COL_LIMIT && values_bounded(row@)
                    && old(self).rows().len() + 1 <= ROW_LIMIT;
                &&& !fits_shape ==> r == Err::<(), Error>(Error::ShapeMismatch) && *final(self)
                    == *old(self)
                &&& fits_shape && !fits_limits ==> r == Err::<(), Error>(Error::ValueOutOfRange)
                    && *final(self) == *old(self)
                &&& fits_shape && fits_limits ==> {
                    &&& r is Ok
                    &&& final(self).rows() == old(self).rows().push(row@)
                    &&& final(self).genotype_size + 1 == row@.len()
                }
            }),
    {
        let is_first = self.data.len() == 0;
        if is_first {
            if row.len() == 0 {
                return Err(Error::ShapeMismatch);
            }
        } else {
            if row.len() != self.genotype_size + 1 {
                return Err(Error::ShapeMismatch);
            }
        }
        if row.len() > COL_LIMIT || self.data.len() >= ROW_LIMIT {
            return Err(Error::ValueOutOfRange);
        }
        let mut j: usize = 0;
        while j < row.len()
            invariant
                0 <= j <= row.len(),
                forall|l: int| 0 <= l < j ==> -VAL_LIMIT <= #[trigger] row@[l] <= VAL_LIMIT,
            decreases row.len() - j,
        {
            if row[j] < -VAL_LIMIT || row[j] > VAL_LIMIT {
                return Err(Error::ValueOutOfRange);
            }
            j = j + 1;
        }
        assert(values_bounded(row@));
        let ghost old_rows = self.rows();
        if is_first {
            self.genotype_size = row.len() - 1;
        }
        self.data.push(row);
        proof {
            assert(self.rows() =~~= old_rows.push(row@));
        }
        Ok(())
    }
}

} // verus!
