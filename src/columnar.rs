//! Row layout of a columnar vector batch.
//!
//! A batch has three columns: a non-null `u64` id, a fixed-size list of `D`
//! single-precision floats (carried as bit patterns) and a nullable UTF-8
//! metadata string. The vectors are stored flattened, row after row, in one
//! buffer of `N * D` values. Encoding a batch into the container format and
//! storing it is done outside this module.
use vstd::prelude::*;
use crate::error::Error;

verus! {

/// A batch of rows ready to be encoded.
#[derive(Debug)]
pub struct VectorBatch {
    /// Length of every vector.
    pub dimension: usize,
    /// The id column.
    pub ids: Vec<u64>,
    /// The vector column, flattened row-major.
    pub values: Vec<u32>,
    /// The metadata column.
    pub metadata: Vec<Option<String>>,
}

/// The rows' vectors laid end to end.
pub open spec fn flatten(vectors: Seq<Vec<u32>>) -> Seq<u32>
    decreases vectors.len(),
{
    if vectors.len() == 0 {
        Seq::empty()
    } else {
        flatten(vectors.drop_last()) + vectors.last()@
    }
}

/// Every vector has `dimension` values.
pub open spec fn all_of_dimension(vectors: Seq<Vec<u32>>, dimension: nat) -> bool {
    forall|i: int| 0 <= i < vectors.len() ==> (#[trigger] vectors[i])@.len() == dimension
}

/// Position of the first vector whose length is not `dimension`.
pub open spec fn first_mismatch(vectors: Seq<Vec<u32>>, dimension: nat, i: int) -> bool {
    &&& 0 <= i < vectors.len()
    &&& vectors[i]@.len() != dimension
    &&& forall|j: int| 0 <= j < i ==> (#[trigger] vectors[j])@.len() == dimension
}

impl VectorBatch {
    /// Number of rows.
    pub open spec fn rows(&self) -> nat {
        self.ids@.len()
    }

    /// Builds a batch from equal-length columns. Columns of different
    /// lengths are an `InvalidConfig` error; otherwise the first vector
    /// whose length is not `dimension` is a `DimensionMismatch`.
    pub fn create(
        dimension: usize,
        ids: Vec<u64>,
        vectors: &Vec<Vec<u32>>,
        metadata: Vec<Option<String>>,
    ) -> (r: Result<VectorBatch, Error>)
        ensures
            ids@.len() != vectors@.len() || ids@.len() != metadata@.len() ==> r matches Err(
                Error::InvalidConfig(_),
            ),
            ids@.len() == vectors@.len() && ids@.len() == metadata@.len() ==> {
                &&& r is Ok <==> all_of_dimension(vectors@, dimension as nat)
                &&& r matches Err(e) ==> exists|i: int|
                    first_mismatch(vectors@, dimension as nat, i) && e == (Error::DimensionMismatch {
                        expected: dimension,
                        actual: vectors@[i]@.len() as usize,
                    })
            },
            r matches Ok(b) ==> {
                &&& b.dimension == dimension
                &&& b.ids@ == ids@
                &&& b.values@ == flatten(vectors@)
                &&& b.metadata@ == metadata@
            },
    {
        if ids.len() != vectors.len() || ids.len() != metadata.len() {
            return Err(Error::InvalidConfig(String::from_str("input columns must have the same length")));
        }
        let mut values: Vec<u32> = Vec::new();
        let mut i: usize = 0;
        while i < vectors.len()
            invariant
                0 <= i <= vectors.len(),
                ids@.len() == vectors@.len() && ids@.len() == metadata@.len(),
                values@ == flatten(vectors@.take(i as int)),
                forall|j: int| 0 <= j < i ==> (#[trigger] vectors@[j])@.len() == dimension,
            decreases vectors.len() - i,
        {
            let v = &vectors[i];
            if v.len() != dimension {
                proof {
                    assert(first_mismatch(vectors@, dimension as nat, i as int));
                }
                return Err(Error::DimensionMismatch { expected: dimension, actual: v.len() });
            }
            let ghost base = values@;
            let mut k: usize = 0;
            while k < v.len()
                invariant
                    0 <= k <= v.len(),
                    values@ == base + v@.take(k as int),
                decreases v.len() - k,
            {
                values.push(v[k]);
                k += 1;
                assert(v@.take(k as int) =~= v@.take(k - 1).push(v@[k - 1]));
            }
            assert(v@.take(v.len() as int) =~= v@);
            i += 1;
            assert(vectors@.take(i as int).drop_last() =~= vectors@.take(i - 1));
        }
        assert(vectors@.take(vectors.len() as int) =~= vectors@);
        Ok(VectorBatch { dimension, ids, values, metadata })
    }

    /// Number of rows.
    pub fn num_rows(&self) -> (r: usize)
        ensures
            r == self.rows(),
    {
        self.ids.len()
    }
}

} // verus!
