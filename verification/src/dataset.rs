//! Dense datasets of equal-length vectors, and single-vector views.
//!
//! A `DenseDataset` maps a dense index `0..size` to a vector; its invariant
//! is that every stored vector has exactly the store's declared
//! dimensionality, and `append` rejects a vector of any other length.

use vstd::prelude::*;

use crate::error::ErrorKind;
use crate::error::ScannError;
use crate::error::invalid_argument_error;

verus! {

/// A dense collection of vectors, all of the declared dimensionality once
/// `is_well_formed` holds.
#[derive(Clone, Debug)]
pub struct DenseDataset<T> {
    pub data: Vec<Vec<T>>,
    pub dimensionality: usize,
}

impl<T> View for DenseDataset<T> {
    type V = Seq<Seq<T>>;

    open spec fn view(&self) -> Seq<Seq<T>> {
        Seq::new(self.data@.len(), |i: int| self.data@[i]@)
    }
}

impl<T: Copy> DenseDataset<T> {
    /// True when every stored row has exactly the declared dimensionality.
    pub open spec fn is_well_formed(&self) -> bool {
        forall|i: int| 0 <= i < self@.len() ==> (#[trigger] self@[i]).len() == self.dimensionality
    }

    /// Wraps existing rows together with a declared dimensionality.
    pub fn new(data: Vec<Vec<T>>, dimensionality: usize) -> (r: Self)
        ensures
            r@ == Seq::new(data@.len(), |i: int| data@[i]@),
            r.dimensionality == dimensionality,
    {
        DenseDataset { data, dimensionality }
    }

    /// An empty store of the given dimensionality; trivially well formed.
    pub fn with_dimensionality(dimensionality: usize) -> (r: Self)
        ensures
            r@.len() == 0,
            r.dimensionality == dimensionality,
            r.is_well_formed(),
    {
        DenseDataset { data: Vec::new(), dimensionality }
    }

    /// Redeclares the dimensionality; the stored rows are untouched.
    pub fn set_dimensionality(&mut self, dim: usize)
        ensures
            final(self).dimensionality == dim,
            final(self)@ == old(self)@,
    {
        self.dimensionality = dim;
    }

    /// Pre-allocates room for `size` more rows; the contents are untouched.
    pub fn reserve(&mut self, size: usize)
        ensures
            final(self)@ == old(self)@,
            final(self).dimensionality == old(self).dimensionality,
    {
        self.data.reserve(size);
    }

    /// Appends one vector. Fails with `InvalidArgument`, leaving the store
    /// unchanged, exactly when the vector's length differs from the
    /// declared dimensionality.
    pub fn append(&mut self, values: &[T], _docid: &str) -> (r: Result<(), ScannError>)
        ensures
            values@.len() == old(self).dimensionality ==> (r is Ok && final(self)@ == old(
                self,
            )@.push(values@)),
            values@.len() != old(self).dimensionality ==> (r matches Err(e)
                && e.kind == ErrorKind::InvalidArgument && final(self)@ == old(self)@),
            final(self).dimensionality == old(self).dimensionality,
            old(self).is_well_formed() ==> final(self).is_well_formed(),
    {
        if values.len() != self.dimensionality {
            return Err(invalid_argument_error(
                "Dimension mismatch: appended vector length differs from the store's dimensionality",
            ));
        }
        let mut row: Vec<T> = Vec::new();
        let ghost prev = self@;
        let n = values.len();
        let mut i: usize = 0;
        while i < n
            invariant
                i <= n,
                n == values@.len(),
                row@ == values@.subrange(0, i as int),
            decreases n - i,
        {
            row.push(values[i]);
            proof {
                assert(row@ =~= values@.subrange(0, i + 1));
            }
            i += 1;
        }
        proof {
            assert(row@ =~= values@);
        }
        self.data.push(row);
        proof {
            assert(self@ =~= prev.push(values@));
        }
        Ok(())
    }

    /// The number of stored vectors.
    pub fn size(&self) -> (n: usize)
        ensures
            n == self@.len(),
    {
        self.data.len()
    }

    /// The declared dimensionality.
    pub fn dimensionality(&self) -> (d: usize)
        ensures
            d == self.dimensionality,
    {
        self.dimensionality
    }

    /// A borrowed view of row `index`.
    pub fn row(&self, index: usize) -> (r: &Vec<T>)
        requires
            index < self@.len(),
        ensures
            r@ == self@[index as int],
    {
        &self.data[index]
    }
}

/// A single vector's components, passed without copying the store.
#[derive(Clone, Debug)]
pub struct DatapointPtr<T> {
    pub values: Vec<T>,
}

impl<T> View for DatapointPtr<T> {
    type V = Seq<T>;

    open spec fn view(&self) -> Seq<T> {
        self.values@
    }
}

impl<T: Copy> DatapointPtr<T> {
    /// Wraps a component vector.
    pub fn new(values: Vec<T>) -> (r: Self)
        ensures
            r@ == values@,
    {
        DatapointPtr { values }
    }

    /// The components as a slice.
    pub fn values(&self) -> (r: &[T])
        ensures
            r@ == self@,
    {
        self.values.as_slice()
    }
}

} // verus!
