//! A vector record: a fixed-length sequence of IEEE-754 double bit
//! patterns plus an ordered list of metadata entries. Immutable once built.

use vstd::prelude::*;

use crate::meta::{EntryModel, MetadataEntry};

verus! {

/// One record of a collection. `data` holds the bit patterns of the
/// record's 64-bit float components, in order.
#[derive(Clone, Debug)]
pub struct Vector {
    pub data: Vec<u64>,
    pub metadata: Vec<MetadataEntry>,
}

/// The mathematical shape of a `Vector`.
#[verifier::ext_equal]
pub struct RecordModel {
    pub values: Seq<u64>,
    pub meta: Seq<EntryModel>,
}

impl View for Vector {
    type V = RecordModel;

    open spec fn view(&self) -> RecordModel {
        RecordModel {
            values: self.data@,
            meta: self.metadata@.map_values(|e: MetadataEntry| e@),
        }
    }
}

impl Vector {
    pub fn new(data: Vec<u64>, metadata: Vec<MetadataEntry>) -> (r: Self)
        ensures
            r@.values == data@,
            r@.meta == metadata@.map_values(|e: MetadataEntry| e@),
    {
        Vector { data, metadata }
    }

    pub fn data(&self) -> (r: &Vec<u64>)
        ensures
            r@ == self@.values,
    {
        &self.data
    }

    pub fn metadata(&self) -> (r: &Vec<MetadataEntry>)
        ensures
            r@.map_values(|e: MetadataEntry| e@) == self@.meta,
    {
        &self.metadata
    }

    /// The number of components, which insertion holds to the owning
    /// collection's dimension.
    pub fn len(&self) -> (r: usize)
        ensures
            r == self@.values.len(),
    {
        self.data.len()
    }
}

} // verus!
