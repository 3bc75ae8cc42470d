//! A collection store: a named, dimension-typed, append-only sequence of
//! vector records.

use vstd::prelude::*;
use vstd::string::StringExecFns;

use crate::errors::EngineError;
use crate::meta::{EntryModel, MetadataEntry, MetadataValue, Timestamp, ValueModel};
use crate::record::{RecordModel, Vector};

verus! {

/// A named collection. The dimension is fixed at creation; every record
/// held has exactly that many components.
#[derive(Debug)]
pub struct Database {
    pub name: String,
    pub dimension: usize,
    pub vectors: Vec<Vector>,
}

/// The mathematical shape of a `Database`.
#[verifier::ext_equal]
pub struct StoreModel {
    pub name: Seq<char>,
    pub dimension: int,
    pub records: Seq<RecordModel>,
}

impl View for Database {
    type V = StoreModel;

    open spec fn view(&self) -> StoreModel {
        StoreModel {
            name: self.name@,
            dimension: self.dimension as int,
            records: self.vectors@.map_values(|v: Vector| v@),
        }
    }
}

/// Well-formedness: every record's length equals the dimension.
pub open spec fn store_wf(s: StoreModel) -> bool {
    forall|i: int| 0 <= i < s.records.len() ==> (#[trigger] s.records[i]).values.len() == s.dimension
}

/// The metadata entry that the standard write path injects.
pub open spec fn spec_created_at_entry(t: Timestamp) -> EntryModel {
    EntryModel { key: "created_at"@, value: ValueModel::DateTime(t.secs, t.nanos) }
}

/// A caller row with the write path's `created_at` stamp appended.
pub open spec fn spec_stamped_record(values: Seq<u64>, meta: Seq<EntryModel>, ts: Timestamp) -> RecordModel {
    RecordModel { values, meta: meta.push(spec_created_at_entry(ts)) }
}

/// A store after the standard write path appended one stamped record.
pub open spec fn spec_after_insert(
    st: StoreModel,
    values: Seq<u64>,
    meta: Seq<EntryModel>,
    ts: Timestamp,
) -> StoreModel {
    StoreModel {
        name: st.name,
        dimension: st.dimension,
        records: st.records.push(spec_stamped_record(values, meta, ts)),
    }
}

/// The key under which the write path records the creation instant.
pub fn created_at_key() -> (r: String)
    ensures
        r@ == "created_at"@,
{
    String::from_str("created_at")
}

impl Database {
    /// A fresh, empty collection. The dimension is taken as given; zero is
    /// permitted, as the write path is permissive about it.
    pub fn new(name: String, dimension: usize) -> (r: Self)
        ensures
            r@.name == name@,
            r@.dimension == dimension as int,
            r@.records == Seq::<RecordModel>::empty(),
            store_wf(r@),
    {
        let r = Database { name, dimension, vectors: Vec::new() };
        proof {
            assert(r@.records =~= Seq::<RecordModel>::empty());
        }
        r
    }

    pub fn len(&self) -> (r: usize)
        ensures
            r == self@.records.len(),
    {
        self.vectors.len()
    }

    /// Appends a record. Fails with `DimensionMismatch`, leaving the store
    /// unchanged, exactly when the record's length is not the dimension.
    pub fn insert(&mut self, vector: Vector) -> (r: Result<(), EngineError>)
        requires
            store_wf(old(self)@),
        ensures
            store_wf(final(self)@),
            final(self)@.name == old(self)@.name,
            final(self)@.dimension == old(self)@.dimension,
            match r {
                Ok(()) => {
                    &&& vector@.values.len() == old(self)@.dimension
                    &&& final(self)@.records == old(self)@.records.push(vector@)
                },
                Err(e) => {
                    &&& e == EngineError::DimensionMismatch
                    &&& vector@.values.len() != old(self)@.dimension
                    &&& final(self)@ == old(self)@
                },
            },
    {
        let ghost pre = self@;
        if vector.len() != self.dimension {
            return Err(EngineError::DimensionMismatch);
        }
        let ghost v = vector@;
        self.vectors.push(vector);
        proof {
            assert(self@.records =~= pre.records.push(v));
        }
        Ok(())
    }

    /// Appends a record built from raw components and caller metadata, with
    /// a system-injected `created_at` entry holding the given instant. This
    /// is the standard write path.
    pub fn insert_stamped(
        &mut self,
        data: Vec<u64>,
        metadata: Vec<MetadataEntry>,
        created_at: Timestamp,
    ) -> (r: Result<(), EngineError>)
        requires
            store_wf(old(self)@),
        ensures
            store_wf(final(self)@),
            final(self)@.name == old(self)@.name,
            final(self)@.dimension == old(self)@.dimension,
            match r {
                Ok(()) => {
                    &&& data@.len() == old(self)@.dimension
                    &&& final(self)@.records == old(self)@.records.push(
                        RecordModel {
                            values: data@,
                            meta: metadata@.map_values(|e: MetadataEntry| e@).push(
                                spec_created_at_entry(created_at),
                            ),
                        },
                    )
                },
                Err(e) => {
                    &&& e == EngineError::DimensionMismatch
                    &&& data@.len() != old(self)@.dimension
                    &&& final(self)@ == old(self)@
                },
            },
    {
        let mut stamped = metadata;
        let ghost caller_meta = stamped@;
        stamped.push(MetadataEntry::new(created_at_key(), MetadataValue::DateTime(created_at)));
        proof {
            assert(stamped@.map_values(|e: MetadataEntry| e@) =~= caller_meta.map_values(
                |e: MetadataEntry| e@,
            ).push(spec_created_at_entry(created_at)));
        }
        let vector = Vector::new(data, stamped);
        self.insert(vector)
    }
}

} // verus!
