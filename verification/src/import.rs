//! Bulk import batching: rows arrive one at a time, already coerced to
//! plain values by the caller; the importer appends them to a pending
//! batch, stamps each with `created_at`, counts imported and skipped rows
//! exactly, and hands back a full shard snapshot every time the batch
//! reaches the configured size (and once more for the final partial
//! batch). Writing the shard files is the caller's part.

use vstd::prelude::*;

use crate::clock::now_timestamp;
use crate::codec::{encode_store, spec_enc_store, store_fits};
use crate::meta::MetadataEntry;
use crate::record::RecordModel;
use crate::store::{spec_after_insert, store_wf, Database};

verus! {

/// What became of one offered row.
pub enum RowOutcome {
    /// The row joined the pending batch.
    Accepted,
    /// The row joined the batch, which thereby reached the batch size:
    /// the bytes are the finished shard's durable form, and the pending
    /// batch is empty again.
    AcceptedFlush(Vec<u8>),
    /// The row's value count is not the collection's dimension; it was
    /// skipped and counted, and nothing else changed.
    SkippedMismatch,
}

/// The import state: the pending batch plus exact accounting.
pub struct BulkImporter {
    /// The pending batch, holding the rows not yet written to any shard.
    pub store: Database,
    /// Rows per shard file; a full batch triggers a flush.
    pub batch_size: usize,
    /// Rows accepted so far, flushed or pending.
    pub imported: usize,
    /// Rows refused so far (coercion failures counted by the caller via
    /// `skip_row`, and dimension mismatches counted here).
    pub skipped: usize,
    /// Rows already handed out in finished shards.
    pub flushed: usize,
    /// Shards handed out so far.
    pub shards: usize,
}

/// The importer's books balance: every accepted row is either already in
/// a shard or still pending, and the pending batch is a well-formed store
/// strictly under the batch size.
pub open spec fn importer_wf(b: BulkImporter) -> bool {
    &&& store_wf(b.store@)
    &&& b.imported == b.flushed + b.store@.records.len()
    &&& (b.store@.records.len() < b.batch_size || b.store@.records.len() == 0)
}

impl BulkImporter {
    /// A fresh importer for one target collection.
    pub fn new(name: String, dimension: usize, batch_size: usize) -> (r: Self)
        ensures
            importer_wf(r),
            r.store@.name == name@,
            r.store@.dimension == dimension as int,
            r.store@.records == Seq::<RecordModel>::empty(),
            r.batch_size == batch_size,
            r.imported == 0,
            r.skipped == 0,
            r.flushed == 0,
            r.shards == 0,
    {
        BulkImporter {
            store: Database::new(name, dimension),
            batch_size,
            imported: 0,
            skipped: 0,
            flushed: 0,
            shards: 0,
        }
    }

    /// Counts a row the caller could not coerce; the import continues.
    pub fn skip_row(&mut self)
        requires
            importer_wf(*old(self)),
            old(self).skipped < usize::MAX,
        ensures
            importer_wf(*final(self)),
            *final(self) == (BulkImporter { skipped: (old(self).skipped + 1) as usize, ..*old(self) }),
    {
        self.skipped = self.skipped + 1;
    }

    /// Offers one coerced row. A row of the wrong dimension is skipped
    /// and counted; an accepted row is stamped with `created_at` and
    /// appended, and when the batch reaches the configured size its full
    /// snapshot is returned for the caller to write as a shard file.
    pub fn push_row(&mut self, data: Vec<u64>, meta: Vec<MetadataEntry>) -> (r: RowOutcome)
        requires
            importer_wf(*old(self)),
            old(self).imported < usize::MAX,
            old(self).skipped < usize::MAX,
            old(self).shards < usize::MAX,
        ensures
            importer_wf(*final(self)),
            final(self).batch_size == old(self).batch_size,
            final(self).store@.name == old(self).store@.name,
            final(self).store@.dimension == old(self).store@.dimension,
            match r {
                RowOutcome::SkippedMismatch => {
                    &&& data@.len() != old(self).store@.dimension
                    &&& *final(self) == (BulkImporter {
                        skipped: (old(self).skipped + 1) as usize,
                        ..*old(self)
                    })
                },
                RowOutcome::Accepted => {
                    &&& data@.len() == old(self).store@.dimension
                    &&& final(self).imported == old(self).imported + 1
                    &&& final(self).skipped == old(self).skipped
                    &&& final(self).flushed == old(self).flushed
                    &&& final(self).shards == old(self).shards
                    &&& exists|ts: crate::meta::Timestamp|
                        #![trigger crate::store::spec_created_at_entry(ts)]
                        final(self).store@ == spec_after_insert(
                            old(self).store@,
                            data@,
                            meta@.map_values(|e: MetadataEntry| e@),
                            ts,
                        )
                },
                RowOutcome::AcceptedFlush(bytes) => {
                    &&& data@.len() == old(self).store@.dimension
                    &&& final(self).imported == old(self).imported + 1
                    &&& final(self).skipped == old(self).skipped
                    &&& final(self).shards == old(self).shards + 1
                    &&& final(self).flushed == old(self).flushed + old(
                        self,
                    ).store@.records.len() + 1
                    &&& final(self).store@.records == Seq::<RecordModel>::empty()
                    &&& exists|ts: crate::meta::Timestamp|
                        #![trigger crate::store::spec_created_at_entry(ts)]
                        bytes@ == spec_enc_store(
                            spec_after_insert(
                                old(self).store@,
                                data@,
                                meta@.map_values(|e: MetadataEntry| e@),
                                ts,
                            ),
                        ) && store_fits(
                            spec_after_insert(
                                old(self).store@,
                                data@,
                                meta@.map_values(|e: MetadataEntry| e@),
                                ts,
                            ),
                        ) && store_wf(
                            spec_after_insert(
                                old(self).store@,
                                data@,
                                meta@.map_values(|e: MetadataEntry| e@),
                                ts,
                            ),
                        )
                },
            },
    {
        if data.len() != self.store.dimension {
            self.skipped = self.skipped + 1;
            return RowOutcome::SkippedMismatch;
        }
        let stamp = now_timestamp();
        let ghost pre_records = self.store@.records;
        match self.store.insert_stamped(data, meta, stamp) {
            Ok(()) => {},
            Err(_) => {
                proof {
                    assert(false);
                }
            },
        }
        self.imported = self.imported + 1;
        if self.store.len() >= self.batch_size {
            let bytes = encode_store(&self.store);
            let ghost full = self.store@;
            let flushed_count = self.store.len();
            self.store.vectors.truncate(0);
            self.flushed = self.flushed + flushed_count;
            self.shards = self.shards + 1;
            proof {
                assert(self.store@.records =~= Seq::<RecordModel>::empty());
                assert(full.records == pre_records.push(full.records.last()));
            }
            RowOutcome::AcceptedFlush(bytes)
        } else {
            RowOutcome::Accepted
        }
    }

    /// Closes the import: the final partial batch's snapshot, if any rows
    /// are still pending, to be written as the last shard file.
    pub fn finish(&mut self) -> (r: Option<Vec<u8>>)
        requires
            importer_wf(*old(self)),
            old(self).shards < usize::MAX,
        ensures
            importer_wf(*final(self)),
            final(self).imported == old(self).imported,
            final(self).skipped == old(self).skipped,
            final(self).store@.records == Seq::<RecordModel>::empty() || r is None,
            match r {
                Some(bytes) => {
                    &&& old(self).store@.records.len() > 0
                    &&& final(self).flushed == old(self).flushed + old(self).store@.records.len()
                    &&& final(self).shards == old(self).shards + 1
                    &&& bytes@ == spec_enc_store(old(self).store@)
                    &&& store_fits(old(self).store@)
                    &&& store_wf(old(self).store@)
                },
                None => {
                    &&& old(self).store@.records.len() == 0
                    &&& *final(self) == *old(self)
                },
            },
    {
        if self.store.len() == 0 {
            return None;
        }
        let bytes = encode_store(&self.store);
        let flushed_count = self.store.len();
        self.store.vectors.truncate(0);
        self.flushed = self.flushed + flushed_count;
        self.shards = self.shards + 1;
        proof {
            assert(self.store@.records =~= Seq::<RecordModel>::empty());
        }
        Some(bytes)
    }
}

} // verus!
