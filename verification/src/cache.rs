//! The cache layer: a table from collection name to a resident store with
//! access tracking and a dirty flag, plus the byte-budget- and age-based
//! eviction policy. The caller serializes access (one critical section per
//! request); everything here is the policy itself, stated exactly.

use vstd::prelude::*;
use vstd::string::StrSliceExecFns;

use crate::clock::now_timestamp;
use crate::codec::{encode_store, spec_enc_store, store_fits};
use crate::errors::EngineError;
use crate::meta::{spec_entry_weight, EntryModel, MetadataEntry};
use crate::metric::{spec_metric_from_code, str_eq, Metric};
use crate::record::RecordModel;
use crate::store::{spec_created_at_entry, store_wf, Database, StoreModel};

verus! {

/// One resident collection: the store, when it was last touched (a caller
/// -supplied monotonic tick), and whether memory is ahead of disk.
pub struct CacheEntry {
    pub name: String,
    pub store: Database,
    pub last_access: u64,
    pub dirty: bool,
}

/// The mathematical shape of a cache entry.
#[verifier::ext_equal]
pub struct CEntryModel {
    pub name: Seq<char>,
    pub store: StoreModel,
    pub last_access: u64,
    pub dirty: bool,
}

impl View for CacheEntry {
    type V = CEntryModel;

    open spec fn view(&self) -> CEntryModel {
        CEntryModel {
            name: self.name@,
            store: self.store@,
            last_access: self.last_access,
            dirty: self.dirty,
        }
    }
}

/// The table. At most one resident entry exists per name, and every
/// resident store is well-formed.
pub struct Cache {
    pub entries: Vec<CacheEntry>,
}

impl View for Cache {
    type V = Seq<CEntryModel>;

    open spec fn view(&self) -> Seq<CEntryModel> {
        self.entries@.map_values(|e: CacheEntry| e@)
    }
}

pub open spec fn cache_wf(cs: Seq<CEntryModel>) -> bool {
    &&& forall|i: int, j: int| 0 <= i < j < cs.len() ==> (#[trigger] cs[i]).name != (
    #[trigger] cs[j]).name
    &&& forall|i: int| 0 <= i < cs.len() ==> store_wf((#[trigger] cs[i]).store)
}

pub open spec fn has_entry(cs: Seq<CEntryModel>, name: Seq<char>) -> bool {
    exists|i: int| 0 <= i < cs.len() && (#[trigger] cs[i]).name == name
}

/// The position of the entry for a name; meaningful where `has_entry`.
pub open spec fn idx_of(cs: Seq<CEntryModel>, name: Seq<char>) -> int {
    choose|i: int| 0 <= i < cs.len() && (#[trigger] cs[i]).name == name
}

// ---------------------------------------------------------------------------
// Cache-budget estimation: per record, the component count times the value
// width, plus each metadata entry's key length and canonical value weight.
// An estimate of resident size, not a serialized size.
// ---------------------------------------------------------------------------

pub open spec fn spec_meta_weight(es: Seq<EntryModel>) -> nat
    decreases es.len(),
{
    if es.len() == 0 {
        0
    } else {
        spec_entry_weight(es[0]) + spec_meta_weight(es.drop_first())
    }
}

pub open spec fn spec_record_weight(r: RecordModel) -> nat {
    r.values.len() * 8 + spec_meta_weight(r.meta)
}

pub open spec fn spec_store_weight(rs: Seq<RecordModel>) -> nat
    decreases rs.len(),
{
    if rs.len() == 0 {
        0
    } else {
        spec_record_weight(rs[0]) + spec_store_weight(rs.drop_first())
    }
}

pub open spec fn spec_entry_bytes(e: CEntryModel) -> nat {
    spec_store_weight(e.store.records)
}

pub open spec fn spec_total_bytes(cs: Seq<CEntryModel>) -> nat
    decreases cs.len(),
{
    if cs.len() == 0 {
        0
    } else {
        spec_entry_bytes(cs[0]) + spec_total_bytes(cs.drop_first())
    }
}

/// What the executable estimator reports: the exact sum, saturated at the
/// platform word, as the policy compares estimates as `usize`.
pub open spec fn clamp_usize(n: nat) -> nat {
    if n <= usize::MAX {
        n
    } else {
        usize::MAX as nat
    }
}

proof fn lemma_meta_weight_push(es: Seq<EntryModel>, e: EntryModel)
    ensures
        spec_meta_weight(es.push(e)) == spec_meta_weight(es) + spec_entry_weight(e),
    decreases es.len(),
{
    if es.len() == 0 {
        assert(es.push(e)[0] == e);
        assert(es.push(e).drop_first() =~= Seq::<EntryModel>::empty());
        assert(spec_meta_weight(Seq::<EntryModel>::empty()) == 0);
        assert(spec_meta_weight(es) == 0);
    } else {
        assert(es.push(e)[0] == es[0]);
        assert(es.push(e).drop_first() =~= es.drop_first().push(e));
        lemma_meta_weight_push(es.drop_first(), e);
    }
}

proof fn lemma_store_weight_push(rs: Seq<RecordModel>, r: RecordModel)
    ensures
        spec_store_weight(rs.push(r)) == spec_store_weight(rs) + spec_record_weight(r),
    decreases rs.len(),
{
    if rs.len() == 0 {
        assert(rs.push(r)[0] == r);
        assert(rs.push(r).drop_first() =~= Seq::<RecordModel>::empty());
        assert(spec_store_weight(Seq::<RecordModel>::empty()) == 0);
        assert(spec_store_weight(rs) == 0);
    } else {
        assert(rs.push(r)[0] == rs[0]);
        assert(rs.push(r).drop_first() =~= rs.drop_first().push(r));
        lemma_store_weight_push(rs.drop_first(), r);
    }
}

proof fn lemma_total_bytes_push(cs: Seq<CEntryModel>, e: CEntryModel)
    ensures
        spec_total_bytes(cs.push(e)) == spec_total_bytes(cs) + spec_entry_bytes(e),
    decreases cs.len(),
{
    if cs.len() == 0 {
        assert(cs.push(e)[0] == e);
        assert(cs.push(e).drop_first() =~= Seq::<CEntryModel>::empty());
        assert(spec_total_bytes(Seq::<CEntryModel>::empty()) == 0);
        assert(spec_total_bytes(cs) == 0);
    } else {
        assert(cs.push(e)[0] == cs[0]);
        assert(cs.push(e).drop_first() =~= cs.drop_first().push(e));
        lemma_total_bytes_push(cs.drop_first(), e);
    }
}

/// Addition that saturates at the platform word, as the estimator must
/// never fail on a huge resident set.
pub fn sat_add(a: usize, b: usize) -> (r: usize)
    ensures
        r as nat == clamp_usize((a + b) as nat),
{
    if a > usize::MAX - b {
        usize::MAX
    } else {
        a + b
    }
}

fn sat_mul8(a: usize) -> (r: usize)
    ensures
        r as nat == clamp_usize((a * 8) as nat),
{
    if a > usize::MAX / 8 {
        proof {
            assert((usize::MAX / 8 + 1) * 8 > usize::MAX) by (nonlinear_arith);
            assert(a * 8 >= (usize::MAX / 8 + 1) * 8) by (nonlinear_arith)
                requires
                    a >= usize::MAX / 8 + 1,
            ;
        }
        usize::MAX
    } else {
        proof {
            assert(a * 8 <= (usize::MAX / 8) * 8) by (nonlinear_arith)
                requires
                    a <= usize::MAX / 8,
            ;
        }
        a * 8
    }
}

/// The estimated resident bytes of one cached collection.
pub fn estimate_entry_bytes(e: &CacheEntry) -> (r: usize)
    ensures
        r as nat == clamp_usize(spec_entry_bytes(e@)),
{
    let mut bytes: usize = 0;
    let mut i: usize = 0;
    let vs = &e.store.vectors;
    while i < vs.len()
        invariant
            i <= vs@.len(),
            e@.store.records.len() == vs@.len(),
            forall|k: int| 0 <= k < vs@.len() ==> (#[trigger] vs@[k])@ == e@.store.records[k],
            bytes as nat == clamp_usize(spec_store_weight(e@.store.records.take(i as int))),
        decreases vs@.len() - i,
    {
        let v = &vs[i];
        let mut rec_bytes: usize = sat_mul8(v.data().len());
        let meta = v.metadata();
        let mut j: usize = 0;
        while j < meta.len()
            invariant
                j <= meta@.len(),
                meta@.map_values(|m: MetadataEntry| m@) == v@.meta,
                meta@.len() == v@.meta.len(),
                forall|k: int| 0 <= k < meta@.len() ==> (#[trigger] meta@[k])@ == v@.meta[k],
                rec_bytes as nat == clamp_usize(
                    v@.values.len() * 8 + spec_meta_weight(v@.meta.take(j as int)),
                ),
            decreases meta@.len() - j,
        {
            let m = &meta[j];
            let klen = m.key().unicode_len();
            proof {
                assert(v@.meta.take(j + 1) =~= v@.meta.take(j as int).push(v@.meta[j as int]));
                lemma_meta_weight_push(v@.meta.take(j as int), v@.meta[j as int]);
            }
            rec_bytes = sat_add(rec_bytes, klen);
            rec_bytes = sat_add(rec_bytes, m.value().weight());
            j += 1;
        }
        proof {
            assert(v@.meta.take(meta@.len() as int) =~= v@.meta);
            assert(e@.store.records.take(i + 1) =~= e@.store.records.take(i as int).push(
                e@.store.records[i as int],
            ));
            lemma_store_weight_push(e@.store.records.take(i as int), e@.store.records[i as int]);
        }
        bytes = sat_add(bytes, rec_bytes);
        i += 1;
    }
    proof {
        assert(e@.store.records.take(vs@.len() as int) =~= e@.store.records);
    }
    bytes
}

impl Cache {
    /// An empty table.
    pub fn new() -> (r: Self)
        ensures
            r@ == Seq::<CEntryModel>::empty(),
            cache_wf(r@),
    {
        let r = Cache { entries: Vec::new() };
        proof {
            assert(r@ =~= Seq::<CEntryModel>::empty());
        }
        r
    }

    /// The estimated resident bytes of the whole table, saturated at the
    /// platform word.
    pub fn total_estimated_bytes(&self) -> (r: usize)
        ensures
            r as nat == clamp_usize(spec_total_bytes(self@)),
    {
        let mut total: usize = 0;
        let mut i: usize = 0;
        while i < self.entries.len()
            invariant
                i <= self.entries@.len(),
                self@.len() == self.entries@.len(),
                forall|k: int| 0 <= k < self.entries@.len() ==> (#[trigger] self.entries@[k])@
                    == self@[k],
                total as nat == clamp_usize(spec_total_bytes(self@.take(i as int))),
            decreases self.entries@.len() - i,
        {
            let eb = estimate_entry_bytes(&self.entries[i]);
            proof {
                assert(self@.take(i + 1) =~= self@.take(i as int).push(self@[i as int]));
                lemma_total_bytes_push(self@.take(i as int), self@[i as int]);
            }
            total = sat_add(total, eb);
            i += 1;
        }
        proof {
            assert(self@.take(self.entries@.len() as int) =~= self@);
        }
        total
    }

    /// The position of a name's entry, if it is resident.
    fn find_idx(&self, name: &str) -> (r: Option<usize>)
        requires
            cache_wf(self@),
        ensures
            match r {
                Some(i) => i < self@.len() && self@[i as int].name == name@ && has_entry(
                    self@,
                    name@,
                ) && idx_of(self@, name@) == i as int,
                None => !has_entry(self@, name@),
            },
    {
        let mut i: usize = 0;
        while i < self.entries.len()
            invariant
                i <= self.entries@.len(),
                self@.len() == self.entries@.len(),
                cache_wf(self@),
                forall|k: int| 0 <= k < self.entries@.len() ==> (#[trigger] self.entries@[k])@
                    == self@[k],
                forall|k: int| 0 <= k < i ==> (#[trigger] self@[k]).name != name@,
            decreases self.entries@.len() - i,
        {
            if str_eq(self.entries[i].name.as_str(), name) {
                proof {
                    assert(self@[i as int].name == name@);
                    let w = idx_of(self@, name@);
                    assert(0 <= w < self@.len() && self@[w].name == name@);
                    if w != i as int {
                        assert(false);
                    }
                }
                return Some(i);
            }
            i += 1;
        }
        None
    }

    /// Whether a name is resident.
    pub fn contains(&self, name: &str) -> (r: bool)
        requires
            cache_wf(self@),
        ensures
            r == has_entry(self@, name@),
    {
        match self.find_idx(name) {
            Some(_) => true,
            None => false,
        }
    }

    /// A borrow of a resident store, for read-only scans.
    pub fn get_store(&self, name: &str) -> (r: Option<&Database>)
        requires
            cache_wf(self@),
        ensures
            match r {
                Some(db) => has_entry(self@, name@) && db@ == self@[idx_of(self@, name@)].store,
                None => !has_entry(self@, name@),
            },
    {
        match self.find_idx(name) {
            Some(i) => Some(&self.entries[i].store),
            None => None,
        }
    }

    /// Makes a fresh, empty collection resident and returns its durable
    /// bytes for the caller to persist. Fails, changing nothing, exactly
    /// when the name is already resident.
    pub fn create(&mut self, name: String, dimension: usize, now: u64) -> (r: Result<
        Vec<u8>,
        EngineError,
    >)
        requires
            cache_wf(old(self)@),
        ensures
            cache_wf(final(self)@),
            match r {
                Ok(bytes) => {
                    &&& !has_entry(old(self)@, name@)
                    &&& final(self)@ == old(self)@.push(
                        CEntryModel {
                            name: name@,
                            store: StoreModel {
                                name: name@,
                                dimension: dimension as int,
                                records: Seq::empty(),
                            },
                            last_access: now,
                            dirty: false,
                        },
                    )
                    &&& bytes@ == spec_enc_store(final(self)@.last().store)
                    &&& store_fits(final(self)@.last().store)
                },
                Err(e) => {
                    &&& e == EngineError::AlreadyExists
                    &&& has_entry(old(self)@, name@)
                    &&& final(self)@ == old(self)@
                },
            },
    {
        match self.find_idx(name.as_str()) {
            Some(_) => Err(EngineError::AlreadyExists),
            None => {
                let ghost pre = self@;
                let store_name = name.clone();
                let db = Database::new(store_name, dimension);
                let bytes = encode_store(&db);
                let entry = CacheEntry { name, store: db, last_access: now, dirty: false };
                let ghost em = entry@;
                self.entries.push(entry);
                proof {
                    assert(self@ =~= pre.push(em));
                    assert forall|i: int, j: int|
                        0 <= i < j < self@.len() implies (#[trigger] self@[i]).name != (
                    #[trigger] self@[j]).name by {
                        if j == self@.len() - 1 {
                            assert(!has_entry(pre, em.name));
                            assert(self@[i] == pre[i]);
                        }
                    }
                }
                Ok(bytes)
            },
        }
    }

    /// Makes a collection resident from its durable bytes. Fails with
    /// `CorruptData`, changing nothing, exactly when the bytes do not
    /// decode; the caller falls back or reports as its path demands.
    pub fn admit_loaded(&mut self, name: String, bytes: &Vec<u8>, now: u64) -> (r: Result<
        (),
        EngineError,
    >)
        requires
            cache_wf(old(self)@),
            !has_entry(old(self)@, name@),
        ensures
            cache_wf(final(self)@),
            match r {
                Ok(()) => {
                    &&& crate::codec::spec_dec_store(bytes@) matches Some(st) && final(self)@
                        == old(self)@.push(
                        CEntryModel { name: name@, store: st, last_access: now, dirty: false },
                    )
                },
                Err(e) => {
                    &&& e == EngineError::CorruptData
                    &&& crate::codec::spec_dec_store(bytes@) is None
                    &&& final(self)@ == old(self)@
                },
            },
    {
        match crate::codec::decode_store(bytes) {
            Ok(db) => {
                let ghost pre = self@;
                let entry = CacheEntry { name, store: db, last_access: now, dirty: false };
                let ghost em = entry@;
                self.entries.push(entry);
                proof {
                    assert(self@ =~= pre.push(em));
                    assert forall|i: int, j: int|
                        0 <= i < j < self@.len() implies (#[trigger] self@[i]).name != (
                    #[trigger] self@[j]).name by {
                        if j == self@.len() - 1 {
                            assert(!has_entry(pre, em.name));
                            assert(self@[i] == pre[i]);
                        }
                    }
                }
                Ok(())
            },
            Err(e) => Err(e),
        }
    }

    /// Makes a fresh, empty collection resident without touching durable
    /// storage: the insert path's fallback when no durable copy exists.
    pub fn admit_fresh(&mut self, name: String, dimension: usize, now: u64)
        requires
            cache_wf(old(self)@),
            !has_entry(old(self)@, name@),
        ensures
            cache_wf(final(self)@),
            final(self)@ == old(self)@.push(
                CEntryModel {
                    name: name@,
                    store: StoreModel {
                        name: name@,
                        dimension: dimension as int,
                        records: Seq::empty(),
                    },
                    last_access: now,
                    dirty: false,
                },
            ),
    {
        let ghost pre = self@;
        let store_name = name.clone();
        let db = Database::new(store_name, dimension);
        let entry = CacheEntry { name, store: db, last_access: now, dirty: false };
        let ghost em = entry@;
        self.entries.push(entry);
        proof {
            assert(self@ =~= pre.push(em));
            assert forall|i: int, j: int|
                0 <= i < j < self@.len() implies (#[trigger] self@[i]).name != (
            #[trigger] self@[j]).name by {
                if j == self@.len() - 1 {
                    assert(!has_entry(pre, em.name));
                    assert(self@[i] == pre[i]);
                }
            }
        }
    }

    /// The standard write path: appends a record with the caller's values
    /// and metadata plus a system-injected `created_at` stamp, marks the
    /// entry dirty and touches it. Fails with `NotFound` where the name is
    /// not resident, and with `DimensionMismatch`, changing nothing, where
    /// the value count is not the collection's dimension. Returns the new
    /// record count.
    pub fn insert_vector(
        &mut self,
        name: &str,
        data: Vec<u64>,
        meta: Vec<MetadataEntry>,
        now: u64,
    ) -> (r: Result<usize, EngineError>)
        requires
            cache_wf(old(self)@),
        ensures
            cache_wf(final(self)@),
            match r {
                Ok(total) => {
                    &&& has_entry(old(self)@, name@)
                    &&& data@.len() == old(self)@[idx_of(old(self)@, name@)].store.dimension
                    &&& total == old(self)@[idx_of(old(self)@, name@)].store.records.len() + 1
                    &&& exists|ts: crate::meta::Timestamp|
                        final(self)@ == old(self)@.update(
                            idx_of(old(self)@, name@),
                            CEntryModel {
                                name: old(self)@[idx_of(old(self)@, name@)].name,
                                store: StoreModel {
                                    name: old(self)@[idx_of(old(self)@, name@)].store.name,
                                    dimension: old(self)@[idx_of(old(self)@, name@)].store.dimension,
                                    records: old(self)@[idx_of(old(self)@, name@)].store.records.push(
                                        RecordModel {
                                            values: data@,
                                            meta: meta@.map_values(|e: MetadataEntry| e@).push(
                                                spec_created_at_entry(ts),
                                            ),
                                        },
                                    ),
                                },
                                last_access: now,
                                dirty: true,
                            },
                        )
                },
                Err(e) => {
                    &&& final(self)@ == old(self)@
                    &&& (e == EngineError::NotFound || e == EngineError::DimensionMismatch)
                    &&& (e == EngineError::NotFound <==> !has_entry(old(self)@, name@))
                    &&& (e == EngineError::DimensionMismatch ==> has_entry(old(self)@, name@)
                        && data@.len() != old(self)@[idx_of(old(self)@, name@)].store.dimension)
                },
            },
    {
        let idx = match self.find_idx(name) {
            Some(i) => i,
            None => {
                return Err(EngineError::NotFound);
            },
        };
        let ghost pre = self@;
        let stamp = now_timestamp();
        let mut entry = self.entries.remove(idx);
        let ghost e0 = pre[idx as int];
        match entry.store.insert_stamped(data, meta, stamp) {
            Ok(()) => {
                entry.dirty = true;
                entry.last_access = now;
                let total = entry.store.len();
                self.entries.insert(idx, entry);
                proof {
                    assert(self@ =~= pre.update(idx as int, self@[idx as int]));
                    assert(self@[idx as int].store =~= StoreModel {
                        name: e0.store.name,
                        dimension: e0.store.dimension,
                        records: e0.store.records.push(self@[idx as int].store.records.last()),
                    });
                    assert(self@[idx as int] =~= CEntryModel {
                        name: e0.name,
                        store: self@[idx as int].store,
                        last_access: now,
                        dirty: true,
                    });
                    assert forall|i: int, j: int|
                        0 <= i < j < self@.len() implies (#[trigger] self@[i]).name != (
                    #[trigger] self@[j]).name by {
                        assert(pre[i].name != pre[j].name);
                    }
                }
                Ok(total)
            },
            Err(e) => {
                self.entries.insert(idx, entry);
                proof {
                    assert(self@ =~= pre);
                }
                Err(e)
            },
        }
    }

    /// Updates a resident entry's last access tick; the read path calls it
    /// on every touch.
    pub fn touch(&mut self, name: &str, now: u64)
        requires
            cache_wf(old(self)@),
        ensures
            cache_wf(final(self)@),
            !has_entry(old(self)@, name@) ==> final(self)@ == old(self)@,
            has_entry(old(self)@, name@) ==> final(self)@ == old(self)@.update(
                idx_of(old(self)@, name@),
                CEntryModel {
                    name: old(self)@[idx_of(old(self)@, name@)].name,
                    store: old(self)@[idx_of(old(self)@, name@)].store,
                    last_access: now,
                    dirty: old(self)@[idx_of(old(self)@, name@)].dirty,
                },
            ),
    {
        let ghost pre = self@;
        match self.find_idx(name) {
            Some(i) => {
                let mut entry = self.entries.remove(i);
                entry.last_access = now;
                self.entries.insert(i, entry);
                proof {
                    assert(self@ =~= pre.update(i as int, self@[i as int]));
                    assert(self@[i as int] =~= CEntryModel {
                        name: pre[i as int].name,
                        store: pre[i as int].store,
                        last_access: now,
                        dirty: pre[i as int].dirty,
                    });
                    assert forall|a: int, b: int|
                        0 <= a < b < self@.len() implies (#[trigger] self@[a]).name != (
                    #[trigger] self@[b]).name by {
                        assert(pre[a].name != pre[b].name);
                    }
                }
            },
            None => {
                proof {
                    assert(self@ =~= pre);
                }
            },
        }
    }

    /// Clears the dirty flag after a successful persist; the scheduler
    /// calls it only when the durable write went through.
    pub fn clear_dirty(&mut self, name: &str)
        requires
            cache_wf(old(self)@),
        ensures
            cache_wf(final(self)@),
            !has_entry(old(self)@, name@) ==> final(self)@ == old(self)@,
            has_entry(old(self)@, name@) ==> final(self)@ == old(self)@.update(
                idx_of(old(self)@, name@),
                CEntryModel {
                    name: old(self)@[idx_of(old(self)@, name@)].name,
                    store: old(self)@[idx_of(old(self)@, name@)].store,
                    last_access: old(self)@[idx_of(old(self)@, name@)].last_access,
                    dirty: false,
                },
            ),
    {
        let ghost pre = self@;
        match self.find_idx(name) {
            Some(i) => {
                let mut entry = self.entries.remove(i);
                entry.dirty = false;
                self.entries.insert(i, entry);
                proof {
                    assert(self@ =~= pre.update(i as int, self@[i as int]));
                    assert(self@[i as int] =~= CEntryModel {
                        name: pre[i as int].name,
                        store: pre[i as int].store,
                        last_access: pre[i as int].last_access,
                        dirty: false,
                    });
                    assert forall|a: int, b: int|
                        0 <= a < b < self@.len() implies (#[trigger] self@[a]).name != (
                    #[trigger] self@[b]).name by {
                        assert(pre[a].name != pre[b].name);
                    }
                }
            },
            None => {
                proof {
                    assert(self@ =~= pre);
                }
            },
        }
    }

    /// The names of the entries whose memory is ahead of disk, in table
    /// order; the scheduler persists exactly these each tick.
    pub fn dirty_names(&self) -> (r: Vec<String>)
        ensures
            r@.map_values(|s: String| s@) == spec_dirty_names(self@),
    {
        let mut out: Vec<String> = Vec::new();
        let mut i: usize = 0;
        proof {
            assert(out@.map_values(|s: String| s@) =~= Seq::<Seq<char>>::empty());
            assert(self@.take(0) =~= Seq::<CEntryModel>::empty());
        }
        while i < self.entries.len()
            invariant
                i <= self.entries@.len(),
                self@.len() == self.entries@.len(),
                forall|k: int| 0 <= k < self.entries@.len() ==> (#[trigger] self.entries@[k])@
                    == self@[k],
                out@.map_values(|s: String| s@) == spec_dirty_names(self@.take(i as int)),
            decreases self.entries@.len() - i,
        {
            proof {
                assert(self@.take(i + 1) =~= self@.take(i as int).push(self@[i as int]));
                lemma_dirty_names_push(self@.take(i as int), self@[i as int]);
            }
            if self.entries[i].dirty {
                let ghost pre_names = out@.map_values(|s: String| s@);
                let nm = self.entries[i].name.clone();
                out.push(nm);
                proof {
                    assert(out@.map_values(|s: String| s@) =~= pre_names.push(
                        self@[i as int].name,
                    ));
                }
            }
            i += 1;
        }
        proof {
            assert(self@.take(self.entries@.len() as int) =~= self@);
        }
        out
    }

    /// The read path's preconditions, checked in the order a request sees
    /// them: the collection must be resident, the query's width must be
    /// the collection's dimension, and the metric code must name a
    /// metric. Each failure is owed exactly on the stated inputs.
    pub fn check_query(&self, name: &str, query_len: usize, code: &str) -> (r: Result<
        Metric,
        EngineError,
    >)
        requires
            cache_wf(self@),
        ensures
            match r {
                Ok(m) => {
                    &&& has_entry(self@, name@)
                    &&& query_len as int == self@[idx_of(self@, name@)].store.dimension
                    &&& spec_metric_from_code(code@) == Some(m)
                },
                Err(e) => {
                    &&& (e == EngineError::NotFound <==> !has_entry(self@, name@))
                    &&& (e == EngineError::DimensionMismatch ==> has_entry(self@, name@)
                        && query_len as int != self@[idx_of(self@, name@)].store.dimension)
                    &&& (e == EngineError::UnknownMetric ==> has_entry(self@, name@) && query_len as int
                        == self@[idx_of(self@, name@)].store.dimension && spec_metric_from_code(
                        code@,
                    ) is None)
                    &&& (e == EngineError::NotFound || e == EngineError::DimensionMismatch || e
                        == EngineError::UnknownMetric)
                },
            },
    {
        let idx = match self.find_idx(name) {
            Some(i) => i,
            None => {
                return Err(EngineError::NotFound);
            },
        };
        if self.entries[idx].store.dimension != query_len {
            return Err(EngineError::DimensionMismatch);
        }
        match Metric::from_code(code) {
            Some(m) => Ok(m),
            None => Err(EngineError::UnknownMetric),
        }
    }

    /// The durable bytes of a resident entry's current record set, for the
    /// scheduler's persist step; the store itself is untouched.
    pub fn encode_resident(&self, name: &str) -> (r: Option<Vec<u8>>)
        requires
            cache_wf(self@),
        ensures
            match r {
                Some(bytes) => has_entry(self@, name@) && bytes@ == spec_enc_store(
                    self@[idx_of(self@, name@)].store,
                ) && store_fits(self@[idx_of(self@, name@)].store),
                None => !has_entry(self@, name@),
            },
    {
        match self.find_idx(name) {
            Some(i) => Some(encode_store(&self.entries[i].store)),
            None => None,
        }
    }
}

/// The names of the dirty entries, in table order.
pub open spec fn spec_dirty_names(cs: Seq<CEntryModel>) -> Seq<Seq<char>>
    decreases cs.len(),
{
    if cs.len() == 0 {
        Seq::empty()
    } else {
        let rest = spec_dirty_names(cs.drop_first());
        if cs[0].dirty {
            seq![cs[0].name] + rest
        } else {
            rest
        }
    }
}

proof fn lemma_dirty_names_push(cs: Seq<CEntryModel>, e: CEntryModel)
    ensures
        spec_dirty_names(cs.push(e)) == spec_dirty_names(cs) + if e.dirty {
            seq![e.name]
        } else {
            Seq::<Seq<char>>::empty()
        },
    decreases cs.len(),
{
    let tail: Seq<Seq<char>> = if e.dirty {
        seq![e.name]
    } else {
        Seq::<Seq<char>>::empty()
    };
    if cs.len() == 0 {
        assert(cs.push(e)[0] == e);
        assert(cs.push(e).drop_first() =~= Seq::<CEntryModel>::empty());
        assert(spec_dirty_names(Seq::<CEntryModel>::empty()) == Seq::<Seq<char>>::empty());
        assert(spec_dirty_names(cs) =~= Seq::<Seq<char>>::empty());
        assert(spec_dirty_names(cs.push(e)) =~= spec_dirty_names(cs) + tail);
    } else {
        assert(cs.push(e)[0] == cs[0]);
        assert(cs.push(e).drop_first() =~= cs.drop_first().push(e));
        lemma_dirty_names_push(cs.drop_first(), e);
        assert(spec_dirty_names(cs.push(e)) =~= spec_dirty_names(cs) + tail);
    }
}

// ---------------------------------------------------------------------------
// The eviction policy, stated exactly. A pass is the TTL sweep followed by
// the byte-budget sweep; both stages are spec functions, and `evict_pass`
// produces precisely their composition.
// ---------------------------------------------------------------------------

/// Idle time of an entry, as the policy measures it.
pub open spec fn spec_age(now: u64, last: u64) -> int {
    if now >= last {
        now - last
    } else {
        0
    }
}

/// The TTL sweep keeps an entry that is dirty - unflushed writes are never
/// dropped by age alone - or that was touched within the TTL.
pub open spec fn ttl_keeps(e: CEntryModel, now: u64, ttl: u64) -> bool {
    e.dirty || spec_age(now, e.last_access) <= ttl
}

pub open spec fn spec_ttl_sweep(cs: Seq<CEntryModel>, now: u64, ttl: u64) -> Seq<CEntryModel>
    decreases cs.len(),
{
    if cs.len() == 0 {
        Seq::empty()
    } else {
        let rest = spec_ttl_sweep(cs.drop_first(), now, ttl);
        if ttl_keeps(cs[0], now, ttl) {
            seq![cs[0]] + rest
        } else {
            rest
        }
    }
}

proof fn lemma_ttl_sweep_push(cs: Seq<CEntryModel>, e: CEntryModel, now: u64, ttl: u64)
    ensures
        spec_ttl_sweep(cs.push(e), now, ttl) == spec_ttl_sweep(cs, now, ttl) + if ttl_keeps(
            e,
            now,
            ttl,
        ) {
            seq![e]
        } else {
            Seq::<CEntryModel>::empty()
        },
    decreases cs.len(),
{
    let tail: Seq<CEntryModel> = if ttl_keeps(e, now, ttl) {
        seq![e]
    } else {
        Seq::<CEntryModel>::empty()
    };
    if cs.len() == 0 {
        assert(cs.push(e)[0] == e);
        assert(cs.push(e).drop_first() =~= Seq::<CEntryModel>::empty());
        assert(spec_ttl_sweep(Seq::<CEntryModel>::empty(), now, ttl) == Seq::<CEntryModel>::empty());
        assert(spec_ttl_sweep(cs, now, ttl) =~= Seq::<CEntryModel>::empty());
        assert(spec_ttl_sweep(cs.push(e), now, ttl) =~= spec_ttl_sweep(cs, now, ttl) + tail);
    } else {
        assert(cs.push(e)[0] == cs[0]);
        assert(cs.push(e).drop_first() =~= cs.drop_first().push(e));
        lemma_ttl_sweep_push(cs.drop_first(), e, now, ttl);
        assert(spec_ttl_sweep(cs.push(e), now, ttl) =~= spec_ttl_sweep(cs, now, ttl) + tail);
    }
}

/// Every survivor of the TTL sweep is an entry of the original table.
proof fn lemma_ttl_sweep_elements(cs: Seq<CEntryModel>, now: u64, ttl: u64)
    ensures
        forall|m: int|
            0 <= m < spec_ttl_sweep(cs, now, ttl).len() ==> cs.contains(
                #[trigger] spec_ttl_sweep(cs, now, ttl)[m],
            ),
    decreases cs.len(),
{
    if cs.len() == 0 {
    } else {
        lemma_ttl_sweep_elements(cs.drop_first(), now, ttl);
        let r = spec_ttl_sweep(cs, now, ttl);
        let rest = spec_ttl_sweep(cs.drop_first(), now, ttl);
        assert forall|m: int| 0 <= m < r.len() implies cs.contains(#[trigger] r[m]) by {
            if ttl_keeps(cs[0], now, ttl) && m == 0 {
                assert(cs[0] == r[0]);
                assert(cs.contains(cs[0]));
            } else {
                let mm = if ttl_keeps(cs[0], now, ttl) {
                    m - 1
                } else {
                    m
                };
                assert(rest[mm] == r[m]);
                assert(cs.drop_first().contains(rest[mm]));
                let w = choose|w: int|
                    0 <= w < cs.drop_first().len() && cs.drop_first()[w] == rest[mm];
                assert(cs[w + 1] == rest[mm]);
                assert(cs.contains(cs[w + 1]));
            }
        }
    }
}

/// A dirty entry always survives the TTL sweep, whatever its age and
/// whatever else the table holds.
pub proof fn lemma_ttl_sweep_keeps_dirty(cs: Seq<CEntryModel>, now: u64, ttl: u64, i: int)
    requires
        0 <= i < cs.len(),
        ttl_keeps(cs[i], now, ttl),
    ensures
        spec_ttl_sweep(cs, now, ttl).contains(cs[i]),
    decreases cs.len(),
{
    let r = spec_ttl_sweep(cs, now, ttl);
    let rest = spec_ttl_sweep(cs.drop_first(), now, ttl);
    if i == 0 {
        assert(r[0] == cs[0]);
        assert(r.contains(cs[0]));
    } else {
        lemma_ttl_sweep_keeps_dirty(cs.drop_first(), now, ttl, i - 1);
        assert(cs.drop_first()[i - 1] == cs[i]);
        let w = choose|w: int| 0 <= w < rest.len() && rest[w] == cs[i];
        if ttl_keeps(cs[0], now, ttl) {
            assert(r[w + 1] == cs[i]);
        } else {
            assert(r[w] == cs[i]);
        }
        assert(r.contains(cs[i]));
    }
}

proof fn lemma_ttl_sweep_wf(cs: Seq<CEntryModel>, now: u64, ttl: u64)
    requires
        cache_wf(cs),
    ensures
        cache_wf(spec_ttl_sweep(cs, now, ttl)),
    decreases cs.len(),
{
    if cs.len() == 0 {
    } else {
        assert(cache_wf(cs.drop_first()));
        lemma_ttl_sweep_wf(cs.drop_first(), now, ttl);
        lemma_ttl_sweep_elements(cs.drop_first(), now, ttl);
        let r = spec_ttl_sweep(cs, now, ttl);
        let rest = spec_ttl_sweep(cs.drop_first(), now, ttl);
        if ttl_keeps(cs[0], now, ttl) {
            assert forall|i: int, j: int|
                0 <= i < j < r.len() implies (#[trigger] r[i]).name != (#[trigger] r[j]).name by {
                if i == 0 {
                    assert(cs.drop_first().contains(rest[j - 1]));
                    let w = choose|w: int|
                        0 <= w < cs.drop_first().len() && cs.drop_first()[w] == rest[j - 1];
                    assert(cs[w + 1] == rest[j - 1]);
                    assert(cs[0].name != cs[w + 1].name);
                } else {
                    assert(rest[i - 1] == r[i] && rest[j - 1] == r[j]);
                }
            }
            assert forall|i: int| 0 <= i < r.len() implies store_wf((#[trigger] r[i]).store) by {
                if i == 0 {
                    assert(store_wf(cs[0].store));
                } else {
                    assert(rest[i - 1] == r[i]);
                }
            }
        }
    }
}

/// The byte-budget priority: clean before dirty, and the least recently
/// touched first within the same dirty class.
pub open spec fn prio_le(a: CEntryModel, b: CEntryModel) -> bool {
    (!a.dirty && b.dirty) || (a.dirty == b.dirty && a.last_access <= b.last_access)
}

/// The index the budget sweep evicts next: the first entry of minimal
/// priority.
pub open spec fn is_first_min(cs: Seq<CEntryModel>, v: int) -> bool {
    &&& 0 <= v < cs.len()
    &&& forall|m: int| 0 <= m < cs.len() ==> prio_le(cs[v], #[trigger] cs[m])
    &&& forall|m: int| 0 <= m < v ==> !prio_le(#[trigger] cs[m], cs[v])
}

pub open spec fn spec_victim_index(cs: Seq<CEntryModel>) -> int
    decreases cs.len(),
{
    if cs.len() <= 1 {
        0
    } else {
        let rest = spec_victim_index(cs.drop_first()) + 1;
        if 0 <= rest < cs.len() && prio_le(cs[0], cs[rest]) {
            0
        } else {
            rest
        }
    }
}

proof fn lemma_victim_first_min(cs: Seq<CEntryModel>)
    requires
        cs.len() > 0,
    ensures
        is_first_min(cs, spec_victim_index(cs)),
    decreases cs.len(),
{
    if cs.len() == 1 {
    } else {
        lemma_victim_first_min(cs.drop_first());
        let vr = spec_victim_index(cs.drop_first());
        let rest = vr + 1;
        assert(cs[rest] == cs.drop_first()[vr]);
        assert forall|m: int| 1 <= m < cs.len() implies prio_le(cs[rest], #[trigger] cs[m]) by {
            assert(cs.drop_first()[m - 1] == cs[m]);
            assert(prio_le(cs.drop_first()[vr], cs.drop_first()[m - 1]));
        }
        if prio_le(cs[0], cs[rest]) {
            assert(spec_victim_index(cs) == 0);
        } else {
            assert(spec_victim_index(cs) == rest);
            assert forall|m: int| 0 <= m < rest implies !prio_le(#[trigger] cs[m], cs[rest]) by {
                if m > 0 {
                    assert(cs.drop_first()[m - 1] == cs[m]);
                    assert(!prio_le(cs.drop_first()[m - 1], cs.drop_first()[vr]));
                }
            }
        }
    }
}

proof fn lemma_remove_wf(cs: Seq<CEntryModel>, i: int)
    requires
        cache_wf(cs),
        0 <= i < cs.len(),
    ensures
        cache_wf(cs.remove(i)),
{
    let r = cs.remove(i);
    assert forall|a: int, b: int|
        0 <= a < b < r.len() implies (#[trigger] r[a]).name != (#[trigger] r[b]).name by {
        let a0 = if a < i {
            a
        } else {
            a + 1
        };
        let b0 = if b < i {
            b
        } else {
            b + 1
        };
        assert(r[a] == cs[a0] && r[b] == cs[b0]);
        assert(cs[a0].name != cs[b0].name);
    }
    assert forall|a: int| 0 <= a < r.len() implies store_wf((#[trigger] r[a]).store) by {
        let a0 = if a < i {
            a
        } else {
            a + 1
        };
        assert(r[a] == cs[a0]);
    }
}

/// The budget sweep: while the saturated estimate exceeds the budget and
/// the table is not empty, evict the first minimal-priority entry.
pub open spec fn spec_budget_sweep(cs: Seq<CEntryModel>, max_bytes: usize) -> Seq<CEntryModel>
    decreases cs.len(),
{
    if cs.len() == 0 || clamp_usize(spec_total_bytes(cs)) <= max_bytes {
        cs
    } else {
        let v = spec_victim_index(cs);
        let vc = if 0 <= v < cs.len() {
            v
        } else {
            0
        };
        spec_budget_sweep(cs.remove(vc), max_bytes)
    }
}

/// After the budget sweep the saturated estimate is within the budget: the
/// ceiling is unconditional.
pub proof fn lemma_budget_sweep_bound(cs: Seq<CEntryModel>, max_bytes: usize)
    ensures
        clamp_usize(spec_total_bytes(spec_budget_sweep(cs, max_bytes))) <= max_bytes,
    decreases cs.len(),
{
    if cs.len() == 0 || clamp_usize(spec_total_bytes(cs)) <= max_bytes {
    } else {
        let v = spec_victim_index(cs);
        let vc = if 0 <= v < cs.len() {
            v
        } else {
            0
        };
        lemma_budget_sweep_bound(cs.remove(vc), max_bytes);
    }
}

/// Every budget-sweep survivor is an entry of the table the sweep began
/// with.
pub proof fn lemma_budget_sweep_elements(cs: Seq<CEntryModel>, max_bytes: usize)
    ensures
        forall|m: int|
            0 <= m < spec_budget_sweep(cs, max_bytes).len() ==> cs.contains(
                #[trigger] spec_budget_sweep(cs, max_bytes)[m],
            ),
    decreases cs.len(),
{
    if cs.len() == 0 || clamp_usize(spec_total_bytes(cs)) <= max_bytes {
        assert forall|m: int|
            0 <= m < spec_budget_sweep(cs, max_bytes).len() implies cs.contains(
            #[trigger] spec_budget_sweep(cs, max_bytes)[m],
        ) by {
            assert(spec_budget_sweep(cs, max_bytes)[m] == cs[m]);
        }
    } else {
        let v = spec_victim_index(cs);
        let vc = if 0 <= v < cs.len() {
            v
        } else {
            0
        };
        lemma_budget_sweep_elements(cs.remove(vc), max_bytes);
        let r = spec_budget_sweep(cs, max_bytes);
        assert(r == spec_budget_sweep(cs.remove(vc), max_bytes));
        assert forall|m: int| 0 <= m < r.len() implies cs.contains(#[trigger] r[m]) by {
            assert(spec_budget_sweep(cs.remove(vc), max_bytes)[m] == r[m]);
            assert(cs.remove(vc).contains(r[m]));
            let w = choose|w: int| 0 <= w < cs.remove(vc).len() && cs.remove(vc)[w] == r[m];
            let w0 = if w < vc {
                w
            } else {
                w + 1
            };
            assert(cs[w0] == r[m]);
        }
    }
}

proof fn lemma_budget_sweep_wf(cs: Seq<CEntryModel>, max_bytes: usize)
    requires
        cache_wf(cs),
    ensures
        cache_wf(spec_budget_sweep(cs, max_bytes)),
    decreases cs.len(),
{
    if cs.len() == 0 || clamp_usize(spec_total_bytes(cs)) <= max_bytes {
    } else {
        let v = spec_victim_index(cs);
        let vc = if 0 <= v < cs.len() {
            v
        } else {
            0
        };
        lemma_remove_wf(cs, vc);
        lemma_budget_sweep_wf(cs.remove(vc), max_bytes);
    }
}

/// Whatever the budget sweep removed had priority no greater than anything
/// it kept: clean entries leave before dirty ones, and the least recently
/// touched first within a class.
pub proof fn lemma_budget_sweep_order(cs: Seq<CEntryModel>, max_bytes: usize, i: int, m: int)
    requires
        0 <= i < cs.len(),
        !spec_budget_sweep(cs, max_bytes).contains(cs[i]),
        0 <= m < spec_budget_sweep(cs, max_bytes).len(),
    ensures
        prio_le(cs[i], spec_budget_sweep(cs, max_bytes)[m]),
    decreases cs.len(),
{
    let r = spec_budget_sweep(cs, max_bytes);
    if cs.len() == 0 || clamp_usize(spec_total_bytes(cs)) <= max_bytes {
        assert(r == cs);
        assert(cs.contains(cs[i]));
    } else {
        lemma_victim_first_min(cs);
        let v = spec_victim_index(cs);
        let vc = if 0 <= v < cs.len() {
            v
        } else {
            0
        };
        assert(vc == v);
        if i == v {
            lemma_budget_sweep_elements(cs.remove(vc), max_bytes);
            assert(r == spec_budget_sweep(cs.remove(vc), max_bytes));
            assert(spec_budget_sweep(cs.remove(vc), max_bytes)[m] == r[m]);
            assert(cs.remove(vc).contains(r[m]));
            let w = choose|w: int| 0 <= w < cs.remove(vc).len() && cs.remove(vc)[w] == r[m];
            let w0 = if w < vc {
                w
            } else {
                w + 1
            };
            assert(cs[w0] == r[m]);
            assert(prio_le(cs[v], cs[w0]));
        } else {
            let i2 = if i < vc {
                i
            } else {
                i - 1
            };
            assert(cs.remove(vc)[i2] == cs[i]);
            lemma_budget_sweep_order(cs.remove(vc), max_bytes, i2, m);
        }
    }
}

impl Cache {
    /// The position the budget sweep evicts next; callers establish that
    /// the table is not empty.
    fn victim_idx(&self) -> (r: usize)
        requires
            self@.len() > 0,
        ensures
            r < self@.len(),
            r as int == spec_victim_index(self@),
            is_first_min(self@, r as int),
    {
        let mut best: usize = 0;
        let mut m: usize = 1;
        while m < self.entries.len()
            invariant
                1 <= m <= self.entries@.len(),
                best < m,
                self@.len() == self.entries@.len(),
                forall|k: int| 0 <= k < self.entries@.len() ==> (#[trigger] self.entries@[k])@
                    == self@[k],
                forall|k: int| 0 <= k < m ==> prio_le(self@[best as int], #[trigger] self@[k]),
                forall|k: int| 0 <= k < best ==> !prio_le(#[trigger] self@[k], self@[best as int]),
            decreases self.entries@.len() - m,
        {
            let cand_dirty = self.entries[m].dirty;
            let cand_last = self.entries[m].last_access;
            let best_dirty = self.entries[best].dirty;
            let best_last = self.entries[best].last_access;
            let cand_strictly_less = (!cand_dirty && best_dirty) || (cand_dirty == best_dirty
                && cand_last < best_last);
            if cand_strictly_less {
                best = m;
            }
            m += 1;
        }
        proof {
            lemma_victim_first_min(self@);
            let v = spec_victim_index(self@);
            if v < best as int {
                assert(prio_le(self@[best as int], self@[v]));
                assert(!prio_le(self@[v], self@[best as int]));
                assert(false);
            } else if v > best as int {
                assert(prio_le(self@[v], self@[best as int]));
                assert(!prio_le(self@[best as int], self@[v]));
                assert(false);
            }
        }
        best
    }

    /// One eviction pass: the TTL sweep (removing exactly the clean entries
    /// idle past the TTL), then the byte-budget sweep (evicting first
    /// minimal-priority entries until the saturated estimate is within the
    /// budget). Both request paths and the scheduler run exactly this.
    pub fn evict_pass(&mut self, max_bytes: usize, ttl: u64, now: u64)
        requires
            cache_wf(old(self)@),
        ensures
            cache_wf(final(self)@),
            final(self)@ == spec_budget_sweep(
                spec_ttl_sweep(old(self)@, now, ttl),
                max_bytes,
            ),
    {
        let ghost pre = self@;
        let mut kept: Vec<CacheEntry> = Vec::new();
        proof {
            assert(kept@.map_values(|e: CacheEntry| e@) =~= Seq::<CEntryModel>::empty());
            assert(pre.take(0) =~= Seq::<CEntryModel>::empty());
            assert(self@ =~= pre.skip(0));
        }
        while self.entries.len() > 0
            invariant
                self@.len() <= pre.len(),
                self@ == pre.skip(pre.len() - self@.len()),
                kept@.map_values(|e: CacheEntry| e@) == spec_ttl_sweep(
                    pre.take(pre.len() - self@.len()),
                    now,
                    ttl,
                ),
            decreases self@.len(),
        {
            let ghost done = pre.len() - self@.len();
            let ghost prev = self@;
            let e = self.entries.remove(0);
            proof {
                assert(pre.skip(done)[0] == pre[done]);
                assert(e@ == pre[done]);
                assert(self@ =~= prev.remove(0));
                assert(prev.remove(0) =~= pre.skip(done + 1));
                assert(self@ =~= pre.skip(done + 1));
                assert(pre.take(done + 1) =~= pre.take(done).push(pre[done]));
                lemma_ttl_sweep_push(pre.take(done), pre[done], now, ttl);
            }
            let age = if now >= e.last_access {
                now - e.last_access
            } else {
                0
            };
            if e.dirty || age <= ttl {
                let ghost pre_kept = kept@.map_values(|x: CacheEntry| x@);
                kept.push(e);
                proof {
                    assert(kept@.map_values(|x: CacheEntry| x@) =~= pre_kept.push(pre[done]));
                    assert(spec_ttl_sweep(pre.take(done + 1), now, ttl) =~= pre_kept.push(
                        pre[done],
                    ));
                }
            }
        }
        self.entries = kept;
        proof {
            assert(pre.take(pre.len() as int) =~= pre);
            assert(self@ == spec_ttl_sweep(pre, now, ttl));
            lemma_ttl_sweep_wf(pre, now, ttl);
        }
        let ghost s0 = self@;
        let mut total = self.total_estimated_bytes();
        while total > max_bytes && self.entries.len() > 0
            invariant
                cache_wf(self@),
                total as nat == clamp_usize(spec_total_bytes(self@)),
                spec_budget_sweep(s0, max_bytes) == spec_budget_sweep(self@, max_bytes),
            decreases self@.len(),
        {
            let ghost cur = self@;
            let vi = self.victim_idx();
            proof {
                lemma_remove_wf(cur, vi as int);
            }
            let _evicted = self.entries.remove(vi);
            proof {
                assert(self@ =~= cur.remove(vi as int));
            }
            total = self.total_estimated_bytes();
        }
        proof {
            assert(spec_budget_sweep(self@, max_bytes) == self@);
        }
    }
}

} // verus!
