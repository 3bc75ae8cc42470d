//! The engine's cross-cutting guarantees, stated once over the modules'
//! spec functions and proved from their contracts.

use vstd::prelude::*;

use crate::cache::{
    clamp_usize, lemma_budget_sweep_bound, lemma_budget_sweep_order, prio_le, spec_age,
    spec_budget_sweep, spec_total_bytes, spec_ttl_sweep, ttl_keeps, CEntryModel,
};
use crate::codec::{
    lemma_store_round_trip, record_fits, spec_dec_store, spec_enc_store, store_fits,
};
use crate::import::{importer_wf, BulkImporter};
use crate::meta::{EntryModel, Timestamp};
use crate::metric::{holds_index, lex_before, ranked_top};
use crate::store::{spec_after_insert, spec_stamped_record, store_wf, StoreModel};

verus! {

/// Inserting a valid record and reloading the store from its durable form
/// yields the store with that record appended, bit-identical components
/// and the caller's metadata in order, with the `created_at` stamp last.
/// The bounds required are machine limits: what an in-memory store can
/// hold always meets them.
pub proof fn lemma_insert_persist_reload(
    st: StoreModel,
    values: Seq<u64>,
    meta: Seq<EntryModel>,
    ts: Timestamp,
)
    requires
        store_wf(st),
        store_fits(st),
        values.len() == st.dimension,
        record_fits(spec_stamped_record(values, meta, ts)),
        st.records.len() + 1 <= usize::MAX,
    ensures
        store_wf(spec_after_insert(st, values, meta, ts)),
        spec_dec_store(spec_enc_store(spec_after_insert(st, values, meta, ts))) == Some(
            spec_after_insert(st, values, meta, ts),
        ),
        spec_after_insert(st, values, meta, ts).records.last() == spec_stamped_record(
            values,
            meta,
            ts,
        ),
{
    let st2 = spec_after_insert(st, values, meta, ts);
    assert(store_wf(st2)) by {
        assert(forall|i: int|
            0 <= i < st.records.len() ==> st2.records[i] == #[trigger] st.records[i]);
    }
    assert(store_fits(st2)) by {
        assert(forall|i: int|
            0 <= i < st.records.len() ==> st2.records[i] == #[trigger] st.records[i]);
    }
    lemma_store_round_trip(st2);
}

/// A query with k at least the record count ranks every record: the
/// result pairs each position with its key, in strictly ascending
/// (distance, position) order - ascending distance with ties broken by
/// original scan order.
pub proof fn lemma_rank_all_when_k_covers(keys: Seq<u64>, k: int, r: Seq<(usize, u64)>)
    requires
        ranked_top(keys, k, r),
        k >= keys.len(),
        forall|j: int| 0 <= j < keys.len() ==> holds_index(r, j),
    ensures
        r.len() == keys.len(),
        forall|m: int| 0 <= m < r.len() ==> (#[trigger] r[m]).0 < keys.len() && r[m].1 == keys[r[m].0 as int],
        forall|m1: int, m2: int| 0 <= m1 < m2 < r.len() ==> lex_before(
            (#[trigger] r[m1]).1,
            r[m1].0 as int,
            (#[trigger] r[m2]).1,
            r[m2].0 as int,
        ),
{
}

/// One eviction pass keeps the estimate within the budget, and what it
/// removed was either clean and idle past the TTL, or left with priority
/// no greater than anything kept: clean entries leave before dirty ones,
/// and the least recently accessed leave first within a class. In
/// particular, a dirty entry is only ever removed once the budget forces
/// it, never by age.
pub proof fn lemma_eviction_pass_policy(
    cs: Seq<CEntryModel>,
    max_bytes: usize,
    now: u64,
    ttl: u64,
)
    ensures
        clamp_usize(
            spec_total_bytes(spec_budget_sweep(spec_ttl_sweep(cs, now, ttl), max_bytes)),
        ) <= max_bytes,
        forall|i: int|
            #![trigger cs[i]]
            0 <= i < cs.len() && !spec_budget_sweep(spec_ttl_sweep(cs, now, ttl), max_bytes).contains(
                cs[i],
            ) ==> ((!cs[i].dirty && spec_age(now, cs[i].last_access) > ttl) || (forall|m: int|
                0 <= m < spec_budget_sweep(spec_ttl_sweep(cs, now, ttl), max_bytes).len()
                    ==> prio_le(
                    cs[i],
                    #[trigger] spec_budget_sweep(spec_ttl_sweep(cs, now, ttl), max_bytes)[m],
                ))),
{
    let s0 = spec_ttl_sweep(cs, now, ttl);
    let r = spec_budget_sweep(s0, max_bytes);
    lemma_budget_sweep_bound(s0, max_bytes);
    assert forall|i: int|
        0 <= i < cs.len() && !r.contains(#[trigger] cs[i]) implies ((!cs[i].dirty && spec_age(
        now,
        cs[i].last_access,
    ) > ttl) || (forall|m: int| 0 <= m < r.len() ==> prio_le(cs[i], #[trigger] r[m]))) by {
        if ttl_keeps(cs[i], now, ttl) {
            crate::cache::lemma_ttl_sweep_keeps_dirty(cs, now, ttl, i);
            let w = choose|w: int| 0 <= w < s0.len() && s0[w] == cs[i];
            assert forall|m: int| 0 <= m < r.len() implies prio_le(cs[i], #[trigger] r[m]) by {
                lemma_budget_sweep_order(s0, max_bytes, w, m);
            }
        }
    }
}

/// A dirty entry is never removed by the TTL sweep, whatever its age and
/// however large the table: age-based removal only ever touches entries
/// whose durable copy is current.
pub proof fn lemma_ttl_never_removes_dirty(cs: Seq<CEntryModel>, now: u64, ttl: u64, i: int)
    requires
        0 <= i < cs.len(),
        cs[i].dirty,
    ensures
        spec_ttl_sweep(cs, now, ttl).contains(cs[i]),
{
    crate::cache::lemma_ttl_sweep_keeps_dirty(cs, now, ttl, i);
}

/// Bulk-import accounting balances at every moment: the rows accepted so
/// far are exactly the rows already written out in shards plus the rows
/// still pending, so a finished import of N rows with M skipped reports
/// N - M imported and its shard files hold N - M records in total.
pub proof fn lemma_import_accounting(b: BulkImporter)
    requires
        importer_wf(b),
    ensures
        b.imported == b.flushed + b.store@.records.len(),
{
}

/// Every shard snapshot the importer hands out decodes back to exactly
/// the batch it was taken from.
pub proof fn lemma_shard_round_trip(full: StoreModel, bytes: Seq<u8>)
    requires
        bytes == spec_enc_store(full),
        store_wf(full),
        store_fits(full),
    ensures
        spec_dec_store(bytes) == Some(full),
{
    lemma_store_round_trip(full);
}

/// Helper for the uniqueness of the ranking: where two rankings agree
/// strictly below a position but differ at it, the second's pair strictly
/// precedes the first's.
proof fn lemma_ranked_dominates(
    keys: Seq<u64>,
    k: int,
    r1: Seq<(usize, u64)>,
    r2: Seq<(usize, u64)>,
    m0: int,
)
    requires
        ranked_top(keys, k, r1),
        ranked_top(keys, k, r2),
        0 <= m0 < r1.len(),
        r1.len() == r2.len(),
        forall|j: int| 0 <= j < m0 ==> r1[j] == r2[j],
        r1[m0] != r2[m0],
    ensures
        lex_before(r2[m0].1, r2[m0].0 as int, r1[m0].1, r1[m0].0 as int),
{
    let a = r1[m0];
    let ia = a.0 as int;
    assert(a.1 == keys[ia]);
    if holds_index(r2, ia) {
        let p = choose|p: int| 0 <= p < r2.len() && (#[trigger] r2[p]).0 == a.0;
        assert(r2[p].1 == keys[ia]);
        if p == m0 {
            assert(r2[m0].0 == a.0 && r2[m0].1 == a.1);
            assert(false);
        } else if p < m0 {
            assert(r2[p] == r1[p]);
            assert(r1[p].0 == r1[m0].0);
            assert(lex_before(r1[p].1, r1[p].0 as int, r1[m0].1, r1[m0].0 as int));
            assert(false);
        } else {
            assert(lex_before(r2[m0].1, r2[m0].0 as int, r2[p].1, r2[p].0 as int));
        }
    } else {
        assert(lex_before(r2[m0].1, r2[m0].0 as int, keys[ia], ia));
    }
}

/// The ranking contract pins its result completely: any two sequences
/// that satisfy it for the same keys and the same k are equal. The
/// selection is the one stable order - ascending distance, ties by
/// original scan position - and nothing else meets its description.
pub proof fn lemma_ranked_top_unique(
    keys: Seq<u64>,
    k: int,
    r1: Seq<(usize, u64)>,
    r2: Seq<(usize, u64)>,
)
    requires
        ranked_top(keys, k, r1),
        ranked_top(keys, k, r2),
    ensures
        r1 == r2,
    decreases r1.len(),
{
    lemma_ranked_agree(keys, k, r1, r2, r1.len() as int);
    assert(r1 =~= r2);
}

proof fn lemma_ranked_agree(
    keys: Seq<u64>,
    k: int,
    r1: Seq<(usize, u64)>,
    r2: Seq<(usize, u64)>,
    m: int,
)
    requires
        ranked_top(keys, k, r1),
        ranked_top(keys, k, r2),
        0 <= m <= r1.len(),
    ensures
        forall|j: int| 0 <= j < m ==> r1[j] == r2[j],
    decreases m,
{
    if m > 0 {
        lemma_ranked_agree(keys, k, r1, r2, m - 1);
        let m0 = m - 1;
        if r1[m0] != r2[m0] {
            lemma_ranked_dominates(keys, k, r1, r2, m0);
            lemma_ranked_dominates(keys, k, r2, r1, m0);
            assert(false);
        }
        assert forall|j: int| 0 <= j < m implies r1[j] == r2[j] by {
            if j < m0 {
            } else {
                assert(r1[m0] == r2[m0]);
            }
        }
    }
}

} // verus!
