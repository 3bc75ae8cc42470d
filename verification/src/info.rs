//! Full-scan introspection: reading the canonical file plus every shard
//! of a collection, concatenating their record counts and folding every
//! metadata entry into a key -> observed-type-set schema, while rejecting
//! a set of shards that disagree on the dimension.

use vstd::prelude::*;
use vstd::pervasive::VecAdditionalExecFns;
use vstd::string::StringExecFns;

use crate::codec::{decode_store, spec_dec_store};
use crate::errors::EngineError;
use crate::meta::{EntryModel, MetadataEntry, ValueModel};
use crate::metric::str_eq;
use crate::record::RecordModel;

verus! {

/// Which metadata value kinds have been observed under one key.
#[derive(Clone, Copy, Debug, PartialEq, Eq, Structural)]
pub struct TypeSet {
    pub boolean: bool,
    pub datetime: bool,
    pub float: bool,
    pub integer: bool,
    pub string: bool,
}

pub open spec fn empty_types() -> TypeSet {
    TypeSet { boolean: false, datetime: false, float: false, integer: false, string: false }
}

/// The set with one value's kind added.
pub open spec fn spec_mark(t: TypeSet, v: ValueModel) -> TypeSet {
    match v {
        ValueModel::Integer(_) => TypeSet { integer: true, ..t },
        ValueModel::Float(_) => TypeSet { float: true, ..t },
        ValueModel::String(_) => TypeSet { string: true, ..t },
        ValueModel::Bool(_) => TypeSet { boolean: true, ..t },
        ValueModel::DateTime(_, _) => TypeSet { datetime: true, ..t },
    }
}

pub open spec fn spec_types_of(m: Map<Seq<char>, TypeSet>, k: Seq<char>) -> TypeSet {
    if m.dom().contains(k) {
        m[k]
    } else {
        empty_types()
    }
}

pub open spec fn spec_absorb_entry(m: Map<Seq<char>, TypeSet>, e: EntryModel) -> Map<
    Seq<char>,
    TypeSet,
> {
    m.insert(e.key, spec_mark(spec_types_of(m, e.key), e.value))
}

pub open spec fn spec_absorb_entries(m: Map<Seq<char>, TypeSet>, es: Seq<EntryModel>) -> Map<
    Seq<char>,
    TypeSet,
>
    decreases es.len(),
{
    if es.len() == 0 {
        m
    } else {
        spec_absorb_entries(spec_absorb_entry(m, es[0]), es.drop_first())
    }
}

pub open spec fn spec_absorb_records(m: Map<Seq<char>, TypeSet>, rs: Seq<RecordModel>) -> Map<
    Seq<char>,
    TypeSet,
>
    decreases rs.len(),
{
    if rs.len() == 0 {
        m
    } else {
        spec_absorb_records(spec_absorb_entries(m, rs[0].meta), rs.drop_first())
    }
}

proof fn lemma_absorb_entries_push(m: Map<Seq<char>, TypeSet>, es: Seq<EntryModel>, e: EntryModel)
    ensures
        spec_absorb_entries(m, es.push(e)) == spec_absorb_entry(spec_absorb_entries(m, es), e),
    decreases es.len(),
{
    if es.len() == 0 {
        assert(es.push(e)[0] == e);
        assert(es.push(e).drop_first() =~= Seq::<EntryModel>::empty());
        assert(spec_absorb_entries(spec_absorb_entry(m, e), Seq::<EntryModel>::empty())
            == spec_absorb_entry(m, e));
        assert(spec_absorb_entries(m, es) == m);
    } else {
        assert(es.push(e)[0] == es[0]);
        assert(es.push(e).drop_first() =~= es.drop_first().push(e));
        lemma_absorb_entries_push(spec_absorb_entry(m, es[0]), es.drop_first(), e);
    }
}

proof fn lemma_absorb_records_push(m: Map<Seq<char>, TypeSet>, rs: Seq<RecordModel>, r: RecordModel)
    ensures
        spec_absorb_records(m, rs.push(r)) == spec_absorb_entries(
            spec_absorb_records(m, rs),
            r.meta,
        ),
    decreases rs.len(),
{
    if rs.len() == 0 {
        assert(rs.push(r)[0] == r);
        assert(rs.push(r).drop_first() =~= Seq::<RecordModel>::empty());
        assert(spec_absorb_records(spec_absorb_entries(m, r.meta), Seq::<RecordModel>::empty())
            == spec_absorb_entries(m, r.meta));
        assert(spec_absorb_records(m, rs) == m);
    } else {
        assert(rs.push(r)[0] == rs[0]);
        assert(rs.push(r).drop_first() =~= rs.drop_first().push(r));
        lemma_absorb_records_push(spec_absorb_entries(m, rs[0].meta), rs.drop_first(), r);
    }
}

/// What a key -> type-set table holds, as a map.
pub open spec fn spec_schema_map(s: Seq<(String, TypeSet)>) -> Map<Seq<char>, TypeSet>
    decreases s.len(),
{
    if s.len() == 0 {
        Map::empty()
    } else {
        spec_schema_map(s.drop_last()).insert(s.last().0@, s.last().1)
    }
}

pub open spec fn schema_keys_distinct(s: Seq<(String, TypeSet)>) -> bool {
    forall|i: int, j: int| 0 <= i < j < s.len() ==> (#[trigger] s[i]).0@ != (#[trigger] s[j]).0@
}

proof fn lemma_schema_map_lookup(s: Seq<(String, TypeSet)>, i: int)
    requires
        schema_keys_distinct(s),
        0 <= i < s.len(),
    ensures
        spec_schema_map(s).dom().contains(s[i].0@),
        spec_schema_map(s)[s[i].0@] == s[i].1,
    decreases s.len(),
{
    if i == s.len() - 1 {
    } else {
        assert(s.drop_last()[i] == s[i]);
        assert(schema_keys_distinct(s.drop_last())) by {
            assert(forall|a: int, b: int|
                0 <= a < b < s.drop_last().len() ==> s.drop_last()[a] == s[a] && s.drop_last()[b]
                    == s[b]);
        }
        lemma_schema_map_lookup(s.drop_last(), i);
        assert(s[i].0@ != s.last().0@);
    }
}

proof fn lemma_schema_map_absent(s: Seq<(String, TypeSet)>, k: Seq<char>)
    requires
        forall|i: int| 0 <= i < s.len() ==> (#[trigger] s[i]).0@ != k,
    ensures
        !spec_schema_map(s).dom().contains(k),
    decreases s.len(),
{
    if s.len() == 0 {
    } else {
        assert(forall|i: int|
            0 <= i < s.drop_last().len() ==> (#[trigger] s.drop_last()[i]) == s[i]);
        lemma_schema_map_absent(s.drop_last(), k);
        assert(s.last() == s[s.len() - 1]);
    }
}

proof fn lemma_schema_map_update(s: Seq<(String, TypeSet)>, i: int, key: String, ts: TypeSet)
    requires
        schema_keys_distinct(s),
        0 <= i < s.len(),
        key@ == s[i].0@,
    ensures
        spec_schema_map(s.update(i, (key, ts))) =~= spec_schema_map(s).insert(s[i].0@, ts),
    decreases s.len(),
{
    let s2 = s.update(i, (key, ts));
    if i == s.len() - 1 {
        assert(s2.drop_last() =~= s.drop_last());
        assert(s2.last() == (key, ts));
        assert(spec_schema_map(s2) =~= spec_schema_map(s).insert(s[i].0@, ts));
    } else {
        assert(s2.drop_last() =~= s.drop_last().update(i, (key, ts)));
        assert(schema_keys_distinct(s.drop_last())) by {
            assert(forall|a: int, b: int|
                0 <= a < b < s.drop_last().len() ==> s.drop_last()[a] == s[a] && s.drop_last()[b]
                    == s[b]);
        }
        assert(s.drop_last()[i] == s[i]);
        lemma_schema_map_update(s.drop_last(), i, key, ts);
        assert(s2.last() == s.last());
        assert(s[i].0@ != s.last().0@);
        assert(spec_schema_map(s2) =~= spec_schema_map(s).insert(s[i].0@, ts));
    }
}

/// The running result of a full scan: the dimension observed so far (zero
/// until one is seen), the record count, and the schema. One `absorb` per
/// durable file, canonical first.
pub struct InfoBuilder {
    pub dimension: usize,
    pub count: usize,
    pub schema: Vec<(String, TypeSet)>,
}

pub open spec fn info_wf(b: InfoBuilder) -> bool {
    schema_keys_distinct(b.schema@)
}

impl InfoBuilder {
    pub fn new() -> (r: Self)
        ensures
            info_wf(r),
            r.dimension == 0,
            r.count == 0,
            spec_schema_map(r.schema@) == Map::<Seq<char>, TypeSet>::empty(),
    {
        let r = InfoBuilder { dimension: 0, count: 0, schema: Vec::new() };
        proof {
            assert(r.schema@ =~= Seq::<(String, TypeSet)>::empty());
        }
        r
    }

    /// Marks one observed value kind under one key.
    fn note_entry(&mut self, e: &MetadataEntry)
        requires
            info_wf(*old(self)),
        ensures
            info_wf(*final(self)),
            final(self).dimension == old(self).dimension,
            final(self).count == old(self).count,
            spec_schema_map(final(self).schema@) == spec_absorb_entry(
                spec_schema_map(old(self).schema@),
                e@,
            ),
    {
        let ghost pre = self.schema@;
        let mut i: usize = 0;
        while i < self.schema.len()
            invariant
                i <= self.schema@.len(),
                self.schema@ == pre,
                pre == old(self).schema@,
                self.dimension == old(self).dimension,
                self.count == old(self).count,
                info_wf(*self),
                forall|k: int| 0 <= k < i ==> (#[trigger] pre[k]).0@ != e@.key,
            decreases self.schema@.len() - i,
        {
            if str_eq(self.schema[i].0.as_str(), e.key()) {
                let key = self.schema[i].0.clone();
                let ts = self.schema[i].1;
                let marked = mark_types(ts, e);
                proof {
                    lemma_schema_map_lookup(pre, i as int);
                    assert(spec_types_of(spec_schema_map(pre), e@.key) == ts);
                    lemma_schema_map_update(pre, i as int, key, marked);
                }
                self.schema.set(i, (key, marked));
                proof {
                    assert(self.schema@ == pre.update(i as int, (key, marked)));
                    assert(spec_schema_map(self.schema@) == spec_schema_map(pre).insert(
                        pre[i as int].0@,
                        marked,
                    ));
                    assert(pre[i as int].0@ == e@.key);
                    assert(marked == spec_mark(spec_types_of(spec_schema_map(pre), e@.key), e@.value));
                    assert(spec_schema_map(self.schema@) == spec_absorb_entry(
                        spec_schema_map(pre),
                        e@,
                    ));
                    assert(pre == old(self).schema@);
                    assert(spec_schema_map(self.schema@) == spec_absorb_entry(
                        spec_schema_map(old(self).schema@),
                        e@,
                    ));
                }
                return ;
            }
            i += 1;
        }
        proof {
            lemma_schema_map_absent(pre, e@.key);
        }
        let key = String::from_str(e.key());
        let marked = mark_types(empty_types_exec(), e);
        self.schema.push((key, marked));
        proof {
            assert(self.schema@.drop_last() =~= pre);
            assert(spec_schema_map(self.schema@) =~= spec_absorb_entry(spec_schema_map(pre), e@));
            assert forall|a: int, b: int|
                0 <= a < b < self.schema@.len() implies (#[trigger] self.schema@[a]).0@ != (
            #[trigger] self.schema@[b]).0@ by {
                if b == self.schema@.len() - 1 {
                    assert(self.schema@[a] == pre[a]);
                }
            }
        }
    }

    /// Folds one durable file into the running result: decodes it, takes
    /// or checks the dimension, adds the record count (saturating), and
    /// absorbs every metadata entry into the schema. Fails with
    /// `CorruptData` exactly when the bytes do not decode, and with
    /// `DimensionMismatch` exactly when a dimension was already observed
    /// and this file's differs; either failure leaves the result unchanged.
    pub fn absorb(&mut self, bytes: &Vec<u8>) -> (r: Result<(), EngineError>)
        requires
            info_wf(*old(self)),
        ensures
            info_wf(*final(self)),
            match r {
                Ok(()) => {
                    &&& spec_dec_store(bytes@) matches Some(st)
                    &&& (old(self).dimension == 0 || st.dimension == old(self).dimension as int)
                    &&& final(self).dimension as int == (if old(self).dimension == 0 {
                        spec_dec_store(bytes@).unwrap().dimension
                    } else {
                        old(self).dimension as int
                    })
                    &&& final(self).count as nat == crate::cache::clamp_usize(
                        (old(self).count + spec_dec_store(bytes@).unwrap().records.len()) as nat,
                    )
                    &&& spec_schema_map(final(self).schema@) == spec_absorb_records(
                        spec_schema_map(old(self).schema@),
                        spec_dec_store(bytes@).unwrap().records,
                    )
                },
                Err(e) => {
                    &&& *final(self) == *old(self)
                    &&& (e == EngineError::CorruptData <==> spec_dec_store(bytes@) is None)
                    &&& (e == EngineError::DimensionMismatch ==> (spec_dec_store(
                        bytes@,
                    ) matches Some(st) && old(self).dimension != 0 && st.dimension != old(
                        self,
                    ).dimension as int))
                    &&& (e == EngineError::CorruptData || e == EngineError::DimensionMismatch)
                },
            },
    {
        let db = match decode_store(bytes) {
            Ok(db) => db,
            Err(e) => {
                return Err(e);
            },
        };
        if self.dimension != 0 && db.dimension != self.dimension {
            return Err(EngineError::DimensionMismatch);
        }
        if self.dimension == 0 {
            self.dimension = db.dimension;
        }
        self.count = crate::cache::sat_add(self.count, db.vectors.len());
        let ghost d1 = self.dimension;
        let ghost c1 = self.count;
        let ghost m0 = spec_schema_map(self.schema@);
        let ghost rs = db@.records;
        let mut i: usize = 0;
        while i < db.vectors.len()
            invariant
                i <= db.vectors@.len(),
                info_wf(*self),
                rs.len() == db.vectors@.len(),
                forall|k: int| 0 <= k < db.vectors@.len() ==> (#[trigger] db.vectors@[k])@ == rs[k],
                self.dimension == d1,
                self.count == c1,
                spec_schema_map(self.schema@) == spec_absorb_records(m0, rs.take(i as int)),
            decreases db.vectors@.len() - i,
        {
            let ghost mr = spec_schema_map(self.schema@);
            let meta = db.vectors[i].metadata();
            let mut j: usize = 0;
            while j < meta.len()
                invariant
                    j <= meta@.len(),
                    info_wf(*self),
                    meta@.len() == rs[i as int].meta.len(),
                    i < rs.len(),
                    forall|k: int| 0 <= k < meta@.len() ==> (#[trigger] meta@[k])@ == rs[i as int].meta[k],
                    spec_schema_map(self.schema@) == spec_absorb_entries(
                        mr,
                        rs[i as int].meta.take(j as int),
                    ),
                    self.dimension == d1,
                    self.count == c1,
                decreases meta@.len() - j,
            {
                proof {
                    assert(rs[i as int].meta.take(j + 1) =~= rs[i as int].meta.take(
                        j as int,
                    ).push(rs[i as int].meta[j as int]));
                    lemma_absorb_entries_push(mr, rs[i as int].meta.take(j as int), rs[i as int].meta[j as int]);
                }
                self.note_entry(&meta[j]);
                j += 1;
            }
            proof {
                assert(rs[i as int].meta.take(meta@.len() as int) =~= rs[i as int].meta);
                assert(rs.take(i + 1) =~= rs.take(i as int).push(rs[i as int]));
                lemma_absorb_records_push(m0, rs.take(i as int), rs[i as int]);
            }
            i += 1;
        }
        proof {
            assert(rs.take(db.vectors@.len() as int) =~= rs);
        }
        Ok(())
    }

    /// Closes the scan: the collection's dimension and total record count,
    /// or `NotFound` exactly when no file set a dimension (zero still
    /// means none, as an all-zero-dimension set has nothing to report).
    pub fn finish(&self) -> (r: Result<(usize, usize), EngineError>)
        ensures
            match r {
                Ok(p) => self.dimension != 0 && p.0 == self.dimension && p.1 == self.count,
                Err(e) => e == EngineError::NotFound && self.dimension == 0,
            },
    {
        if self.dimension == 0 {
            Err(EngineError::NotFound)
        } else {
            Ok((self.dimension, self.count))
        }
    }

    /// The observed keys with their kind names, each list in the fixed
    /// alphabetical order of the kind names.
    pub fn schema_names(&self) -> (r: Vec<(String, Vec<String>)>)
        ensures
            r@.len() == self.schema@.len(),
            forall|i: int|
                0 <= i < r@.len() ==> (#[trigger] r@[i]).0@ == self.schema@[i].0@ && r@[i].1@.map_values(
                    |s: String| s@,
                ) == spec_kind_names(self.schema@[i].1),
    {
        let mut out: Vec<(String, Vec<String>)> = Vec::new();
        let mut i: usize = 0;
        while i < self.schema.len()
            invariant
                i <= self.schema@.len(),
                out@.len() == i,
                forall|k: int|
                    0 <= k < i ==> (#[trigger] out@[k]).0@ == self.schema@[k].0@
                        && out@[k].1@.map_values(|s: String| s@) == spec_kind_names(
                        self.schema@[k].1,
                    ),
            decreases self.schema@.len() - i,
        {
            let key = self.schema[i].0.clone();
            let names = kind_names(self.schema[i].1);
            out.push((key, names));
            i += 1;
        }
        out
    }
}

/// The kind names a type set reports, in the fixed alphabetical order.
pub open spec fn spec_kind_names(t: TypeSet) -> Seq<Seq<char>> {
    (if t.boolean {
        seq!["Bool"@]
    } else {
        Seq::<Seq<char>>::empty()
    }) + (if t.datetime {
        seq!["DateTime"@]
    } else {
        Seq::<Seq<char>>::empty()
    }) + (if t.float {
        seq!["Float"@]
    } else {
        Seq::<Seq<char>>::empty()
    }) + (if t.integer {
        seq!["Integer"@]
    } else {
        Seq::<Seq<char>>::empty()
    }) + (if t.string {
        seq!["String"@]
    } else {
        Seq::<Seq<char>>::empty()
    })
}

fn empty_types_exec() -> (r: TypeSet)
    ensures
        r == empty_types(),
{
    TypeSet { boolean: false, datetime: false, float: false, integer: false, string: false }
}

/// The set with one entry's value kind added.
fn mark_types(t: TypeSet, e: &MetadataEntry) -> (r: TypeSet)
    ensures
        r == spec_mark(t, e@.value),
{
    let mut r = t;
    match e.value() {
        crate::meta::MetadataValue::Integer(_) => {
            r.integer = true;
        },
        crate::meta::MetadataValue::Float(_) => {
            r.float = true;
        },
        crate::meta::MetadataValue::String(_) => {
            r.string = true;
        },
        crate::meta::MetadataValue::Bool(_) => {
            r.boolean = true;
        },
        crate::meta::MetadataValue::DateTime(_) => {
            r.datetime = true;
        },
    }
    r
}

/// The kind names of a type set, in the fixed alphabetical order.
pub fn kind_names(t: TypeSet) -> (r: Vec<String>)
    ensures
        r@.map_values(|s: String| s@) == spec_kind_names(t),
{
    let mut out: Vec<String> = Vec::new();
    if t.boolean {
        out.push(String::from_str("Bool"));
    }
    if t.datetime {
        out.push(String::from_str("DateTime"));
    }
    if t.float {
        out.push(String::from_str("Float"));
    }
    if t.integer {
        out.push(String::from_str("Integer"));
    }
    if t.string {
        out.push(String::from_str("String"));
    }
    proof {
        assert(out@.map_values(|s: String| s@) =~= spec_kind_names(t));
    }
    out
}

} // verus!
