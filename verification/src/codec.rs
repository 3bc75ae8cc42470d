//! The durable form of a collection: a self-describing, length-prefixed
//! binary layout for {name, dimension, ordered records}, where each record
//! is {ordered 64-bit patterns, ordered (key, tagged value) pairs}.
//!
//! `spec_enc_store` is the layout's definition; `encode_store` produces
//! exactly it, and `decode_store` is proved to be its exact inverse
//! (`lemma_store_round_trip`), so persistence round-trips losslessly,
//! including full IEEE-754 bit patterns and timestamp precision.
//!
//! All integers are stored as 8-byte little-endian words; strings as a
//! length-prefixed UTF-8 byte run; tagged values as one tag byte plus a
//! payload. Decoding rejects any byte run that is not the encoding of a
//! well-formed store.

use vstd::bytes::{spec_u64_from_le_bytes, spec_u64_to_le_bytes, u64_from_le_bytes, u64_to_le_bytes};
use vstd::prelude::*;
use vstd::slice::{slice_subrange, slice_to_vec};
use vstd::utf8::{decode_utf8, encode_utf8, encode_utf8_decode_utf8, encode_utf8_valid_utf8, valid_utf8};

use crate::errors::EngineError;
use crate::meta::{EntryModel, MetadataEntry, MetadataValue, Timestamp, ValueModel};
use crate::record::{RecordModel, Vector};
use crate::store::{store_wf, Database, StoreModel};

verus! {

// ---------------------------------------------------------------------------
// The layout, stated as spec-level encoders.
// ---------------------------------------------------------------------------

/// A length-prefixed byte run.
pub open spec fn spec_enc_bytes(payload: Seq<u8>) -> Seq<u8> {
    spec_u64_to_le_bytes(payload.len() as u64) + payload
}

/// A string: its UTF-8 bytes, length-prefixed.
pub open spec fn spec_enc_str(s: Seq<char>) -> Seq<u8> {
    spec_enc_bytes(encode_utf8(s))
}

/// A tagged metadata value: one tag byte, then the payload.
pub open spec fn spec_enc_value(v: ValueModel) -> Seq<u8> {
    match v {
        ValueModel::Integer(i) => seq![0u8] + spec_u64_to_le_bytes(((i + 0x8000_0000) as u64)),
        ValueModel::Float(bits) => seq![1u8] + spec_u64_to_le_bytes(bits as u64),
        ValueModel::String(s) => seq![2u8] + spec_enc_str(s),
        ValueModel::Bool(x) => seq![3u8] + seq![if x { 1u8 } else { 0u8 }],
        ValueModel::DateTime(secs, nanos) => seq![4u8] + spec_u64_to_le_bytes(
            ((secs + 0x8000_0000_0000_0000) as u64),
        ) + spec_u64_to_le_bytes(nanos as u64),
    }
}

pub open spec fn spec_enc_entry(e: EntryModel) -> Seq<u8> {
    spec_enc_str(e.key) + spec_enc_value(e.value)
}

pub open spec fn spec_enc_entries(es: Seq<EntryModel>) -> Seq<u8>
    decreases es.len(),
{
    if es.len() == 0 {
        Seq::empty()
    } else {
        spec_enc_entry(es[0]) + spec_enc_entries(es.drop_first())
    }
}

pub open spec fn spec_enc_components(vs: Seq<u64>) -> Seq<u8>
    decreases vs.len(),
{
    if vs.len() == 0 {
        Seq::empty()
    } else {
        spec_u64_to_le_bytes(vs[0]) + spec_enc_components(vs.drop_first())
    }
}

pub open spec fn spec_enc_record(r: RecordModel) -> Seq<u8> {
    spec_u64_to_le_bytes(r.values.len() as u64) + spec_enc_components(r.values)
        + spec_u64_to_le_bytes(r.meta.len() as u64) + spec_enc_entries(r.meta)
}

pub open spec fn spec_enc_records(rs: Seq<RecordModel>) -> Seq<u8>
    decreases rs.len(),
{
    if rs.len() == 0 {
        Seq::empty()
    } else {
        spec_enc_record(rs[0]) + spec_enc_records(rs.drop_first())
    }
}

pub open spec fn spec_enc_store(st: StoreModel) -> Seq<u8> {
    spec_enc_str(st.name) + spec_u64_to_le_bytes(st.dimension as u64) + spec_u64_to_le_bytes(
        st.records.len() as u64,
    ) + spec_enc_records(st.records)
}

// Machine limits: a piece whose length prefix fits the platform's word can
// be decoded back. Everything an exec `Database` holds satisfies these.

pub open spec fn value_fits(v: ValueModel) -> bool {
    match v {
        ValueModel::String(s) => encode_utf8(s).len() <= usize::MAX,
        _ => true,
    }
}

pub open spec fn entry_fits(e: EntryModel) -> bool {
    encode_utf8(e.key).len() <= usize::MAX && value_fits(e.value)
}

pub open spec fn record_fits(r: RecordModel) -> bool {
    &&& r.values.len() <= usize::MAX
    &&& r.meta.len() <= usize::MAX
    &&& forall|i: int| 0 <= i < r.meta.len() ==> entry_fits(#[trigger] r.meta[i])
}

pub open spec fn store_fits(st: StoreModel) -> bool {
    &&& encode_utf8(st.name).len() <= usize::MAX
    &&& 0 <= st.dimension <= usize::MAX
    &&& st.records.len() <= usize::MAX
    &&& forall|i: int| 0 <= i < st.records.len() ==> record_fits(#[trigger] st.records[i])
}

// ---------------------------------------------------------------------------
// Appending one encoded piece to a growing buffer.
// ---------------------------------------------------------------------------

fn push_u64(out: &mut Vec<u8>, v: u64)
    ensures
        final(out)@ == old(out)@ + spec_u64_to_le_bytes(v),
{
    let mut bs = u64_to_le_bytes(v);
    out.append(&mut bs);
}

fn push_bytes_field(out: &mut Vec<u8>, payload: &[u8])
    ensures
        final(out)@ == old(out)@ + spec_enc_bytes(payload@),
        payload@.len() <= usize::MAX,
{
    push_u64(out, payload.len() as u64);
    let mut copy = slice_to_vec(payload);
    out.append(&mut copy);
    proof {
        assert(final(out)@ =~= old(out)@ + spec_enc_bytes(payload@));
    }
}

fn push_str_field(out: &mut Vec<u8>, s: &str)
    ensures
        final(out)@ == old(out)@ + spec_enc_str(s@),
        encode_utf8(s@).len() <= usize::MAX,
{
    let bytes = s.as_bytes();
    push_bytes_field(out, bytes);
}

fn push_value(out: &mut Vec<u8>, v: &MetadataValue)
    ensures
        final(out)@ == old(out)@ + spec_enc_value(v@),
        value_fits(v@),
{
    let ghost pre = out@;
    match v {
        MetadataValue::Integer(i) => {
            out.push(0u8);
            push_u64(out, ((*i as i64) + 0x8000_0000i64) as u64);
        },
        MetadataValue::Float(bits) => {
            out.push(1u8);
            push_u64(out, *bits as u64);
        },
        MetadataValue::String(s) => {
            out.push(2u8);
            push_str_field(out, s.as_str());
        },
        MetadataValue::Bool(x) => {
            out.push(3u8);
            out.push(if *x { 1u8 } else { 0u8 });
        },
        MetadataValue::DateTime(t) => {
            out.push(4u8);
            push_u64(out, (((t.secs as i128) + 0x8000_0000_0000_0000i128) as u64));
            push_u64(out, t.nanos as u64);
        },
    }
    proof {
        assert(out@ =~= pre + spec_enc_value(v@));
    }
}

fn push_entry(out: &mut Vec<u8>, e: &MetadataEntry)
    ensures
        final(out)@ == old(out)@ + spec_enc_entry(e@),
        entry_fits(e@),
{
    let ghost pre = out@;
    push_str_field(out, e.key());
    push_value(out, e.value());
    proof {
        assert(out@ =~= pre + spec_enc_entry(e@));
    }
}

proof fn lemma_enc_entries_push(es: Seq<EntryModel>, e: EntryModel)
    ensures
        spec_enc_entries(es.push(e)) == spec_enc_entries(es) + spec_enc_entry(e),
    decreases es.len(),
{
    if es.len() == 0 {
        assert(es.push(e)[0] == e);
        assert(es.push(e).drop_first() =~= Seq::<EntryModel>::empty());
        assert(spec_enc_entries(Seq::<EntryModel>::empty()) == Seq::<u8>::empty());
        assert(spec_enc_entries(es) == Seq::<u8>::empty());
        assert(spec_enc_entries(es.push(e)) =~= spec_enc_entries(es) + spec_enc_entry(e));
    } else {
        assert(es.push(e).drop_first() =~= es.drop_first().push(e));
        lemma_enc_entries_push(es.drop_first(), e);
        assert(spec_enc_entries(es.push(e)) =~= spec_enc_entries(es) + spec_enc_entry(e));
    }
}

proof fn lemma_enc_components_push(vs: Seq<u64>, v: u64)
    ensures
        spec_enc_components(vs.push(v)) == spec_enc_components(vs) + spec_u64_to_le_bytes(v),
    decreases vs.len(),
{
    if vs.len() == 0 {
        assert(vs.push(v)[0] == v);
        assert(vs.push(v).drop_first() =~= Seq::<u64>::empty());
        assert(spec_enc_components(Seq::<u64>::empty()) == Seq::<u8>::empty());
        assert(spec_enc_components(vs) == Seq::<u8>::empty());
        assert(spec_enc_components(vs.push(v)) =~= spec_enc_components(vs) + spec_u64_to_le_bytes(
            v,
        ));
    } else {
        assert(vs.push(v).drop_first() =~= vs.drop_first().push(v));
        lemma_enc_components_push(vs.drop_first(), v);
        assert(spec_enc_components(vs.push(v)) =~= spec_enc_components(vs) + spec_u64_to_le_bytes(
            v,
        ));
    }
}

proof fn lemma_enc_records_push(rs: Seq<RecordModel>, r: RecordModel)
    ensures
        spec_enc_records(rs.push(r)) == spec_enc_records(rs) + spec_enc_record(r),
    decreases rs.len(),
{
    if rs.len() == 0 {
        assert(rs.push(r)[0] == r);
        assert(rs.push(r).drop_first() =~= Seq::<RecordModel>::empty());
        assert(spec_enc_records(Seq::<RecordModel>::empty()) == Seq::<u8>::empty());
        assert(spec_enc_records(rs) == Seq::<u8>::empty());
        assert(spec_enc_records(rs.push(r)) =~= spec_enc_records(rs) + spec_enc_record(r));
    } else {
        assert(rs.push(r).drop_first() =~= rs.drop_first().push(r));
        lemma_enc_records_push(rs.drop_first(), r);
        assert(spec_enc_records(rs.push(r)) =~= spec_enc_records(rs) + spec_enc_record(r));
    }
}

fn push_record(out: &mut Vec<u8>, v: &Vector)
    ensures
        final(out)@ == old(out)@ + spec_enc_record(v@),
        record_fits(v@),
{
    let ghost pre = out@;
    let data = v.data();
    push_u64(out, data.len() as u64);
    let mut i: usize = 0;
    while i < data.len()
        invariant
            i <= data.len(),
            data@ == v@.values,
            out@ == pre + spec_u64_to_le_bytes(v@.values.len() as u64) + spec_enc_components(
                v@.values.take(i as int),
            ),
        decreases data.len() - i,
    {
        push_u64(out, data[i]);
        proof {
            assert(v@.values.take(i + 1) =~= v@.values.take(i as int).push(v@.values[i as int]));
            lemma_enc_components_push(v@.values.take(i as int), v@.values[i as int]);
        }
        i += 1;
    }
    proof {
        assert(v@.values.take(data@.len() as int) =~= v@.values);
    }
    let meta = v.metadata();
    push_u64(out, meta.len() as u64);
    let ghost mid = out@;
    let mut j: usize = 0;
    while j < meta.len()
        invariant
            j <= meta.len(),
            meta@.map_values(|e: MetadataEntry| e@) == v@.meta,
            meta@.len() == v@.meta.len(),
            forall|k: int| 0 <= k < meta@.len() ==> (#[trigger] meta@[k])@ == v@.meta[k],
            forall|k: int| 0 <= k < j ==> entry_fits(#[trigger] v@.meta[k]),
            out@ == mid + spec_enc_entries(v@.meta.take(j as int)),
        decreases meta.len() - j,
    {
        push_entry(out, &meta[j]);
        proof {
            assert(v@.meta.take(j + 1) =~= v@.meta.take(j as int).push(v@.meta[j as int]));
            lemma_enc_entries_push(v@.meta.take(j as int), v@.meta[j as int]);
        }
        j += 1;
    }
    proof {
        assert(v@.meta.take(meta@.len() as int) =~= v@.meta);
        assert(out@ =~= pre + spec_enc_record(v@));
    }
}

/// Serializes the entire current record set of a collection into the
/// canonical byte layout. A full-snapshot write: every call re-encodes all
/// records held in memory.
pub fn encode_store(db: &Database) -> (out: Vec<u8>)
    ensures
        out@ == spec_enc_store(db@),
        store_fits(db@),
{
    let mut out: Vec<u8> = Vec::new();
    proof {
        assert(out@ =~= Seq::<u8>::empty());
    }
    push_str_field(&mut out, db.name.as_str());
    push_u64(&mut out, db.dimension as u64);
    push_u64(&mut out, db.vectors.len() as u64);
    let ghost head = out@;
    let mut i: usize = 0;
    while i < db.vectors.len()
        invariant
            i <= db.vectors.len(),
            out@ == head + spec_enc_records(db@.records.take(i as int)),
            db@.records.len() == db.vectors@.len(),
            forall|k: int| 0 <= k < db.vectors@.len() ==> (#[trigger] db.vectors@[k])@
                == db@.records[k],
            forall|k: int| 0 <= k < i ==> record_fits(#[trigger] db@.records[k]),
        decreases db.vectors.len() - i,
    {
        push_record(&mut out, &db.vectors[i]);
        proof {
            assert(db@.records.take(i + 1) =~= db@.records.take(i as int).push(
                db@.records[i as int],
            ));
            lemma_enc_records_push(db@.records.take(i as int), db@.records[i as int]);
        }
        i += 1;
    }
    proof {
        assert(db@.records.take(db.vectors@.len() as int) =~= db@.records);
        assert(out@ =~= spec_enc_store(db@));
    }
    out
}

// ---------------------------------------------------------------------------
// Decoding, stated as spec-level cursor parsers. Each takes the buffer and
// a position and yields the parsed piece with the position after it, or
// nothing where the bytes cannot be that piece.
// ---------------------------------------------------------------------------

pub open spec fn spec_dec_byte(b: Seq<u8>, i: int) -> Option<(u8, int)> {
    if 0 <= i && i + 1 <= b.len() {
        Some((b[i], i + 1))
    } else {
        None
    }
}

pub open spec fn spec_dec_u64(b: Seq<u8>, i: int) -> Option<(u64, int)> {
    if 0 <= i && i + 8 <= b.len() {
        Some((spec_u64_from_le_bytes(b.subrange(i, i + 8)), i + 8))
    } else {
        None
    }
}

pub open spec fn spec_dec_bytes(b: Seq<u8>, i: int) -> Option<(Seq<u8>, int)> {
    match spec_dec_u64(b, i) {
        Some((n, j)) => if n <= usize::MAX && j + n <= b.len() {
            Some((b.subrange(j, j + n), j + n))
        } else {
            None
        },
        None => None,
    }
}

pub open spec fn spec_dec_str(b: Seq<u8>, i: int) -> Option<(Seq<char>, int)> {
    match spec_dec_bytes(b, i) {
        Some((bs, j)) => if valid_utf8(bs) {
            Some((decode_utf8(bs), j))
        } else {
            None
        },
        None => None,
    }
}

pub open spec fn spec_dec_value(b: Seq<u8>, i: int) -> Option<(ValueModel, int)> {
    match spec_dec_byte(b, i) {
        Some((tag, j)) => if tag == 0 {
            match spec_dec_u64(b, j) {
                Some((n, j2)) => if n <= u32::MAX {
                    Some((ValueModel::Integer((n - 0x8000_0000) as i32), j2))
                } else {
                    None
                },
                None => None,
            }
        } else if tag == 1 {
            match spec_dec_u64(b, j) {
                Some((n, j2)) => if n <= u32::MAX {
                    Some((ValueModel::Float(n as u32), j2))
                } else {
                    None
                },
                None => None,
            }
        } else if tag == 2 {
            match spec_dec_str(b, j) {
                Some((sv, j2)) => Some((ValueModel::String(sv), j2)),
                None => None,
            }
        } else if tag == 3 {
            match spec_dec_byte(b, j) {
                Some((x, j2)) => if x == 0 {
                    Some((ValueModel::Bool(false), j2))
                } else if x == 1 {
                    Some((ValueModel::Bool(true), j2))
                } else {
                    None
                },
                None => None,
            }
        } else if tag == 4 {
            match spec_dec_u64(b, j) {
                Some((n, j2)) => match spec_dec_u64(b, j2) {
                    Some((n2, j3)) => if n2 <= u32::MAX {
                        Some(
                            (
                                ValueModel::DateTime(
                                    (n - 0x8000_0000_0000_0000) as i64,
                                    n2 as u32,
                                ),
                                j3,
                            ),
                        )
                    } else {
                        None
                    },
                    None => None,
                },
                None => None,
            }
        } else {
            None
        },
        None => None,
    }
}

pub open spec fn spec_dec_entry(b: Seq<u8>, i: int) -> Option<(EntryModel, int)> {
    match spec_dec_str(b, i) {
        Some((k, j)) => match spec_dec_value(b, j) {
            Some((v, j2)) => Some((EntryModel { key: k, value: v }, j2)),
            None => None,
        },
        None => None,
    }
}

pub open spec fn spec_dec_entries(b: Seq<u8>, i: int, n: nat) -> Option<(Seq<EntryModel>, int)>
    decreases n,
{
    if n == 0 {
        Some((Seq::empty(), i))
    } else {
        match spec_dec_entry(b, i) {
            Some((e, j)) => match spec_dec_entries(b, j, (n - 1) as nat) {
                Some((es, end)) => Some((seq![e] + es, end)),
                None => None,
            },
            None => None,
        }
    }
}

pub open spec fn spec_dec_components(b: Seq<u8>, i: int, n: nat) -> Option<(Seq<u64>, int)>
    decreases n,
{
    if n == 0 {
        Some((Seq::empty(), i))
    } else {
        match spec_dec_u64(b, i) {
            Some((v, j)) => match spec_dec_components(b, j, (n - 1) as nat) {
                Some((vs, end)) => Some((seq![v] + vs, end)),
                None => None,
            },
            None => None,
        }
    }
}

pub open spec fn spec_dec_record(b: Seq<u8>, i: int, dim: int) -> Option<(RecordModel, int)> {
    match spec_dec_u64(b, i) {
        Some((cnt, j)) => if cnt <= usize::MAX && cnt == dim {
            match spec_dec_components(b, j, cnt as nat) {
                Some((vs, j2)) => match spec_dec_u64(b, j2) {
                    Some((mc, j3)) => if mc <= usize::MAX {
                        match spec_dec_entries(b, j3, mc as nat) {
                            Some((es, j4)) => Some((RecordModel { values: vs, meta: es }, j4)),
                            None => None,
                        }
                    } else {
                        None
                    },
                    None => None,
                },
                None => None,
            }
        } else {
            None
        },
        None => None,
    }
}

pub open spec fn spec_dec_records(b: Seq<u8>, i: int, n: nat, dim: int) -> Option<
    (Seq<RecordModel>, int),
>
    decreases n,
{
    if n == 0 {
        Some((Seq::empty(), i))
    } else {
        match spec_dec_record(b, i, dim) {
            Some((r, j)) => match spec_dec_records(b, j, (n - 1) as nat, dim) {
                Some((rs, end)) => Some((seq![r] + rs, end)),
                None => None,
            },
            None => None,
        }
    }
}

/// The whole durable form: every byte of the buffer must be consumed.
pub open spec fn spec_dec_store(b: Seq<u8>) -> Option<StoreModel> {
    match spec_dec_str(b, 0) {
        Some((name, i1)) => match spec_dec_u64(b, i1) {
            Some((dim, i2)) => if dim <= usize::MAX {
                match spec_dec_u64(b, i2) {
                    Some((cnt, i3)) => if cnt <= usize::MAX {
                        match spec_dec_records(b, i3, cnt as nat, dim as int) {
                            Some((rs, i4)) => if i4 == b.len() {
                                Some(StoreModel { name, dimension: dim as int, records: rs })
                            } else {
                                None
                            },
                            None => None,
                        }
                    } else {
                        None
                    },
                    None => None,
                }
            } else {
                None
            },
            None => None,
        },
        None => None,
    }
}

// ---------------------------------------------------------------------------
// Decoding a count splits: parsing j + k pieces is parsing j, then k from
// where the first run stopped.
// ---------------------------------------------------------------------------

proof fn lemma_dec_entries_split(b: Seq<u8>, i: int, j: nat, k: nat)
    ensures
        spec_dec_entries(b, i, j + k) == (match spec_dec_entries(b, i, j) {
            Some(p1) => match spec_dec_entries(b, p1.1, k) {
                Some(p2) => Some::<(Seq<EntryModel>, int)>((p1.0 + p2.0, p2.1)),
                None => None,
            },
            None => None,
        }),
    decreases j,
{
    if j == 0 {
        assert(spec_dec_entries(b, i, 0) == Some((Seq::<EntryModel>::empty(), i)));
        match spec_dec_entries(b, i, k) {
            Some(p2) => {
                assert(Seq::<EntryModel>::empty() + p2.0 =~= p2.0);
            },
            None => {},
        }
    } else {
        match spec_dec_entry(b, i) {
            Some((e, m)) => {
                lemma_dec_entries_split(b, m, (j - 1) as nat, k);
                match spec_dec_entries(b, m, (j - 1) as nat) {
                    Some(p1) => {
                        match spec_dec_entries(b, p1.1, k) {
                            Some(p2) => {
                                assert(seq![e] + (p1.0 + p2.0) =~= (seq![e] + p1.0) + p2.0);
                            },
                            None => {},
                        }
                    },
                    None => {},
                }
            },
            None => {},
        }
    }
}

proof fn lemma_dec_components_split(b: Seq<u8>, i: int, j: nat, k: nat)
    ensures
        spec_dec_components(b, i, j + k) == (match spec_dec_components(b, i, j) {
            Some(p1) => match spec_dec_components(b, p1.1, k) {
                Some(p2) => Some::<(Seq<u64>, int)>((p1.0 + p2.0, p2.1)),
                None => None,
            },
            None => None,
        }),
    decreases j,
{
    if j == 0 {
        assert(spec_dec_components(b, i, 0) == Some((Seq::<u64>::empty(), i)));
        match spec_dec_components(b, i, k) {
            Some(p2) => {
                assert(Seq::<u64>::empty() + p2.0 =~= p2.0);
            },
            None => {},
        }
    } else {
        match spec_dec_u64(b, i) {
            Some((v, m)) => {
                lemma_dec_components_split(b, m, (j - 1) as nat, k);
                match spec_dec_components(b, m, (j - 1) as nat) {
                    Some(p1) => {
                        match spec_dec_components(b, p1.1, k) {
                            Some(p2) => {
                                assert(seq![v] + (p1.0 + p2.0) =~= (seq![v] + p1.0) + p2.0);
                            },
                            None => {},
                        }
                    },
                    None => {},
                }
            },
            None => {},
        }
    }
}

proof fn lemma_dec_records_split(b: Seq<u8>, i: int, j: nat, k: nat, dim: int)
    ensures
        spec_dec_records(b, i, j + k, dim) == (match spec_dec_records(b, i, j, dim) {
            Some(p1) => match spec_dec_records(b, p1.1, k, dim) {
                Some(p2) => Some::<(Seq<RecordModel>, int)>((p1.0 + p2.0, p2.1)),
                None => None,
            },
            None => None,
        }),
    decreases j,
{
    if j == 0 {
        assert(spec_dec_records(b, i, 0, dim) == Some((Seq::<RecordModel>::empty(), i)));
        match spec_dec_records(b, i, k, dim) {
            Some(p2) => {
                assert(Seq::<RecordModel>::empty() + p2.0 =~= p2.0);
            },
            None => {},
        }
    } else {
        match spec_dec_record(b, i, dim) {
            Some((r, m)) => {
                lemma_dec_records_split(b, m, (j - 1) as nat, k, dim);
                match spec_dec_records(b, m, (j - 1) as nat, dim) {
                    Some(p1) => {
                        match spec_dec_records(b, p1.1, k, dim) {
                            Some(p2) => {
                                assert(seq![r] + (p1.0 + p2.0) =~= (seq![r] + p1.0) + p2.0);
                            },
                            None => {},
                        }
                    },
                    None => {},
                }
            },
            None => {},
        }
    }
}

// ---------------------------------------------------------------------------
// Executable decoding. Each function returns exactly what its spec-level
// parser says, so `decode_store`'s contract is an equation, not a bound.
// ---------------------------------------------------------------------------

/// Relies on std's `str::from_utf8`: succeeds exactly on valid UTF-8, and
/// returns the string whose UTF-8 encoding is the given bytes.
#[verifier::external_body]
fn bytes_to_string(b: &[u8]) -> (r: Option<String>)
    ensures
        r matches Some(s) ==> encode_utf8(s@) == b@,
        valid_utf8(b@) ==> r is Some,
{
    match std::str::from_utf8(b) {
        Ok(s) => Some(s.to_string()),
        Err(_) => None,
    }
}

fn dec_u64_at(b: &Vec<u8>, i: usize) -> (r: Option<(u64, usize)>)
    ensures
        match r {
            Some(p) => spec_dec_u64(b@, i as int) == Some((p.0, p.1 as int)),
            None => spec_dec_u64(b@, i as int) is None,
        },
{
    if b.len() >= 8 && i <= b.len() - 8 {
        let s = slice_subrange(b.as_slice(), i, i + 8);
        let v = u64_from_le_bytes(s);
        Some((v, i + 8))
    } else {
        None
    }
}

fn dec_bytes_at(b: &Vec<u8>, i: usize) -> (r: Option<(Vec<u8>, usize)>)
    ensures
        match r {
            Some(p) => spec_dec_bytes(b@, i as int) == Some((p.0@, p.1 as int)),
            None => spec_dec_bytes(b@, i as int) is None,
        },
{
    match dec_u64_at(b, i) {
        Some((n, j)) => {
            if n <= usize::MAX as u64 && n as usize <= b.len() - j {
                let payload = slice_to_vec(slice_subrange(b.as_slice(), j, j + n as usize));
                Some((payload, j + n as usize))
            } else {
                None
            }
        },
        None => None,
    }
}

fn dec_str_at(b: &Vec<u8>, i: usize) -> (r: Option<(String, usize)>)
    ensures
        match r {
            Some(p) => spec_dec_str(b@, i as int) == Some((p.0@, p.1 as int)),
            None => spec_dec_str(b@, i as int) is None,
        },
{
    match dec_bytes_at(b, i) {
        Some((bs, j)) => {
            match bytes_to_string(bs.as_slice()) {
                Some(sv) => {
                    proof {
                        encode_utf8_valid_utf8(sv@);
                        encode_utf8_decode_utf8(sv@);
                    }
                    Some((sv, j))
                },
                None => None,
            }
        },
        None => None,
    }
}

fn dec_value_at(b: &Vec<u8>, i: usize) -> (r: Option<(MetadataValue, usize)>)
    ensures
        match r {
            Some(p) => spec_dec_value(b@, i as int) == Some((p.0@, p.1 as int)),
            None => spec_dec_value(b@, i as int) is None,
        },
{
    if i >= b.len() {
        return None;
    }
    let tag = b[i];
    let j = i + 1;
    if tag == 0 {
        match dec_u64_at(b, j) {
            Some((n, j2)) => {
                if n <= u32::MAX as u64 {
                    let v = ((n as i64) - 0x8000_0000i64) as i32;
                    Some((MetadataValue::Integer(v), j2))
                } else {
                    None
                }
            },
            None => None,
        }
    } else if tag == 1 {
        match dec_u64_at(b, j) {
            Some((n, j2)) => {
                if n <= u32::MAX as u64 {
                    Some((MetadataValue::Float(n as u32), j2))
                } else {
                    None
                }
            },
            None => None,
        }
    } else if tag == 2 {
        match dec_str_at(b, j) {
            Some((sv, j2)) => Some((MetadataValue::String(sv), j2)),
            None => None,
        }
    } else if tag == 3 {
        if j >= b.len() {
            return None;
        }
        let x = b[j];
        if x == 0 {
            Some((MetadataValue::Bool(false), j + 1))
        } else if x == 1 {
            Some((MetadataValue::Bool(true), j + 1))
        } else {
            None
        }
    } else if tag == 4 {
        match dec_u64_at(b, j) {
            Some((n, j2)) => {
                match dec_u64_at(b, j2) {
                    Some((n2, j3)) => {
                        if n2 <= u32::MAX as u64 {
                            let secs = ((n as i128) - 0x8000_0000_0000_0000i128) as i64;
                            Some((MetadataValue::DateTime(Timestamp { secs, nanos: n2 as u32 }), j3))
                        } else {
                            None
                        }
                    },
                    None => None,
                }
            },
            None => None,
        }
    } else {
        None
    }
}

fn dec_entry_at(b: &Vec<u8>, i: usize) -> (r: Option<(MetadataEntry, usize)>)
    ensures
        match r {
            Some(p) => spec_dec_entry(b@, i as int) == Some((p.0@, p.1 as int)),
            None => spec_dec_entry(b@, i as int) is None,
        },
{
    match dec_str_at(b, i) {
        Some((k, j)) => {
            match dec_value_at(b, j) {
                Some((v, j2)) => Some((MetadataEntry::new(k, v), j2)),
                None => None,
            }
        },
        None => None,
    }
}

fn dec_entries_at(b: &Vec<u8>, i: usize, n: usize) -> (r: Option<(Vec<MetadataEntry>, usize)>)
    ensures
        match r {
            Some(p) => spec_dec_entries(b@, i as int, n as nat) == Some(
                (p.0@.map_values(|e: MetadataEntry| e@), p.1 as int),
            ) && p.0@.len() == n,
            None => spec_dec_entries(b@, i as int, n as nat) is None,
        },
{
    let mut acc: Vec<MetadataEntry> = Vec::new();
    let mut cur = i;
    let mut j: usize = 0;
    proof {
        assert(acc@.map_values(|e: MetadataEntry| e@) =~= Seq::<EntryModel>::empty());
    }
    while j < n
        invariant
            j <= n,
            acc@.len() == j,
            spec_dec_entries(b@, i as int, j as nat) == Some(
                (acc@.map_values(|e: MetadataEntry| e@), cur as int),
            ),
        decreases n - j,
    {
        match dec_entry_at(b, cur) {
            Some((e, nxt)) => {
                proof {
                    lemma_dec_entries_split(b@, i as int, j as nat, 1);
                    assert(spec_dec_entries(b@, nxt as int, 0) == Some(
                        (Seq::<EntryModel>::empty(), nxt as int),
                    ));
                    assert(seq![e@] + Seq::<EntryModel>::empty() =~= seq![e@]);
                    assert(spec_dec_entries(b@, cur as int, 1) == Some((seq![e@], nxt as int)));
                    assert(acc@.map_values(|x: MetadataEntry| x@) + seq![e@] =~= acc@.push(
                        e,
                    ).map_values(|x: MetadataEntry| x@));
                }
                acc.push(e);
                cur = nxt;
                j += 1;
            },
            None => {
                proof {
                    lemma_dec_entries_split(b@, i as int, j as nat, (n - j) as nat);
                    assert(spec_dec_entries(b@, cur as int, (n - j) as nat) is None);
                }
                return None;
            },
        }
    }
    Some((acc, cur))
}

fn dec_components_at(b: &Vec<u8>, i: usize, n: usize) -> (r: Option<(Vec<u64>, usize)>)
    ensures
        match r {
            Some(p) => spec_dec_components(b@, i as int, n as nat) == Some((p.0@, p.1 as int))
                && p.0@.len() == n,
            None => spec_dec_components(b@, i as int, n as nat) is None,
        },
{
    let mut acc: Vec<u64> = Vec::new();
    let mut cur = i;
    let mut j: usize = 0;
    proof {
        assert(acc@ =~= Seq::<u64>::empty());
    }
    while j < n
        invariant
            j <= n,
            acc@.len() == j,
            spec_dec_components(b@, i as int, j as nat) == Some((acc@, cur as int)),
        decreases n - j,
    {
        match dec_u64_at(b, cur) {
            Some((v, nxt)) => {
                proof {
                    lemma_dec_components_split(b@, i as int, j as nat, 1);
                    assert(spec_dec_components(b@, nxt as int, 0) == Some(
                        (Seq::<u64>::empty(), nxt as int),
                    ));
                    assert(seq![v] + Seq::<u64>::empty() =~= seq![v]);
                    assert(spec_dec_components(b@, cur as int, 1) == Some((seq![v], nxt as int)));
                    assert(acc@ + seq![v] =~= acc@.push(v));
                }
                acc.push(v);
                cur = nxt;
                j += 1;
            },
            None => {
                proof {
                    lemma_dec_components_split(b@, i as int, j as nat, (n - j) as nat);
                    assert(spec_dec_components(b@, cur as int, (n - j) as nat) is None);
                }
                return None;
            },
        }
    }
    Some((acc, cur))
}

fn dec_record_at(b: &Vec<u8>, i: usize, dim: usize) -> (r: Option<(Vector, usize)>)
    ensures
        match r {
            Some(p) => spec_dec_record(b@, i as int, dim as int) == Some((p.0@, p.1 as int))
                && p.0@.values.len() == dim,
            None => spec_dec_record(b@, i as int, dim as int) is None,
        },
{
    match dec_u64_at(b, i) {
        Some((cnt, j)) => {
            if cnt <= usize::MAX as u64 && cnt as usize == dim {
                match dec_components_at(b, j, cnt as usize) {
                    Some((vs, j2)) => {
                        match dec_u64_at(b, j2) {
                            Some((mc, j3)) => {
                                if mc <= usize::MAX as u64 {
                                    match dec_entries_at(b, j3, mc as usize) {
                                        Some((es, j4)) => {
                                            let v = Vector::new(vs, es);
                                            proof {
                                                assert(v@ =~= RecordModel {
                                                    values: v@.values,
                                                    meta: v@.meta,
                                                });
                                            }
                                            Some((v, j4))
                                        },
                                        None => None,
                                    }
                                } else {
                                    None
                                }
                            },
                            None => None,
                        }
                    },
                    None => None,
                }
            } else {
                None
            }
        },
        None => None,
    }
}

fn dec_records_at(b: &Vec<u8>, i: usize, n: usize, dim: usize) -> (r: Option<(Vec<Vector>, usize)>)
    ensures
        match r {
            Some(p) => spec_dec_records(b@, i as int, n as nat, dim as int) == Some(
                (p.0@.map_values(|v: Vector| v@), p.1 as int),
            ) && p.0@.len() == n && forall|k: int|
                0 <= k < p.0@.len() ==> (#[trigger] p.0@[k])@.values.len() == dim,
            None => spec_dec_records(b@, i as int, n as nat, dim as int) is None,
        },
{
    let mut acc: Vec<Vector> = Vec::new();
    let mut cur = i;
    let mut j: usize = 0;
    proof {
        assert(acc@.map_values(|v: Vector| v@) =~= Seq::<RecordModel>::empty());
    }
    while j < n
        invariant
            j <= n,
            acc@.len() == j,
            spec_dec_records(b@, i as int, j as nat, dim as int) == Some(
                (acc@.map_values(|v: Vector| v@), cur as int),
            ),
            forall|k: int| 0 <= k < acc@.len() ==> (#[trigger] acc@[k])@.values.len() == dim,
        decreases n - j,
    {
        match dec_record_at(b, cur, dim) {
            Some((v, nxt)) => {
                proof {
                    lemma_dec_records_split(b@, i as int, j as nat, 1, dim as int);
                    assert(spec_dec_records(b@, nxt as int, 0, dim as int) == Some(
                        (Seq::<RecordModel>::empty(), nxt as int),
                    ));
                    assert(seq![v@] + Seq::<RecordModel>::empty() =~= seq![v@]);
                    assert(spec_dec_records(b@, cur as int, 1, dim as int) == Some(
                        (seq![v@], nxt as int),
                    ));
                    assert(acc@.map_values(|x: Vector| x@) + seq![v@] =~= acc@.push(v).map_values(
                        |x: Vector| x@,
                    ));
                }
                acc.push(v);
                cur = nxt;
                j += 1;
            },
            None => {
                proof {
                    lemma_dec_records_split(b@, i as int, j as nat, (n - j) as nat, dim as int);
                    assert(spec_dec_records(b@, cur as int, (n - j) as nat, dim as int) is None);
                }
                return None;
            },
        }
    }
    Some((acc, cur))
}

/// Deserializes the canonical byte layout back into a collection. Returns
/// exactly what the spec-level parser says: `Ok` with the decoded store
/// where the buffer is a whole, well-formed encoding, and `CorruptData`
/// otherwise.
pub fn decode_store(b: &Vec<u8>) -> (r: Result<Database, EngineError>)
    ensures
        match r {
            Ok(db) => spec_dec_store(b@) == Some(db@) && store_wf(db@),
            Err(e) => e == EngineError::CorruptData && spec_dec_store(b@) is None,
        },
{
    match dec_str_at(b, 0) {
        Some((name, i1)) => {
            match dec_u64_at(b, i1) {
                Some((dim, i2)) => {
                    if dim <= usize::MAX as u64 {
                        match dec_u64_at(b, i2) {
                            Some((cnt, i3)) => {
                                if cnt <= usize::MAX as u64 {
                                    match dec_records_at(b, i3, cnt as usize, dim as usize) {
                                        Some((vectors, i4)) => {
                                            if i4 == b.len() {
                                                let db = Database {
                                                    name,
                                                    dimension: dim as usize,
                                                    vectors,
                                                };
                                                proof {
                                                    assert(db@ =~= StoreModel {
                                                        name: db@.name,
                                                        dimension: db@.dimension,
                                                        records: db@.records,
                                                    });
                                                }
                                                Ok(db)
                                            } else {
                                                Err(EngineError::CorruptData)
                                            }
                                        },
                                        None => Err(EngineError::CorruptData),
                                    }
                                } else {
                                    Err(EngineError::CorruptData)
                                }
                            },
                            None => Err(EngineError::CorruptData),
                        }
                    } else {
                        Err(EngineError::CorruptData)
                    }
                },
                None => Err(EngineError::CorruptData),
            }
        },
        None => Err(EngineError::CorruptData),
    }
}

// ---------------------------------------------------------------------------
// The layout round-trips: decoding an encoded piece in place yields the
// piece and stops right after it.
// ---------------------------------------------------------------------------

proof fn lemma_subrange_index(b: Seq<u8>, i: int, e: Seq<u8>)
    requires
        0 <= i,
        i + e.len() <= b.len(),
        b.subrange(i, i + e.len()) == e,
    ensures
        forall|m: int| 0 <= m < e.len() ==> b[i + m] == e[m],
{
    assert forall|m: int| 0 <= m < e.len() implies b[i + m] == e[m] by {
        assert(b.subrange(i, i + e.len())[m] == b[i + m]);
    }
}

proof fn lemma_chop(b: Seq<u8>, i: int, e1: Seq<u8>, e2: Seq<u8>)
    requires
        0 <= i,
        i + e1.len() + e2.len() <= b.len(),
        b.subrange(i, i + e1.len() + e2.len()) == e1 + e2,
    ensures
        b.subrange(i, i + e1.len()) == e1,
        b.subrange(i + e1.len(), i + e1.len() + e2.len()) == e2,
{
    lemma_subrange_index(b, i, e1 + e2);
    assert forall|k: int| 0 <= k < e1.len() implies b.subrange(i, i + e1.len())[k] == e1[k] by {
        assert(b[i + k] == (e1 + e2)[k]);
        assert(b.subrange(i, i + e1.len())[k] == b[i + k]);
    }
    assert(b.subrange(i, i + e1.len()) =~= e1);
    assert forall|k: int|
        0 <= k < e2.len() implies b.subrange(i + e1.len(), i + e1.len() + e2.len())[k] == e2[k] by {
        assert(b[i + e1.len() + k] == (e1 + e2)[e1.len() + k]);
        assert(b.subrange(i + e1.len(), i + e1.len() + e2.len())[k] == b[i + e1.len() + k]);
    }
    assert(b.subrange(i + e1.len(), i + e1.len() + e2.len()) =~= e2);
}

proof fn lemma_rt_u64(b: Seq<u8>, i: int, v: u64)
    requires
        0 <= i,
        i + 8 <= b.len(),
        b.subrange(i, i + 8) == spec_u64_to_le_bytes(v),
    ensures
        spec_dec_u64(b, i) == Some((v, i + 8)),
{
    vstd::bytes::lemma_auto_spec_u64_to_from_le_bytes();
}

proof fn lemma_rt_bytes(b: Seq<u8>, i: int, payload: Seq<u8>)
    requires
        0 <= i,
        payload.len() <= usize::MAX,
        i + spec_enc_bytes(payload).len() <= b.len(),
        b.subrange(i, i + spec_enc_bytes(payload).len()) == spec_enc_bytes(payload),
    ensures
        spec_enc_bytes(payload).len() == 8 + payload.len(),
        spec_dec_bytes(b, i) == Some((payload, i + 8 + payload.len())),
{
    vstd::bytes::lemma_auto_spec_u64_to_from_le_bytes();
    let lenb = spec_u64_to_le_bytes(payload.len() as u64);
    assert(lenb.len() == 8);
    lemma_chop(b, i, lenb, payload);
    lemma_rt_u64(b, i, payload.len() as u64);
}

proof fn lemma_rt_str(b: Seq<u8>, i: int, sv: Seq<char>)
    requires
        0 <= i,
        encode_utf8(sv).len() <= usize::MAX,
        i + spec_enc_str(sv).len() <= b.len(),
        b.subrange(i, i + spec_enc_str(sv).len()) == spec_enc_str(sv),
    ensures
        spec_enc_str(sv).len() == 8 + encode_utf8(sv).len(),
        spec_dec_str(b, i) == Some((sv, i + spec_enc_str(sv).len())),
{
    lemma_rt_bytes(b, i, encode_utf8(sv));
    encode_utf8_valid_utf8(sv);
    encode_utf8_decode_utf8(sv);
}

proof fn lemma_rt_value(b: Seq<u8>, i: int, v: ValueModel)
    requires
        0 <= i,
        value_fits(v),
        i + spec_enc_value(v).len() <= b.len(),
        b.subrange(i, i + spec_enc_value(v).len()) == spec_enc_value(v),
    ensures
        spec_dec_value(b, i) == Some((v, i + spec_enc_value(v).len())),
{
    vstd::bytes::lemma_auto_spec_u64_to_from_le_bytes();
    match v {
        ValueModel::Integer(x) => {
            let n: u64 = (x + 0x8000_0000) as u64;
            lemma_chop(b, i, seq![0u8], spec_u64_to_le_bytes(n));
            assert(b.subrange(i, i + 1)[0] == b[i]);
            assert(b[i] == 0u8);
            lemma_rt_u64(b, i + 1, n);
            assert((n - 0x8000_0000) as i32 == x);
        },
        ValueModel::Float(bits) => {
            let n: u64 = bits as u64;
            lemma_chop(b, i, seq![1u8], spec_u64_to_le_bytes(n));
            assert(b.subrange(i, i + 1)[0] == b[i]);
            assert(b[i] == 1u8);
            lemma_rt_u64(b, i + 1, n);
            assert(n as u32 == bits);
        },
        ValueModel::String(sv) => {
            lemma_chop(b, i, seq![2u8], spec_enc_str(sv));
            assert(b.subrange(i, i + 1)[0] == b[i]);
            assert(b[i] == 2u8);
            lemma_rt_str(b, i + 1, sv);
        },
        ValueModel::Bool(x) => {
            let payload = seq![if x { 1u8 } else { 0u8 }];
            lemma_chop(b, i, seq![3u8], payload);
            assert(b.subrange(i, i + 1)[0] == b[i]);
            assert(b[i] == 3u8);
            assert(b.subrange(i + 1, i + 2)[0] == b[i + 1]);
            assert(b[i + 1] == payload[0]);
        },
        ValueModel::DateTime(secs, nanos) => {
            let n1: u64 = (secs + 0x8000_0000_0000_0000) as u64;
            let n2: u64 = nanos as u64;
            lemma_chop(
                b,
                i,
                seq![4u8] + spec_u64_to_le_bytes(n1),
                spec_u64_to_le_bytes(n2),
            );
            lemma_chop(b, i, seq![4u8], spec_u64_to_le_bytes(n1));
            assert(b.subrange(i, i + 1)[0] == b[i]);
            assert(b[i] == 4u8);
            lemma_rt_u64(b, i + 1, n1);
            lemma_rt_u64(b, i + 9, n2);
            assert((n1 - 0x8000_0000_0000_0000) as i64 == secs);
            assert(n2 as u32 == nanos);
        },
    }
}

proof fn lemma_rt_entry(b: Seq<u8>, i: int, e: EntryModel)
    requires
        0 <= i,
        entry_fits(e),
        i + spec_enc_entry(e).len() <= b.len(),
        b.subrange(i, i + spec_enc_entry(e).len()) == spec_enc_entry(e),
    ensures
        spec_dec_entry(b, i) == Some((e, i + spec_enc_entry(e).len())),
{
    lemma_chop(b, i, spec_enc_str(e.key), spec_enc_value(e.value));
    lemma_rt_str(b, i, e.key);
    lemma_rt_value(b, i + spec_enc_str(e.key).len(), e.value);
    assert(EntryModel { key: e.key, value: e.value } =~= e);
}

proof fn lemma_rt_entries(b: Seq<u8>, i: int, es: Seq<EntryModel>)
    requires
        0 <= i,
        forall|k: int| 0 <= k < es.len() ==> entry_fits(#[trigger] es[k]),
        i + spec_enc_entries(es).len() <= b.len(),
        b.subrange(i, i + spec_enc_entries(es).len()) == spec_enc_entries(es),
    ensures
        spec_dec_entries(b, i, es.len()) == Some((es, i + spec_enc_entries(es).len())),
    decreases es.len(),
{
    if es.len() == 0 {
        assert(es =~= Seq::<EntryModel>::empty());
    } else {
        let head = spec_enc_entry(es[0]);
        let tail = spec_enc_entries(es.drop_first());
        lemma_chop(b, i, head, tail);
        lemma_rt_entry(b, i, es[0]);
        lemma_rt_entries(b, i + head.len(), es.drop_first());
        assert(seq![es[0]] + es.drop_first() =~= es);
    }
}

proof fn lemma_rt_components(b: Seq<u8>, i: int, vs: Seq<u64>)
    requires
        0 <= i,
        i + spec_enc_components(vs).len() <= b.len(),
        b.subrange(i, i + spec_enc_components(vs).len()) == spec_enc_components(vs),
    ensures
        spec_dec_components(b, i, vs.len()) == Some((vs, i + spec_enc_components(vs).len())),
    decreases vs.len(),
{
    vstd::bytes::lemma_auto_spec_u64_to_from_le_bytes();
    if vs.len() == 0 {
        assert(vs =~= Seq::<u64>::empty());
    } else {
        let head = spec_u64_to_le_bytes(vs[0]);
        let tail = spec_enc_components(vs.drop_first());
        lemma_chop(b, i, head, tail);
        lemma_rt_u64(b, i, vs[0]);
        lemma_rt_components(b, i + 8, vs.drop_first());
        assert(seq![vs[0]] + vs.drop_first() =~= vs);
    }
}

proof fn lemma_rt_record(b: Seq<u8>, i: int, r: RecordModel)
    requires
        0 <= i,
        record_fits(r),
        i + spec_enc_record(r).len() <= b.len(),
        b.subrange(i, i + spec_enc_record(r).len()) == spec_enc_record(r),
    ensures
        spec_dec_record(b, i, r.values.len() as int) == Some((r, i + spec_enc_record(r).len())),
{
    vstd::bytes::lemma_auto_spec_u64_to_from_le_bytes();
    let a = spec_u64_to_le_bytes(r.values.len() as u64);
    let c = spec_enc_components(r.values);
    let m = spec_u64_to_le_bytes(r.meta.len() as u64);
    let e = spec_enc_entries(r.meta);
    lemma_chop(b, i, a + c + m, e);
    lemma_chop(b, i, a + c, m);
    lemma_chop(b, i, a, c);
    lemma_rt_u64(b, i, r.values.len() as u64);
    lemma_rt_components(b, i + 8, r.values);
    lemma_rt_u64(b, i + 8 + c.len(), r.meta.len() as u64);
    lemma_rt_entries(b, i + 8 + c.len() + 8, r.meta);
    assert(RecordModel { values: r.values, meta: r.meta } =~= r);
}

proof fn lemma_rt_records(b: Seq<u8>, i: int, rs: Seq<RecordModel>, dim: int)
    requires
        0 <= i,
        forall|k: int| 0 <= k < rs.len() ==> record_fits(#[trigger] rs[k]),
        forall|k: int| 0 <= k < rs.len() ==> (#[trigger] rs[k]).values.len() == dim,
        i + spec_enc_records(rs).len() <= b.len(),
        b.subrange(i, i + spec_enc_records(rs).len()) == spec_enc_records(rs),
    ensures
        spec_dec_records(b, i, rs.len(), dim) == Some((rs, i + spec_enc_records(rs).len())),
    decreases rs.len(),
{
    if rs.len() == 0 {
        assert(rs =~= Seq::<RecordModel>::empty());
    } else {
        let head = spec_enc_record(rs[0]);
        let tail = spec_enc_records(rs.drop_first());
        lemma_chop(b, i, head, tail);
        lemma_rt_record(b, i, rs[0]);
        lemma_rt_records(b, i + head.len(), rs.drop_first(), dim);
        assert(seq![rs[0]] + rs.drop_first() =~= rs);
    }
}

/// The persistence format is lossless: decoding the encoding of any
/// well-formed store that fits in memory yields that store exactly,
/// bit patterns, metadata values and order included.
pub proof fn lemma_store_round_trip(st: StoreModel)
    requires
        store_wf(st),
        store_fits(st),
    ensures
        spec_dec_store(spec_enc_store(st)) == Some(st),
{
    vstd::bytes::lemma_auto_spec_u64_to_from_le_bytes();
    let b = spec_enc_store(st);
    let n = spec_enc_str(st.name);
    let d = spec_u64_to_le_bytes(st.dimension as u64);
    let c = spec_u64_to_le_bytes(st.records.len() as u64);
    let r = spec_enc_records(st.records);
    assert(b.subrange(0, b.len() as int) =~= b);
    lemma_chop(b, 0, n + d + c, r);
    lemma_chop(b, 0, n + d, c);
    lemma_chop(b, 0, n, d);
    lemma_rt_str(b, 0, st.name);
    lemma_rt_u64(b, n.len() as int, st.dimension as u64);
    lemma_rt_u64(b, n.len() + 8int, st.records.len() as u64);
    lemma_rt_records(b, n.len() + 16int, st.records, st.dimension);
    assert(StoreModel {
        name: st.name,
        dimension: (st.dimension as u64) as int,
        records: st.records,
    } =~= st);
}

} // verus!
