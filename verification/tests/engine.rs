use vectra::codec::{decode_store, encode_store};
use vectra::errors::EngineError;
use vectra::meta::{MetadataEntry, MetadataValue, Timestamp};
use vectra::metric::{top_k, Metric};
use vectra::record::Vector;
use vectra::store::Database;

fn bits(vals: &[f64]) -> Vec<u64> {
    vals.iter().map(|v| v.to_bits()).collect()
}

#[test]
fn insert_respects_dimension() {
    let mut db = Database::new("d".to_string(), 2);
    assert!(db.insert(Vector::new(bits(&[1.0, 2.0]), Vec::new())).is_ok());
    let r = db.insert(Vector::new(bits(&[1.0]), Vec::new()));
    assert_eq!(r, Err(EngineError::DimensionMismatch));
    assert_eq!(db.len(), 1);
}

#[test]
fn insert_stamped_appends_created_at() {
    let mut db = Database::new("d".to_string(), 1);
    let meta = vec![MetadataEntry::new("source".to_string(), MetadataValue::String("s".to_string()))];
    db.insert_stamped(bits(&[0.5]), meta, Timestamp { secs: 77, nanos: 5 }).unwrap();
    let rec = &db.vectors[0];
    let m = rec.metadata();
    assert_eq!(m.len(), 2);
    assert_eq!(m[0].key(), "source");
    assert_eq!(m[1].key(), "created_at");
    match m[1].value() {
        MetadataValue::DateTime(t) => {
            assert_eq!(t.secs, 77);
            assert_eq!(t.nanos, 5);
        },
        other => panic!("expected a DateTime stamp, got {:?}", other),
    }
}

#[test]
fn round_trip_preserves_bits_and_metadata_order() {
    let mut db = Database::new("col-\u{00e9}".to_string(), 3);
    let meta = vec![
        MetadataEntry::new("a".to_string(), MetadataValue::Integer(-42)),
        MetadataEntry::new("a".to_string(), MetadataValue::Float(1.5f32.to_bits())),
        MetadataEntry::new("b".to_string(), MetadataValue::String("caf\u{00e9}".to_string())),
        MetadataEntry::new("c".to_string(), MetadataValue::Bool(true)),
        MetadataEntry::new("d".to_string(), MetadataValue::DateTime(Timestamp { secs: -3, nanos: 999_999_999 })),
    ];
    let values = vec![0.1f64.to_bits(), (-0.0f64).to_bits(), f64::NAN.to_bits()];
    db.insert(Vector::new(values.clone(), meta)).unwrap();
    let bytes = encode_store(&db);
    let back = decode_store(&bytes).unwrap();
    assert_eq!(back.name, "col-\u{00e9}");
    assert_eq!(back.dimension, 3);
    assert_eq!(back.vectors.len(), 1);
    let rec = &back.vectors[0];
    assert_eq!(rec.data(), &values);
    let m = rec.metadata();
    assert_eq!(m.len(), 5);
    assert_eq!(m[0].key(), "a");
    assert!(matches!(m[0].value(), MetadataValue::Integer(-42)));
    assert_eq!(m[1].key(), "a");
    match m[1].value() {
        MetadataValue::Float(b) => assert_eq!(f32::from_bits(*b), 1.5f32),
        other => panic!("expected a Float, got {:?}", other),
    }
    match m[2].value() {
        MetadataValue::String(s) => assert_eq!(s, "caf\u{00e9}"),
        other => panic!("expected a String, got {:?}", other),
    }
    assert!(matches!(m[3].value(), MetadataValue::Bool(true)));
    match m[4].value() {
        MetadataValue::DateTime(t) => assert_eq!((t.secs, t.nanos), (-3, 999_999_999)),
        other => panic!("expected a DateTime, got {:?}", other),
    }
}

#[test]
fn round_trip_empty_store() {
    let db = Database::new(String::new(), 0);
    let back = decode_store(&encode_store(&db)).unwrap();
    assert_eq!(back.name, "");
    assert_eq!(back.dimension, 0);
    assert_eq!(back.vectors.len(), 0);
}

#[test]
fn decode_rejects_corrupt_bytes() {
    assert!(matches!(decode_store(&vec![]), Err(EngineError::CorruptData)));
}

#[test]
fn decode_rejects_truncated_encoding() {
    let mut db = Database::new("t".to_string(), 2);
    db.insert(Vector::new(bits(&[1.0, 2.0]), Vec::new())).unwrap();
    let mut bytes = encode_store(&db);
    bytes.pop();
    assert!(decode_store(&bytes).is_err());
}

#[test]
fn decode_rejects_trailing_garbage() {
    let db = Database::new("t".to_string(), 1);
    let mut bytes = encode_store(&db);
    bytes.push(0);
    assert!(decode_store(&bytes).is_err());
}

#[test]
fn metric_codes_resolve() {
    assert!(matches!(Metric::from_code("eu"), Some(Metric::Euclidean)));
    assert!(matches!(Metric::from_code("l1"), Some(Metric::L1)));
    assert!(matches!(Metric::from_code("cs"), Some(Metric::Cosine)));
    assert!(Metric::from_code("cosine").is_none());
    assert!(Metric::from_code("").is_none());
}

fn euclidean(a: &[f64], b: &[f64]) -> f64 {
    a.iter().zip(b.iter()).map(|(x, y)| (x - y) * (x - y)).sum::<f64>().sqrt()
}

fn manhattan(a: &[f64], b: &[f64]) -> f64 {
    a.iter().zip(b.iter()).map(|(x, y)| (x - y).abs()).sum::<f64>()
}

#[test]
fn ranks_euclidean_example() {
    // collection dimension 2, records (0,0) and (3,4), query (0,0)
    let records = [vec![0.0, 0.0], vec![3.0, 4.0]];
    let query = [0.0, 0.0];
    let keys: Vec<u64> = records.iter().map(|r| euclidean(r, &query).to_bits()).collect();
    let ranked = top_k(&keys, 2);
    assert_eq!(ranked.len(), 2);
    assert_eq!(ranked[0].0, 0);
    assert_eq!(f64::from_bits(ranked[0].1), 0.0);
    assert_eq!(ranked[1].0, 1);
    assert_eq!(f64::from_bits(ranked[1].1), 5.0);
}

#[test]
fn ranks_manhattan_example() {
    let records = [vec![0.0, 0.0], vec![3.0, 4.0]];
    let query = [0.0, 0.0];
    let keys: Vec<u64> = records.iter().map(|r| manhattan(r, &query).to_bits()).collect();
    let ranked = top_k(&keys, 2);
    assert_eq!(f64::from_bits(ranked[0].1), 0.0);
    assert_eq!(f64::from_bits(ranked[1].1), 7.0);
}

#[test]
fn ranking_breaks_ties_by_scan_order() {
    let keys = vec![2.0f64.to_bits(), 1.0f64.to_bits(), 2.0f64.to_bits(), 1.0f64.to_bits()];
    let ranked = top_k(&keys, 4);
    let order: Vec<usize> = ranked.iter().map(|p| p.0).collect();
    assert_eq!(order, vec![1, 3, 0, 2]);
}

#[test]
fn ranking_truncates_to_k() {
    let keys = vec![3.0f64.to_bits(), 1.0f64.to_bits(), 2.0f64.to_bits()];
    let ranked = top_k(&keys, 2);
    let order: Vec<usize> = ranked.iter().map(|p| p.0).collect();
    assert_eq!(order, vec![1, 2]);
}

#[test]
fn ranking_returns_all_when_k_exceeds_count() {
    let keys = vec![3.0f64.to_bits(), 1.0f64.to_bits()];
    let ranked = top_k(&keys, 10);
    assert_eq!(ranked.len(), 2);
    let order: Vec<usize> = ranked.iter().map(|p| p.0).collect();
    assert_eq!(order, vec![1, 0]);
}
