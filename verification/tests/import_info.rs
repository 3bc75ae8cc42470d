use vectra::codec::{decode_store, encode_store};
use vectra::errors::EngineError;
use vectra::import::{BulkImporter, RowOutcome};
use vectra::info::InfoBuilder;
use vectra::meta::{MetadataEntry, MetadataValue, Timestamp};
use vectra::record::Vector;
use vectra::store::Database;

fn bits(vals: &[f64]) -> Vec<u64> {
    vals.iter().map(|v| v.to_bits()).collect()
}

#[test]
fn import_counts_and_shards_add_up() {
    // seven source rows, two of which fail coercion and one of which has
    // the wrong width; batch size three
    let mut imp = BulkImporter::new("t".to_string(), 2, 3);
    let mut shard_records = 0usize;
    let mut shards = 0usize;
    for row in 0..7usize {
        if row == 2 || row == 5 {
            imp.skip_row();
            continue;
        }
        let data = if row == 4 { bits(&[1.0]) } else { bits(&[row as f64, 0.0]) };
        match imp.push_row(data, Vec::new()) {
            RowOutcome::Accepted => {},
            RowOutcome::AcceptedFlush(bytes) => {
                let shard = decode_store(&bytes).unwrap();
                assert_eq!(shard.dimension, 2);
                shard_records += shard.vectors.len();
                shards += 1;
            },
            RowOutcome::SkippedMismatch => assert_eq!(row, 4),
        }
    }
    if let Some(bytes) = imp.finish() {
        let shard = decode_store(&bytes).unwrap();
        shard_records += shard.vectors.len();
        shards += 1;
    }
    assert_eq!(imp.imported, 4);
    assert_eq!(imp.skipped, 3);
    assert_eq!(shard_records, 4);
    assert_eq!(shards, 2);
    assert_eq!(imp.shards, 2);
    assert!(imp.finish().is_none());
}

#[test]
fn import_rows_carry_created_at() {
    let mut imp = BulkImporter::new("t".to_string(), 1, 1);
    match imp.push_row(bits(&[2.5]), vec![MetadataEntry::new(
        "source".to_string(),
        MetadataValue::String("tbl".to_string()),
    )]) {
        RowOutcome::AcceptedFlush(bytes) => {
            let shard = decode_store(&bytes).unwrap();
            let m = shard.vectors[0].metadata();
            assert_eq!(m[0].key(), "source");
            assert_eq!(m[1].key(), "created_at");
        },
        other => panic!("expected a flushed shard, got {:?}", outcome_name(&other)),
    }
}

fn outcome_name(o: &RowOutcome) -> &'static str {
    match o {
        RowOutcome::Accepted => "Accepted",
        RowOutcome::AcceptedFlush(_) => "AcceptedFlush",
        RowOutcome::SkippedMismatch => "SkippedMismatch",
    }
}

fn store_with_meta(name: &str, dim: usize, meta: Vec<MetadataEntry>) -> Vec<u8> {
    let mut db = Database::new(name.to_string(), dim);
    let vals: Vec<u64> = vec![0u64; dim];
    db.insert(Vector::new(vals, meta)).unwrap();
    encode_store(&db)
}

#[test]
fn info_concatenates_counts_across_shards() {
    let mut info = InfoBuilder::new();
    info.absorb(&store_with_meta("a", 2, Vec::new())).unwrap();
    info.absorb(&store_with_meta("a_part_0", 2, Vec::new())).unwrap();
    let (dim, count) = info.finish().unwrap();
    assert_eq!(dim, 2);
    assert_eq!(count, 2);
}

#[test]
fn info_rejects_dimension_mismatch_across_shards() {
    let mut info = InfoBuilder::new();
    info.absorb(&store_with_meta("a", 2, Vec::new())).unwrap();
    let r = info.absorb(&store_with_meta("a_part_0", 3, Vec::new()));
    assert_eq!(r, Err(EngineError::DimensionMismatch));
    let (dim, count) = info.finish().unwrap();
    assert_eq!((dim, count), (2, 1));
}

#[test]
fn info_rejects_corrupt_shard() {
    let mut info = InfoBuilder::new();
    assert_eq!(info.absorb(&vec![9, 9, 9]), Err(EngineError::CorruptData));
}

#[test]
fn info_reports_not_found_without_files() {
    let info = InfoBuilder::new();
    assert_eq!(info.finish(), Err(EngineError::NotFound));
}

#[test]
fn info_schema_collects_kinds_in_order() {
    let meta = vec![
        MetadataEntry::new("k".to_string(), MetadataValue::String("x".to_string())),
        MetadataEntry::new("k".to_string(), MetadataValue::Integer(1)),
        MetadataEntry::new("k".to_string(), MetadataValue::Bool(false)),
        MetadataEntry::new("when".to_string(), MetadataValue::DateTime(Timestamp { secs: 0, nanos: 0 })),
        MetadataEntry::new("score".to_string(), MetadataValue::Float(1.0f32.to_bits())),
    ];
    let mut info = InfoBuilder::new();
    info.absorb(&store_with_meta("a", 1, meta)).unwrap();
    let schema = info.schema_names();
    assert_eq!(schema.len(), 3);
    assert_eq!(schema[0].0, "k");
    assert_eq!(schema[0].1, vec!["Bool".to_string(), "Integer".to_string(), "String".to_string()]);
    assert_eq!(schema[1].0, "when");
    assert_eq!(schema[1].1, vec!["DateTime".to_string()]);
    assert_eq!(schema[2].0, "score");
    assert_eq!(schema[2].1, vec!["Float".to_string()]);
}

#[test]
fn error_messages_are_stable() {
    assert_eq!(EngineError::DimensionMismatch.message(), "dimension mismatch");
    assert_eq!(EngineError::UnknownMetric.message(), "unknown metric");
    assert_eq!(EngineError::NotFound.message(), "not found");
    assert_eq!(EngineError::CorruptData.message(), "corrupt data");
    assert_eq!(EngineError::AlreadyExists.message(), "exists");
    assert_eq!(EngineError::LockFailure.message(), "lock");
    assert_eq!(EngineError::RowCoercionFailure.message(), "row coercion failure");
}

#[test]
fn values_report_weights() {
    assert_eq!(MetadataValue::Integer(1).weight(), 4);
    assert_eq!(MetadataValue::Float(0).weight(), 4);
    assert_eq!(MetadataValue::Bool(true).weight(), 1);
    assert_eq!(MetadataValue::DateTime(Timestamp { secs: 0, nanos: 0 }).weight(), 12);
    assert_eq!(MetadataValue::String("abc".to_string()).weight(), 3);
}

#[test]
fn values_report_kind_names() {
    assert_eq!(MetadataValue::Integer(1).kind_name(), "Integer");
    assert_eq!(MetadataValue::Float(0).kind_name(), "Float");
    assert_eq!(MetadataValue::String(String::new()).kind_name(), "String");
    assert_eq!(MetadataValue::Bool(true).kind_name(), "Bool");
    assert_eq!(MetadataValue::DateTime(Timestamp { secs: 0, nanos: 0 }).kind_name(), "DateTime");
}
