use csv::error::{CorruptReason, StorageError};
use csv::record::Record;
use csv::value::{Datatype, Value};
use csv::varint;

fn sample() -> Record {
    let mut record = Record::new(1);
    record.add_value(Value::null());
    record.add_value(Value::from_i64(0));
    record.add_value(Value::from_i64(1));
    record.add_value(Value::from_i64(50000));
    record.add_value(Value::from_f64_bits(50000.2f64.to_bits()));
    record.add_value(Value::text("hello world"));
    record
}

fn same(a: &Record, b: &Record) -> bool {
    a.rowid() == b.rowid()
        && a.column_count() == b.column_count()
        && (0..a.column_count()).all(|i| a.get(i).unwrap() == b.get(i).unwrap())
}

fn corrupt(reason: CorruptReason) -> StorageError {
    StorageError::CorruptRecord(reason)
}

#[test]
fn default_record_is_empty() {
    let record = Record::default();
    assert_eq!(record.rowid(), 0);
    assert_eq!(record.column_count(), 0);
    assert_eq!(record.bytes_len(), 1);
    assert_eq!(record.string_len(), Some(0));
    assert_eq!(record.serialize(), vec![1, 0, 1]);
}

#[test]
fn serialized_bytes_are_exact() {
    let mut expected: Vec<u8> = vec![29, 1, 7, 0, 8, 9, 3, 7, 35];
    expected.extend_from_slice(&[0, 195, 80]);
    expected.extend_from_slice(&[64, 232, 106, 6, 102, 102, 102, 102]);
    expected.extend_from_slice(b"hello world");
    assert_eq!(sample().serialize(), expected);
    assert_eq!(sample().bytes_len(), 29);
    assert_eq!(sample().checked_bytes_len(), Some(29));
    assert_eq!(sample().checked_serialized_len(), Some(expected.len()));
    assert_eq!(Record::default().checked_serialized_len(), Some(3));
}

#[test]
fn record_round_trip() {
    let record = sample();
    let bytes = record.serialize();
    let back = Record::read(&bytes).unwrap();
    assert!(same(&back, &record));
    assert_eq!(back.get(0).unwrap().datatype(), Datatype::Null);
    assert_eq!(back.get(1).unwrap().tag(), 8);
    assert_eq!(back.get(2).unwrap().tag(), 9);
    assert_eq!(back.get(3).unwrap().as_i64(), Some(50000));
    assert_eq!(
        back.get(4).unwrap().float_bits(),
        Some(50000.2f64.to_bits())
    );
    assert_eq!(
        back.get(5).unwrap().to_display_string(),
        Some("hello world".to_string())
    );

    let (n, total) = varint::read(&bytes).unwrap();
    assert_eq!(total, record.bytes_len());
    let again = Record::deserialize(total, &bytes[n..]).unwrap();
    assert!(same(&again, &record));
}

#[test]
fn round_trip_ignores_what_follows() {
    let record = sample();
    let mut bytes = record.serialize();
    bytes.extend_from_slice(&[1, 2, 3, 255]);
    assert!(same(&Record::read(&bytes).unwrap(), &record));
}

#[test]
fn round_trip_of_large_row_identifiers_and_wide_records() {
    let mut record = Record::new(u64::MAX);
    for i in 0..200 {
        record.add_value(Value::from_i64(i * 1000 - 7));
    }
    record.add_value(Value::text(&"x".repeat(300)));
    let bytes = record.serialize();
    let back = Record::read(&bytes).unwrap();
    assert!(same(&back, &record));
    assert_eq!(back.rowid(), u64::MAX);
}

#[test]
fn header_length_counts_itself_as_one_byte() {
    let mut record = Record::new(0);
    for _ in 0..127 {
        record.add_value(Value::null());
    }
    assert_eq!(record.bytes_len(), 128);
    let bytes = record.serialize();
    assert_eq!(&bytes[..5], &[129, 0, 0, 129, 0]);
    assert_eq!(bytes.len(), 2 + 1 + 2 + 127);
    assert!(same(&Record::read(&bytes).unwrap(), &record));
}

#[test]
fn get_is_positional() {
    let record = sample();
    assert_eq!(record.column_count(), 6);
    assert_eq!(record.get(3).unwrap().as_i64(), Some(50000));
    assert_eq!(
        record.get(6).unwrap_err(),
        StorageError::ColumnOutOfRange(6, 6)
    );
    assert_eq!(
        Record::new(3).get(0).unwrap_err(),
        StorageError::ColumnOutOfRange(0, 0)
    );
}

#[test]
fn set_rowid_keeps_the_columns() {
    let mut record = sample();
    record.set_rowid(77);
    assert_eq!(record.rowid(), 77);
    assert_eq!(record.column_count(), 6);
}

#[test]
fn concat_appends_columns_and_keeps_the_left_row_identifier() {
    let mut left = Record::new(4);
    left.add_value(Value::text("alice"));
    let mut right = Record::new(9);
    right.add_value(Value::from_i64(30));
    right.add_value(Value::null());
    let joined = left.concat(&right);
    assert_eq!(joined.rowid(), 4);
    assert_eq!(joined.column_count(), 3);
    assert!(joined.get(0).unwrap() == left.get(0).unwrap());
    assert!(joined.get(1).unwrap() == right.get(0).unwrap());
    assert!(joined.get(2).unwrap() == right.get(1).unwrap());
    assert_eq!(left.column_count(), 1);
    assert_eq!(right.column_count(), 2);
}

#[test]
fn clone_is_the_same_record() {
    let record = sample();
    assert!(same(&record.clone(), &record));
}

#[test]
fn string_len_sums_the_columns() {
    let mut record = Record::new(0);
    record.add_value(Value::null());
    record.add_value(Value::from_i64(-50000));
    record.add_value(Value::text("hello"));
    assert_eq!(record.string_len(), Some(4 + 6 + 5));
    record.add_value(Value::from_f64_bits(1.5f64.to_bits()));
    assert_eq!(record.string_len(), None);
}

#[test]
fn deserialize_rejects_cut_fields() {
    assert_eq!(
        Record::deserialize(1, &[]).unwrap_err(),
        corrupt(CorruptReason::TruncatedField)
    );
    assert_eq!(
        Record::deserialize(1, &[5]).unwrap_err(),
        corrupt(CorruptReason::TruncatedField)
    );
    assert_eq!(
        Record::deserialize(1, &[5, 129]).unwrap_err(),
        corrupt(CorruptReason::TruncatedField)
    );
    assert_eq!(
        Record::deserialize(3, &[5, 3, 129]).unwrap_err(),
        corrupt(CorruptReason::HeaderOverrun)
    );
    assert_eq!(
        Record::read(&[]).unwrap_err(),
        StorageError::TruncatedVarint
    );
    assert_eq!(
        Record::read(&[129]).unwrap_err(),
        StorageError::TruncatedVarint
    );
}

#[test]
fn deserialize_rejects_an_empty_header() {
    assert_eq!(
        Record::deserialize(0, &[5, 0]).unwrap_err(),
        corrupt(CorruptReason::EmptyHeader)
    );
}

#[test]
fn deserialize_rejects_a_header_that_overruns() {
    assert_eq!(
        Record::deserialize(3, &[5, 3, 0]).unwrap_err(),
        corrupt(CorruptReason::HeaderOverrun)
    );
    assert_eq!(
        Record::deserialize(2, &[5, 2, 129, 0, 0]).unwrap_err(),
        corrupt(CorruptReason::HeaderOverrun)
    );
}

#[test]
fn deserialize_rejects_an_unknown_tag() {
    assert_eq!(
        Record::deserialize(2, &[5, 2, 10]).unwrap_err(),
        corrupt(CorruptReason::UnknownTag(10))
    );
    assert_eq!(
        Record::deserialize(3, &[5, 3, 0, 11]).unwrap_err(),
        corrupt(CorruptReason::UnknownTag(11))
    );
}

#[test]
fn deserialize_rejects_a_value_past_the_end() {
    assert_eq!(
        Record::deserialize(5, &[5, 2, 3, 1, 2]).unwrap_err(),
        corrupt(CorruptReason::PayloadOverrun)
    );
    assert_eq!(
        Record::deserialize(10, &[5, 2, 7]).unwrap_err(),
        corrupt(CorruptReason::PayloadOverrun)
    );
}

#[test]
fn deserialize_rejects_a_wrong_total_length() {
    let bytes = sample().serialize();
    assert_eq!(
        Record::deserialize(28, &bytes[1..]).unwrap_err(),
        corrupt(CorruptReason::LengthMismatch)
    );
    assert_eq!(
        Record::deserialize(30, &bytes[1..]).unwrap_err(),
        corrupt(CorruptReason::LengthMismatch)
    );
    assert!(Record::deserialize(29, &bytes[1..]).is_ok());
}

#[test]
fn deserialize_reads_blobs_by_their_tag() {
    let record = Record::deserialize(5, &[2, 2, 18, 1, 2, 3]).unwrap();
    assert_eq!(record.rowid(), 2);
    assert_eq!(record.column_count(), 1);
    assert_eq!(record.get(0).unwrap().datatype(), Datatype::Blob);
    assert_eq!(*record.get(0).unwrap().payload(), vec![1, 2, 3]);
}
