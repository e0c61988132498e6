use csv::error::StorageError;
use csv::varint;

#[test]
fn test_0() {
    assert_eq!(0, varint::read(&varint::write(0)).unwrap().1);
}

#[test]
fn test_127() {
    assert_eq!(127, varint::read(&varint::write(127)).unwrap().1);
}

#[test]
fn test_m127() {
    assert_eq!(398639861, varint::read(&varint::write(398639861)).unwrap().1);
}

#[test]
fn varint_round_trip_takes_exactly_the_encoding() {
    let values: Vec<u64> = vec![
        0,
        1,
        127,
        128,
        (1 << 14) - 1,
        1 << 14,
        1 << 21,
        1 << 35,
        (1 << 56) - 1,
        1 << 56,
        u64::MAX,
    ];
    for v in values {
        let bytes = varint::write(v);
        assert_eq!(varint::read(&bytes), Ok((bytes.len(), v)));
        assert_eq!(bytes.len(), varint::len(v));
    }
}

#[test]
fn varint_bytes_are_exact() {
    assert_eq!(varint::write(0), vec![0]);
    assert_eq!(varint::write(127), vec![127]);
    assert_eq!(varint::write(128), vec![129, 0]);
    assert_eq!(varint::write(16383), vec![255, 127]);
    assert_eq!(varint::write(16384), vec![129, 128, 0]);
    assert_eq!(varint::write(398639861), vec![129, 190, 139, 133, 117]);
    assert_eq!(
        varint::write((1 << 56) - 1),
        vec![255, 255, 255, 255, 255, 255, 255, 127]
    );
    assert_eq!(
        varint::write(1 << 56),
        vec![128, 192, 128, 128, 128, 128, 128, 128, 0]
    );
    assert_eq!(varint::write(u64::MAX), vec![255; 9]);
}

#[test]
fn varint_lengths_change_at_the_powers_of_128() {
    assert_eq!(varint::len(0), 1);
    assert_eq!(varint::len(127), 1);
    assert_eq!(varint::len(128), 2);
    assert_eq!(varint::len((1 << 21) - 1), 3);
    assert_eq!(varint::len(1 << 21), 4);
    assert_eq!(varint::len((1 << 56) - 1), 8);
    assert_eq!(varint::len(1 << 56), 9);
    assert_eq!(varint::len(u64::MAX), 9);
}

#[test]
fn varint_read_ignores_what_follows() {
    assert_eq!(varint::read(&[129, 0, 77, 78]), Ok((2, 128)));
    assert_eq!(varint::read(&[5, 255]), Ok((1, 5)));
}

#[test]
fn varint_read_takes_a_longer_form_of_a_small_value() {
    assert_eq!(varint::read(&[128, 0]), Ok((2, 0)));
    assert_eq!(varint::read(&[128, 128, 1]), Ok((3, 1)));
}

#[test]
fn varint_read_of_a_cut_encoding_fails() {
    assert_eq!(varint::read(&[]), Err(StorageError::TruncatedVarint));
    assert_eq!(varint::read(&[129]), Err(StorageError::TruncatedVarint));
    assert_eq!(varint::read(&[255; 8]), Err(StorageError::TruncatedVarint));
    let mut nine = varint::write(u64::MAX);
    nine.pop();
    assert_eq!(varint::read(&nine), Err(StorageError::TruncatedVarint));
}

#[test]
fn varint_ninth_byte_counts_whole() {
    let bytes = [255, 255, 255, 255, 255, 255, 255, 255, 128];
    assert_eq!(varint::read(&bytes), Ok((9, u64::MAX - 127)));
}
