use csv::error::{CorruptReason, StorageError};
use csv::value::{Datatype, Shape, Value};
use std::cmp::Ordering;

/// A value as text: floats are printed here, from their bits.
fn show(v: &Value) -> String {
    match v.to_display_string() {
        Some(text) => text,
        None => format!("{}", f64::from_bits(v.float_bits().unwrap())),
    }
}

/// The length of a value as text.
fn shown_len(v: &Value) -> usize {
    match v.string_len() {
        Some(len) => len,
        None => show(v).len(),
    }
}

fn float(f: f64) -> Value {
    Value::from_f64_bits(f.to_bits())
}

/// A value from text, with the float that the text spells, if any.
fn from_text(text: &str) -> Value {
    Value::from_text(text, text.parse::<f64>().ok().map(f64::to_bits))
}

#[test]
fn test_int0() {
    let i: Value = Value::from_i64(0);
    assert_eq!(i.tag(), 8);
    assert_eq!(*i.payload(), Vec::<u8>::new());
    assert_eq!(show(&i), "0");
    assert_eq!(shown_len(&i), 1);
    assert_eq!(i.datatype(), Datatype::Integer);
}

#[test]
fn test_int1() {
    let i: Value = Value::from_i64(1);
    assert_eq!(i.tag(), 9);
    assert_eq!(*i.payload(), Vec::<u8>::new());
    assert_eq!(show(&i), "1");
    assert_eq!(shown_len(&i), 1);
    assert_eq!(i.datatype(), Datatype::Integer);
}

#[test]
fn test_int50000() {
    let i: Value = Value::from_i64(50000);
    assert_eq!(i.tag(), 3);
    assert_eq!(*i.payload(), vec![0, 195, 80]);
    assert_eq!(show(&i), "50000");
    assert_eq!(shown_len(&i), 5);
    assert_eq!(i.datatype(), Datatype::Integer);
}

#[test]
fn test_float0() {
    let i: Value = float(0.0);
    assert_eq!(i.tag(), 7);
    assert_eq!(*i.payload(), vec![0; 8]);
    assert_eq!(show(&i), "0");
    assert_eq!(shown_len(&i), 1);
    assert_eq!(i.datatype(), Datatype::Float);
}

#[test]
fn test_float1() {
    let i: Value = float(1.0);
    assert_eq!(i.tag(), 7);
    assert_eq!(*i.payload(), vec![63, 240, 0, 0, 0, 0, 0, 0]);
    assert_eq!(show(&i), "1");
    assert_eq!(shown_len(&i), 1);
    assert_eq!(i.datatype(), Datatype::Float);
}

#[test]
fn test_float50000() {
    let i: Value = float(50000.2);
    assert_eq!(i.tag(), 7);
    assert_eq!(*i.payload(), vec![64, 232, 106, 6, 102, 102, 102, 102]);
    assert_eq!(show(&i), "50000.2");
    assert_eq!(shown_len(&i), 7);
    assert_eq!(i.datatype(), Datatype::Float);
}

#[test]
fn test_string() {
    let i: Value = from_text("hello world");
    assert_eq!(i.tag(), ("hello world".len() * 2 + 13) as u64);
    assert_eq!(
        *i.payload(),
        vec![104, 101, 108, 108, 111, 32, 119, 111, 114, 108, 100]
    );
    assert_eq!(show(&i), "hello world");
    assert_eq!(shown_len(&i), 11);
    assert_eq!(i.datatype(), Datatype::Text);
}

#[test]
fn null_value() {
    let v = Value::null();
    assert_eq!(v.tag(), 0);
    assert!(v.payload().is_empty());
    assert_eq!(v.datatype(), Datatype::Null);
    assert_eq!(v.to_display_string(), Some("NULL".to_string()));
    assert_eq!(v.string_len(), Some(4));
    assert_eq!(v.bytes_len(), 1);
    assert_eq!(v.as_i64(), None);
    assert_eq!(v.float_bits(), None);
}

#[test]
fn integers_take_the_least_width() {
    let cases: Vec<(i64, u64, usize)> = vec![
        (2, 1, 1),
        (-1, 1, 1),
        (127, 1, 1),
        (-128, 1, 1),
        (128, 2, 2),
        (-129, 2, 2),
        (32767, 2, 2),
        (32768, 3, 3),
        (8388607, 3, 3),
        (-8388608, 3, 3),
        (8388608, 4, 4),
        (2147483647, 4, 4),
        (2147483648, 5, 6),
        (140737488355327, 5, 6),
        (-140737488355328, 5, 6),
        (140737488355328, 6, 8),
        (i64::MAX, 6, 8),
        (i64::MIN, 6, 8),
    ];
    for (number, tag, width) in cases {
        let v = Value::from_i64(number);
        assert_eq!(v.tag(), tag, "tag of {}", number);
        assert_eq!(v.payload().len(), width, "width of {}", number);
        assert_eq!(v.as_i64(), Some(number));
        assert_eq!(v.to_display_string(), Some(number.to_string()));
        assert_eq!(v.string_len(), Some(number.to_string().len()));
        assert_eq!(v.datatype(), Datatype::Integer);
    }
}

#[test]
fn integer_bytes_are_big_endian_twos_complement() {
    assert_eq!(*Value::from_i64(-1).payload(), vec![255]);
    assert_eq!(*Value::from_i64(-2).payload(), vec![254]);
    assert_eq!(*Value::from_i64(258).payload(), vec![1, 2]);
    assert_eq!(*Value::from_i64(-50000).payload(), vec![255, 60, 176]);
    assert_eq!(
        *Value::from_i64(i64::MIN).payload(),
        vec![128, 0, 0, 0, 0, 0, 0, 0]
    );
    assert_eq!(
        *Value::from_i64(1 << 40).payload(),
        vec![1, 0, 0, 0, 0, 0]
    );
}

#[test]
fn float_bits_come_back() {
    for f in [0.0f64, -0.0, 1.0, -1.5, 50000.2, f64::INFINITY, f64::MIN_POSITIVE] {
        let v = float(f);
        assert_eq!(v.float_bits(), Some(f.to_bits()));
        assert_eq!(v.as_i64(), None);
        assert_eq!(v.bytes_len(), 9);
        assert_eq!(v.to_display_string(), None);
        assert_eq!(v.string_len(), None);
    }
    assert!(f64::from_bits(float(f64::NAN).float_bits().unwrap()).is_nan());
}

#[test]
fn text_is_kept_as_it_is() {
    let v = Value::text("42");
    assert_eq!(v.datatype(), Datatype::Text);
    assert_eq!(v.tag(), 17);
    assert_eq!(*v.payload(), vec![52, 50]);
    assert_eq!(v.to_display_string(), Some("42".to_string()));
    let empty = Value::text("");
    assert_eq!(empty.tag(), 13);
    assert_eq!(empty.string_len(), Some(0));
    let accents = Value::text("é\u{1F600}");
    assert_eq!(accents.payload().len(), 6);
    assert_eq!(accents.tag(), 25);
    assert_eq!(accents.to_display_string(), Some("é\u{1F600}".to_string()));
    assert_eq!(accents.string_len(), Some(6));
}

#[test]
fn text_that_is_not_utf8_prints_with_replacement_characters() {
    let v = Value::text_from_bytes(vec![104, 255, 105]);
    assert_eq!(v.to_display_string(), Some("h\u{FFFD}i".to_string()));
    assert_eq!(v.string_len(), Some(3));
}

#[test]
fn from_text_tries_integer_then_float_then_text() {
    let v = from_text("42");
    assert_eq!(v.datatype(), Datatype::Integer);
    assert_eq!(v.as_i64(), Some(42));
    assert_eq!(from_text("-7").as_i64(), Some(-7));
    assert_eq!(from_text("+7").as_i64(), Some(7));
    assert_eq!(from_text("007").as_i64(), Some(7));
    assert_eq!(from_text("0").tag(), 8);
    assert_eq!(from_text("1").tag(), 9);
    assert_eq!(
        from_text("9223372036854775807").as_i64(),
        Some(i64::MAX)
    );
    assert_eq!(
        from_text("-9223372036854775808").as_i64(),
        Some(i64::MIN)
    );

    let f = from_text("50000.2");
    assert_eq!(f.datatype(), Datatype::Float);
    assert_eq!(f.float_bits(), Some(50000.2f64.to_bits()));
    let big = from_text("9223372036854775808");
    assert_eq!(big.datatype(), Datatype::Float);
    assert_eq!(from_text("1e3").float_bits(), Some(1000.0f64.to_bits()));

    let t = from_text("alice");
    assert_eq!(t.datatype(), Datatype::Text);
    assert_eq!(show(&t), "alice");
    assert_eq!(from_text("").datatype(), Datatype::Text);
    assert_eq!(from_text("-").datatype(), Datatype::Text);
    assert_eq!(from_text("+").datatype(), Datatype::Text);
    assert_eq!(from_text("12a").datatype(), Datatype::Text);
    assert_eq!(from_text(" 12").datatype(), Datatype::Text);
}

#[test]
fn from_text_without_a_float_keeps_decimals_as_text() {
    let v = Value::from_text("50000.2", None);
    assert_eq!(v.datatype(), Datatype::Text);
    assert_eq!(v.to_display_string(), Some("50000.2".to_string()));
    assert_eq!(Value::from_text("12", None).as_i64(), Some(12));
}

#[test]
fn from_text_strips_quotes_around_text() {
    assert_eq!(show(&from_text("\"bob\"")), "bob");
    assert_eq!(show(&from_text("\"\"")), "");
    assert_eq!(show(&from_text("\"")), "\"");
    assert_eq!(show(&from_text("\"bob")), "\"bob");
    assert_eq!(show(&from_text("bob\"")), "bob\"");
    assert_eq!(show(&from_text("\"12\"")), "12");
    assert_eq!(from_text("\"12\"").datatype(), Datatype::Text);
}

#[test]
fn sniff_bytes_reads_bytes_as_from_text_reads_text() {
    let v = Value::sniff_bytes(b"-12", None).unwrap();
    assert_eq!(v.as_i64(), Some(-12));
    let t = Value::sniff_bytes(b"\"x\"", None).unwrap();
    assert_eq!(*t.payload(), vec![120]);
    let f = Value::sniff_bytes(b"2.5", Some(2.5f64.to_bits())).unwrap();
    assert_eq!(f.float_bits(), Some(2.5f64.to_bits()));
}

#[test]
fn shapes_of_tags() {
    assert_eq!(Shape::of_tag(0), Ok(Shape::Null));
    assert_eq!(Shape::of_tag(1), Ok(Shape::Int(1)));
    assert_eq!(Shape::of_tag(4), Ok(Shape::Int(4)));
    assert_eq!(Shape::of_tag(5), Ok(Shape::Int(6)));
    assert_eq!(Shape::of_tag(6), Ok(Shape::Int(8)));
    assert_eq!(Shape::of_tag(7), Ok(Shape::Float));
    assert_eq!(Shape::of_tag(8), Ok(Shape::SmallInt(false)));
    assert_eq!(Shape::of_tag(9), Ok(Shape::SmallInt(true)));
    assert_eq!(Shape::of_tag(10), Err(StorageError::InvalidType(10)));
    assert_eq!(Shape::of_tag(11), Err(StorageError::InvalidType(11)));
    assert_eq!(Shape::of_tag(12), Ok(Shape::Blob(0)));
    assert_eq!(Shape::of_tag(13), Ok(Shape::Text(0)));
    assert_eq!(Shape::of_tag(14), Ok(Shape::Blob(1)));
    assert_eq!(Shape::of_tag(35), Ok(Shape::Text(11)));
    assert_eq!(Shape::of_tag(u64::MAX), Ok(Shape::Text((u64::MAX - 13) / 2)));
    assert_eq!(Shape::Int(6).len(), 6);
    assert_eq!(Shape::Float.len(), 8);
    assert_eq!(Shape::Text(11).len(), 11);
    assert_eq!(Shape::SmallInt(true).len(), 0);
    assert_eq!(Shape::Blob(3).kind(), Datatype::Blob);
    assert_eq!(Shape::SmallInt(false).kind(), Datatype::Integer);
}

#[test]
fn from_parts_checks_tag_and_length() {
    let blob = Value::from_parts(16, vec![1, 2]).unwrap();
    assert_eq!(blob.datatype(), Datatype::Blob);
    assert_eq!(blob.tag(), 16);
    assert_eq!(blob.string_len(), Some(2));
    assert_eq!(blob.bytes_len(), 3);
    let wide = Value::from_parts(1, vec![5]).unwrap();
    assert_eq!(wide.as_i64(), Some(5));
    assert_eq!(
        Value::from_parts(10, vec![]).unwrap_err(),
        StorageError::InvalidType(10)
    );
    assert_eq!(
        Value::from_parts(11, vec![1]).unwrap_err(),
        StorageError::InvalidType(11)
    );
    assert_eq!(
        Value::from_parts(3, vec![1, 2]).unwrap_err(),
        StorageError::CorruptRecord(CorruptReason::LengthMismatch)
    );
    assert_eq!(
        Value::from_parts(0, vec![0]).unwrap_err(),
        StorageError::CorruptRecord(CorruptReason::LengthMismatch)
    );
    assert_eq!(
        Value::from_parts(15, vec![]).unwrap_err(),
        StorageError::CorruptRecord(CorruptReason::LengthMismatch)
    );
}

#[test]
fn bytes_len_counts_tag_and_payload() {
    assert_eq!(Value::from_i64(0).bytes_len(), 1);
    assert_eq!(Value::from_i64(50000).bytes_len(), 4);
    assert_eq!(Value::text("hello world").bytes_len(), 12);
    let long = "x".repeat(100);
    assert_eq!(Value::text(&long).tag(), 213);
    assert_eq!(Value::text(&long).bytes_len(), 102);
}

#[test]
fn clone_keeps_tag_and_bytes() {
    let v = Value::from_i64(-50000);
    let copy = v.clone();
    assert_eq!(copy.tag(), v.tag());
    assert_eq!(copy.payload(), v.payload());
    assert!(copy == v);
}

#[test]
fn equality_is_of_tag_and_bytes() {
    assert!(Value::from_i64(5) == Value::from_i64(5));
    assert!(Value::from_i64(5) != Value::from_i64(6));
    assert!(Value::null() == Value::null());
    assert!(Value::text("5") != Value::from_i64(5));
    let wide_one = Value::from_parts(1, vec![1]).unwrap();
    assert!(wide_one != Value::from_i64(1));
    assert_eq!(wide_one.compare(&Value::from_i64(1)), Some(Ordering::Equal));
}

#[test]
fn integers_are_ordered_by_number() {
    assert_eq!(
        Value::from_i64(1).compare(&Value::from_i64(2)),
        Some(Ordering::Less)
    );
    assert_eq!(
        Value::from_i64(0).compare(&Value::from_i64(-70000)),
        Some(Ordering::Greater)
    );
    assert_eq!(
        Value::from_i64(i64::MIN).compare(&Value::from_i64(i64::MAX)),
        Some(Ordering::Less)
    );
    assert_eq!(
        Value::from_i64(300).compare(&Value::from_i64(300)),
        Some(Ordering::Equal)
    );
    assert!(Value::from_i64(25) < Value::from_i64(30));
    assert!(Value::from_i64(30) >= Value::from_i64(30));
}

#[test]
fn floats_are_ordered_as_floats() {
    let samples = [
        f64::NEG_INFINITY,
        -50000.2,
        -1.0,
        -f64::MIN_POSITIVE,
        -0.0,
        0.0,
        f64::MIN_POSITIVE,
        1.0,
        50000.2,
        f64::MAX,
        f64::INFINITY,
        f64::NAN,
    ];
    for a in samples {
        for b in samples {
            assert_eq!(float(a).compare(&float(b)), a.partial_cmp(&b), "{} ? {}", a, b);
        }
    }
}

#[test]
fn text_is_ordered_byte_by_byte() {
    let a = from_text("a");
    let b = from_text("b");
    let ba = from_text("ba");
    assert!(a < b);
    assert!(b < ba);
    assert!(a < ba);
    assert_eq!(b.compare(&a), Some(Ordering::Greater));
    assert_eq!(a.compare(&from_text("a")), Some(Ordering::Equal));
    assert_eq!(
        Value::text("").compare(&Value::text("a")),
        Some(Ordering::Less)
    );
    assert_eq!(
        Value::text("Z").compare(&Value::text("a")),
        Some(Ordering::Less)
    );
    assert_eq!(
        Value::text("é").compare(&Value::text("z")),
        Some(Ordering::Greater)
    );
    assert_eq!(
        from_text("bob").compare(&from_text("alice")),
        Some(Ordering::Greater)
    );
}

#[test]
fn values_of_different_kinds_have_no_order() {
    let int = Value::from_i64(50000);
    let flt = float(50000.2);
    assert_eq!(int.compare(&flt), None);
    assert_eq!(flt.compare(&int), None);
    assert!(!(int < flt));
    assert!(!(int > flt));
    assert_eq!(Value::text("1").compare(&Value::from_i64(1)), None);
    assert_eq!(Value::from_i64(1).compare(&Value::text("1")), None);
    assert_eq!(float(1.0).compare(&Value::text("1")), None);
}

#[test]
fn null_and_blob_have_no_order() {
    let null = Value::null();
    let blob = Value::from_parts(14, vec![7]).unwrap();
    assert_eq!(null.compare(&Value::null()), None);
    assert_eq!(null.compare(&Value::from_i64(1)), None);
    assert_eq!(Value::from_i64(1).compare(&null), None);
    assert_eq!(blob.compare(&blob.clone()), None);
    assert_eq!(blob.compare(&Value::text("a")), None);
    assert_eq!(Value::text("a").compare(&blob), None);
}
