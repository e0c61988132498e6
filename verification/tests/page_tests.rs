use csv::error::StorageError;
use csv::key::Key;
use csv::page::{Page, PageType, PAGE_SIZE};
use csv::record::Record;
use csv::value::Value;

fn person(rowid: u64, name: &str, age: i64) -> Record {
    let mut record = Record::new(rowid);
    record.add_value(Value::text(name));
    record.add_value(Value::from_i64(age));
    record
}

fn filler(rowid: u64) -> Record {
    let mut record = Record::new(rowid);
    record.add_value(Value::text(&"x".repeat(100)));
    record
}

fn same(a: &Record, b: &Record) -> bool {
    a.rowid() == b.rowid()
        && a.column_count() == b.column_count()
        && (0..a.column_count()).all(|i| a.get(i).unwrap() == b.get(i).unwrap())
}

#[test]
fn new_page_is_empty_and_zeroed() {
    let page = Page::new(PageType::Leaf, 3);
    assert!(page.children().is_empty());
    assert_eq!(page.kind(), PageType::Leaf);
    assert_eq!(page.id(), 3);
    assert_eq!(page.record_count(), 0);
    assert_eq!(page.available(), 4096);
    assert_eq!(page.data_cursor(), 4096);
    assert_eq!(*page.image(), vec![0u8; 4096]);
    assert!(page.get(0).is_none());
    assert_eq!(PAGE_SIZE, 4096);
}

#[test]
fn end_to_end() {
    let mut page = Page::new(PageType::Leaf, 0);
    let alice = person(0, "alice", 30);
    let bob = person(1, "bob", 25);
    assert_eq!(page.insert(alice.clone()), Ok(()));
    assert_eq!(page.insert(bob.clone()), Ok(()));
    assert_eq!(page.record_count(), 2);
    assert!(page.children().is_empty());

    let first = page.get(0).unwrap();
    let second = page.get(1).unwrap();
    assert!(same(&first, &alice));
    assert!(same(&second, &bob));
    assert_eq!(
        first.get(0).unwrap().to_display_string(),
        Some("alice".to_string())
    );
    assert_eq!(first.get(1).unwrap().as_i64(), Some(30));
    assert_eq!(
        second.get(0).unwrap().to_display_string(),
        Some("bob".to_string())
    );
    assert_eq!(second.get(1).unwrap().as_i64(), Some(25));
    assert!(page.get(2).is_none());

    let bob_key = Key::compound(vec![Value::from_text("bob", None)]);
    let alice_key = Key::compound(vec![Value::from_text("alice", None)]);
    assert!(bob_key > alice_key);
}

#[test]
fn records_are_laid_down_from_the_end_and_slots_from_the_front() {
    let mut page = Page::new(PageType::Root, 0);
    let alice = person(0, "alice", 30);
    let bytes = alice.serialize();
    assert_eq!(bytes, vec![9, 0, 3, 23, 1, 97, 108, 105, 99, 101, 30]);
    page.insert(alice).unwrap();
    let first = 4096 - 11;
    assert_eq!(page.data_cursor() as usize, first);
    assert_eq!(page.available(), 4096 - 11 - 2);
    assert_eq!(&page.image()[..2], &[(first >> 8) as u8, (first & 255) as u8]);
    assert_eq!(&page.image()[first..], &bytes[..]);

    let bob = person(1, "bob", 25);
    let more = bob.serialize();
    page.insert(bob).unwrap();
    let second = first - more.len();
    assert_eq!(page.data_cursor() as usize, second);
    assert_eq!(
        &page.image()[2..4],
        &[(second >> 8) as u8, (second & 255) as u8]
    );
    assert_eq!(&page.image()[second..first], &more[..]);
    assert_eq!(&page.image()[first..], &bytes[..]);
    assert!(page.image()[4..second].iter().all(|b| *b == 0));
}

#[test]
fn page_capacity() {
    let mut page = Page::new(PageType::Leaf, 0);
    assert_eq!(filler(0).serialize().len(), 105);
    let mut inserted = 0;
    let failure = loop {
        match page.insert(filler(inserted)) {
            Ok(()) => inserted += 1,
            Err(e) => break e,
        }
    };
    assert_eq!(inserted, 38);
    assert_eq!(failure, StorageError::CapacityExceeded(107, 30));
    assert_eq!(page.record_count(), 38);
    assert_eq!(page.available(), 30);

    let before = page.image().clone();
    assert_eq!(
        page.insert(filler(99)),
        Err(StorageError::CapacityExceeded(107, 30))
    );
    assert_eq!(page.record_count(), 38);
    assert_eq!(page.available(), 30);
    assert_eq!(*page.image(), before);
    for i in 0..38 {
        assert!(same(&page.get(i).unwrap(), &filler(i as u64)));
    }
    assert!(page.get(38).is_none());
}

#[test]
fn a_record_that_fills_the_page_exactly_fits() {
    let mut record = Record::new(0);
    record.add_value(Value::text(&"y".repeat(4096 - 2 - 2 - 1 - 1 - 2)));
    assert_eq!(record.serialize().len(), 4094);
    let mut page = Page::new(PageType::Leaf, 0);
    assert_eq!(page.insert(record.clone()), Ok(()));
    assert_eq!(page.available(), 0);
    assert!(same(&page.get(0).unwrap(), &record));
    assert_eq!(
        page.insert(Record::new(1)),
        Err(StorageError::CapacityExceeded(5, 0))
    );
}

#[test]
fn a_record_larger_than_a_page_is_refused() {
    let mut record = Record::new(0);
    record.add_value(Value::text(&"z".repeat(5000)));
    let mut page = Page::new(PageType::Leaf, 0);
    assert_eq!(
        page.insert(record),
        Err(StorageError::CapacityExceeded(5008, 4096))
    );
    assert_eq!(page.record_count(), 0);
    let mut almost = Record::new(0);
    almost.add_value(Value::text(&"z".repeat(4089)));
    assert_eq!(almost.bytes_len(), 4092);
    assert_eq!(
        page.insert(almost),
        Err(StorageError::CapacityExceeded(4097, 4096))
    );
}

#[test]
fn corrupt_decode() {
    let mut image = vec![0u8; 4096];
    image[0] = 0xff;
    image[1] = 0xff;
    let page = Page::from_image(PageType::Leaf, 1, image, 1, 4096).unwrap();
    assert_eq!(page.record_count(), 1);
    assert!(page.get(0).is_none());
    assert!(page.get(1).is_none());
}

#[test]
fn corrupt_slots_and_records_give_none() {
    let mut source = Page::new(PageType::Leaf, 0);
    source.insert(person(0, "alice", 30)).unwrap();
    source.insert(person(1, "bob", 25)).unwrap();
    let cursor = source.data_cursor();
    let sound = Page::from_image(PageType::Leaf, 0, source.image().clone(), 2, cursor).unwrap();
    assert!(same(&sound.get(0).unwrap(), &person(0, "alice", 30)));
    assert!(same(&sound.get(1).unwrap(), &person(1, "bob", 25)));

    let mut image = source.image().clone();
    image[0] = 0x10;
    image[1] = 0x00;
    let past = Page::from_image(PageType::Leaf, 0, image, 2, cursor).unwrap();
    assert!(past.get(0).is_none());
    assert!(same(&past.get(1).unwrap(), &person(1, "bob", 25)));

    let mut image = source.image().clone();
    assert_eq!(image[4085], 9);
    image[4085] = 40;
    let mismatch = Page::from_image(PageType::Leaf, 0, image, 2, cursor).unwrap();
    assert!(mismatch.get(0).is_none());

    let mut image = source.image().clone();
    assert_eq!(image[4088], 23);
    image[4088] = 123;
    let long = Page::from_image(PageType::Leaf, 0, image, 2, cursor).unwrap();
    assert!(long.get(0).is_none());
    assert!(long.get(1).is_some());

    let mut image = source.image().clone();
    image[0] = 0x0f;
    image[1] = 0xff;
    image[4095] = 0x81;
    let cut = Page::from_image(PageType::Leaf, 0, image, 2, cursor).unwrap();
    assert!(cut.get(0).is_none());

    let claims_more =
        Page::from_image(PageType::Leaf, 0, source.image().clone(), 3, cursor).unwrap();
    assert!(claims_more.get(2).is_none());
    assert!(claims_more.get(1).is_some());
}

#[test]
fn from_image_checks_the_shape() {
    assert!(Page::from_image(PageType::Leaf, 0, vec![0; 4095], 0, 4095).is_none());
    assert!(Page::from_image(PageType::Leaf, 0, vec![0; 4097], 0, 4096).is_none());
    assert!(Page::from_image(PageType::Leaf, 0, vec![0; 4096], 0, 4097).is_none());
    assert!(Page::from_image(PageType::Leaf, 0, vec![0; 4096], 3, 5).is_none());
    let page = Page::from_image(PageType::Interior, 9, vec![0; 4096], 3, 6).unwrap();
    assert_eq!(page.kind(), PageType::Interior);
    assert_eq!(page.id(), 9);
    assert_eq!(page.record_count(), 3);
    assert_eq!(page.available(), 0);
    assert!(Page::from_image(PageType::Leaf, 0, vec![0; 4096], 2048, 4096).is_some());
    assert!(Page::from_image(PageType::Leaf, 0, vec![0; 4096], 2049, 4096).is_none());
}

#[test]
fn insert_into_a_page_from_an_image_goes_on_where_it_ended() {
    let mut source = Page::new(PageType::Leaf, 0);
    source.insert(person(0, "alice", 30)).unwrap();
    let mut page =
        Page::from_image(PageType::Leaf, 0, source.image().clone(), 1, source.data_cursor())
            .unwrap();
    page.insert(person(1, "bob", 25)).unwrap();
    assert_eq!(page.record_count(), 2);
    assert!(same(&page.get(0).unwrap(), &person(0, "alice", 30)));
    assert!(same(&page.get(1).unwrap(), &person(1, "bob", 25)));
}
