use csv::order::OrderError;
use csv::record::Record;
use csv::table::Table;
use csv::value::Value;

fn row(name: &str, age: i64) -> Record {
    let mut record = Record::new(0);
    record.add_value(Value::text(name));
    record.add_value(Value::from_i64(age));
    record
}

fn people() -> Table {
    let mut table = Table::new("people");
    table.add_column("name", true);
    table.add_column("age", true);
    table.add_record(row("carol", 41)).unwrap();
    table.add_record(row("alice", 30)).unwrap();
    table.add_record(row("bob", 25)).unwrap();
    table.add_record(row("alice", 52)).unwrap();
    table
}

fn rows(table: &Table) -> Vec<(u64, String, i64)> {
    let mut seen = Vec::new();
    let mut walk = table.iter();
    while let Some(row) = walk.next() {
        seen.push((
            row.rowid(),
            row.get(0).unwrap().to_display_string().unwrap(),
            row.get(1).unwrap().as_i64().unwrap(),
        ));
    }
    seen
}

#[test]
fn order_by_one_column_keeps_the_last_row_of_each_key() {
    let ordered = people().order_by("name").unwrap();
    assert_eq!(
        rows(&ordered),
        vec![
            (3, "alice".to_string(), 52),
            (2, "bob".to_string(), 25),
            (0, "carol".to_string(), 41)
        ]
    );
    assert_eq!(ordered.name(), "people");
    assert_eq!(ordered.get_index("age"), Some(1));
}

#[test]
fn order_by_a_number() {
    let ordered = people().order_by("age").unwrap();
    assert_eq!(
        rows(&ordered),
        vec![
            (2, "bob".to_string(), 25),
            (1, "alice".to_string(), 30),
            (0, "carol".to_string(), 41),
            (3, "alice".to_string(), 52)
        ]
    );
}

#[test]
fn order_by_two_columns() {
    let ordered = people().order_by("name, age").unwrap();
    assert_eq!(
        rows(&ordered),
        vec![
            (1, "alice".to_string(), 30),
            (3, "alice".to_string(), 52),
            (2, "bob".to_string(), 25),
            (0, "carol".to_string(), 41)
        ]
    );
}

#[test]
fn order_by_distinct_keys_keeps_every_row_in_ascending_order() {
    let mut table = Table::new("t");
    table.add_column("n", true);
    for n in [5i64, -3, 12, 0, 7, -40, 1] {
        let mut record = Record::new(0);
        record.add_value(Value::from_i64(n));
        table.add_record(record).unwrap();
    }
    let ordered = table.order_by("n").unwrap();
    let mut numbers = Vec::new();
    let mut walk = ordered.iter();
    while let Some(row) = walk.next() {
        numbers.push(row.get(0).unwrap().as_i64().unwrap());
    }
    assert_eq!(numbers, vec![-40, -3, 0, 1, 5, 7, 12]);
}

#[test]
fn order_by_leaves_the_table_as_it_is() {
    let table = people();
    let before = rows(&table);
    let _ = table.order_by("age").unwrap();
    assert_eq!(rows(&table), before);
}

#[test]
fn order_by_an_unknown_column_fails() {
    assert_eq!(
        people().order_by("city").unwrap_err(),
        OrderError::UnknownColumn
    );
    assert_eq!(
        people().order_by("name,").unwrap_err(),
        OrderError::UnknownColumn
    );
}

#[test]
fn order_by_a_column_that_a_row_lacks_fails() {
    let mut table = people();
    let mut short = Record::new(0);
    short.add_value(Value::text("dave"));
    table.add_record(short).unwrap();
    assert_eq!(
        table.order_by("name, age").unwrap_err(),
        OrderError::MissingValue(4, 1)
    );
    assert!(table.order_by("name").is_ok());
}

#[test]
fn order_by_of_an_empty_table() {
    let mut table = Table::new("t");
    table.add_column("a", true);
    let ordered = table.order_by("a").unwrap();
    assert_eq!(ordered.row_count(), 0);
    assert_eq!(ordered.column_count(), 1);
}
