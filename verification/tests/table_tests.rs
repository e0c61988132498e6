use csv::error::StorageError;
use csv::record::Record;
use csv::table::Table;
use csv::value::Value;

fn person(name: &str, age: i64) -> Record {
    let mut record = Record::new(0);
    record.add_value(Value::text(name));
    record.add_value(Value::from_i64(age));
    record
}

fn people() -> Table {
    let mut table = Table::new("people");
    table.add_column("name", true);
    table.add_column("age", true);
    table.add_record(person("carol", 41)).unwrap();
    table.add_record(person("alice", 30)).unwrap();
    table.add_record(person("bob", 25)).unwrap();
    table
}

fn column_names(table: &Table) -> Vec<String> {
    let mut names = Vec::new();
    let mut walk = table.iter_colums();
    while let Some(name) = walk.next() {
        names.push(name.clone());
    }
    names
}

#[test]
fn new_table_is_empty() {
    let table = Table::new("t");
    assert_eq!(table.name(), "t");
    assert_eq!(table.column_count(), 0);
    assert_eq!(table.row_count(), 0);
    assert_eq!(table.available(), 4096);
    assert!(table.iter().next().is_none());
    assert!(table.iter_colums().next().is_none());
}

#[test]
fn columns_are_found_by_name() {
    let table = people();
    assert!(table.has_column("name"));
    assert!(table.has_column("age"));
    assert!(!table.has_column("Name"));
    assert!(!table.has_column(""));
    assert_eq!(table.get_index("name"), Some(0));
    assert_eq!(table.get_index("age"), Some(1));
    assert_eq!(table.get_index("city"), None);
    assert_eq!(column_names(&table), vec!["name", "age"]);
}

#[test]
fn a_taken_name_gets_the_first_free_number() {
    let mut table = Table::new("t");
    table.add_column("name", true);
    table.add_column("name", true);
    table.add_column("name", true);
    table.add_column("name3", true);
    table.add_column("name2", true);
    assert_eq!(
        column_names(&table),
        vec!["name", "name2", "name3", "name32", "name22"]
    );
    assert_eq!(table.get_index("name3"), Some(2));
}

#[test]
fn without_numbering_a_taken_name_hides_the_older_column() {
    let mut table = Table::new("t");
    table.add_column("a", false);
    table.add_column("b", false);
    table.add_column("a", false);
    assert_eq!(column_names(&table), vec!["a", "b", "a"]);
    assert_eq!(table.get_index("a"), Some(2));
    assert_eq!(table.column_count(), 3);
}

#[test]
fn column_lists_are_cut_at_commas_and_trimmed() {
    let table = people();
    assert_eq!(table.get_column_indexes("name"), Some(vec![0]));
    assert_eq!(table.get_column_indexes("age,name"), Some(vec![1, 0]));
    assert_eq!(table.get_column_indexes(" age ,\tname\n"), Some(vec![1, 0]));
    assert_eq!(table.get_column_indexes("age,age"), Some(vec![1, 1]));
    assert_eq!(table.get_column_indexes("age,city"), None);
    assert_eq!(table.get_column_indexes(""), None);
    assert_eq!(table.get_column_indexes("age,"), None);
    assert_eq!(table.get_column_indexes("na me"), None);
}

#[test]
fn column_lists_drop_white_space_of_every_kind() {
    let mut table = Table::new("t");
    table.add_column("a", true);
    table.add_column("b c", true);
    assert_eq!(table.get_column_indexes("\u{a0}a\u{3000}"), Some(vec![0]));
    assert_eq!(table.get_column_indexes("\u{b}a\u{c},\u{2003}b c\u{85}"), Some(vec![0, 1]));
    assert_eq!(table.get_column_indexes("b\u{a0}c"), None);
    assert_eq!(table.get_column_indexes("é , a"), None);
    assert_eq!(table.get_column_indexes(" \t "), None);
}

#[test]
fn select_names_all_columns_or_the_listed_ones() {
    let table = people();
    assert_eq!(table.select("*"), Some(vec![0, 1]));
    assert_eq!(table.select("age"), Some(vec![1]));
    assert_eq!(table.select("age, name"), Some(vec![1, 0]));
    assert_eq!(table.select("salary"), None);
    assert_eq!(table.select(" * "), None);
    assert_eq!(Table::new("t").select("*"), Some(vec![]));
}

#[test]
fn add_record_numbers_the_rows() {
    let table = people();
    assert_eq!(table.row_count(), 3);
    let mut rows = table.iter();
    let mut seen = Vec::new();
    while let Some(row) = rows.next() {
        seen.push((
            row.rowid(),
            row.get(0).unwrap().to_display_string().unwrap(),
            row.get(1).unwrap().as_i64().unwrap(),
        ));
    }
    assert_eq!(
        seen,
        vec![
            (0, "carol".to_string(), 41),
            (1, "alice".to_string(), 30),
            (2, "bob".to_string(), 25)
        ]
    );
    assert!(rows.next().is_none());
}

#[test]
fn insert_keeps_the_row_identifier() {
    let mut table = Table::new("t");
    let mut record = person("dave", 50);
    record.set_rowid(77);
    table.insert(record).unwrap();
    assert_eq!(table.iter_records().next().unwrap().rowid(), 77);
    assert_eq!(table.page().record_count(), 1);
}

#[test]
fn a_full_table_refuses_a_row_and_stays_as_it_is() {
    let mut table = Table::new("t");
    table.add_column("text", true);
    let mut count = 0;
    let failure = loop {
        let mut record = Record::new(0);
        record.add_value(Value::text(&"x".repeat(100)));
        match table.add_record(record) {
            Ok(()) => count += 1,
            Err(e) => break e,
        }
    };
    assert_eq!(count, 38);
    assert_eq!(failure, StorageError::CapacityExceeded(107, 30));
    assert_eq!(table.row_count(), 38);
    assert_eq!(table.available(), 30);
}

#[test]
fn empty_copy_has_the_columns_and_no_rows() {
    let table = people();
    let copy = table.empty_copy();
    assert_eq!(copy.name(), "people");
    assert_eq!(column_names(&copy), vec!["name", "age"]);
    assert_eq!(copy.row_count(), 0);
    assert_eq!(table.row_count(), 3);
}

#[test]
fn select_columns_walks_the_given_names() {
    let table = people();
    let names = vec!["age", "name"];
    let mut walk = table.select_columns(&names);
    assert_eq!(walk.next(), Some("age"));
    assert_eq!(walk.next(), Some("name"));
    assert_eq!(walk.next(), None);
    assert_eq!(walk.next(), None);
}

#[test]
fn where_clause_finds_the_first_row_with_the_value() {
    let mut table = people();
    table.add_record(person("alice", 31)).unwrap();
    let found = table.where_clause(0, &Value::text("alice")).unwrap();
    assert_eq!(found.rowid(), 1);
    assert_eq!(found.get(1).unwrap().as_i64(), Some(30));
    let by_age = table.where_clause(1, &Value::from_i64(25)).unwrap();
    assert_eq!(by_age.rowid(), 2);
    assert!(table.where_clause(0, &Value::text("zoe")).is_none());
    assert!(table.where_clause(1, &Value::text("25")).is_none());
    assert!(table.where_clause(2, &Value::null()).is_none());
}
