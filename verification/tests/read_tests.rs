use csv::error::StorageError;
use csv::read::{guess_byte, guess_separator, split_rows};
use csv::table::Table;
use csv::value::Datatype;

/// The bits of every field of every row that spells a float.
fn floats(csv: &str, separator: &str) -> Vec<Vec<Option<u64>>> {
    split_rows(csv, separator)
        .iter()
        .skip(1)
        .map(|row| {
            row.iter()
                .map(|field| field.parse::<f64>().ok().map(f64::to_bits))
                .collect()
        })
        .collect()
}

fn load(csv: &str, separator: &str) -> Table {
    Table::from_csv(csv, Some(separator), &floats(csv, separator)).unwrap()
}

fn column_names(table: &Table) -> Vec<String> {
    let mut names = Vec::new();
    let mut walk = table.iter_colums();
    while let Some(name) = walk.next() {
        names.push(name.clone());
    }
    names
}

#[test]
fn test() {
    guess_separator(&"a,b,c|d".to_string());
    assert_eq!(guess_separator(&"a,b,c|d".to_string()), Some(","));
}

#[test]
fn the_most_frequent_separator_is_guessed() {
    assert_eq!(guess_separator("a\tb\tc,d"), Some("\t"));
    assert_eq!(guess_separator("a;b;c,d"), Some(";"));
    assert_eq!(guess_separator("a|b|c,d;e"), Some("|"));
    assert_eq!(guess_byte(b"a,b,c|d"), b',');
}

#[test]
fn of_equally_frequent_separators_the_later_is_guessed() {
    assert_eq!(guess_separator(""), Some("|"));
    assert_eq!(guess_separator("abc"), Some("|"));
    assert_eq!(guess_separator("a\tb;c"), Some(";"));
    assert_eq!(guess_separator("a\tb;c,d"), Some(","));
    assert_eq!(guess_separator("a\tb;c,d|e"), Some("|"));
    assert_eq!(guess_separator("a\tb,c"), Some(","));
}

#[test]
fn rows_are_cut_at_line_feeds_and_fields_at_the_separator() {
    assert_eq!(
        split_rows("name,age\nalice,30\n\nbob,25\n", ","),
        vec![
            vec!["name".to_string(), "age".to_string()],
            vec!["alice".to_string(), "30".to_string()],
            vec!["bob".to_string(), "25".to_string()]
        ]
    );
    assert_eq!(split_rows("", ","), vec![vec!["".to_string()]]);
    assert_eq!(
        split_rows("\na", ","),
        vec![vec!["".to_string()], vec!["a".to_string()]]
    );
    assert_eq!(
        split_rows("a,,b,", ","),
        vec![vec![
            "a".to_string(),
            "".to_string(),
            "b".to_string(),
            "".to_string()
        ]]
    );
    assert_eq!(
        split_rows("a::b:c", "::"),
        vec![vec!["a".to_string(), "b:c".to_string()]]
    );
    assert_eq!(
        split_rows("a:::b", "::"),
        vec![vec!["a".to_string(), ":b".to_string()]]
    );
    assert_eq!(split_rows("a,b", ""), vec![vec!["a,b".to_string()]]);
    assert_eq!(
        split_rows("ä|ö\r\n", "|"),
        vec![vec!["ä".to_string(), "ö\r".to_string()]]
    );
}

#[test]
fn from_csv_reads_columns_and_rows() {
    let csv = "name\tage\tsize\nalice\t30\t1.75\nbob\t25\t\"tall\"\n";
    let table = load(csv, "\t");
    assert_eq!(table.name(), "");
    assert_eq!(column_names(&table), vec!["name", "age", "size"]);
    assert_eq!(table.row_count(), 2);

    let alice = table.page().get(0).unwrap();
    assert_eq!(alice.rowid(), 0);
    assert_eq!(alice.column_count(), 3);
    assert_eq!(
        alice.get(0).unwrap().to_display_string(),
        Some("alice".to_string())
    );
    assert_eq!(alice.get(1).unwrap().as_i64(), Some(30));
    assert_eq!(alice.get(2).unwrap().float_bits(), Some(1.75f64.to_bits()));

    let bob = table.page().get(1).unwrap();
    assert_eq!(bob.rowid(), 1);
    assert_eq!(bob.get(1).unwrap().as_i64(), Some(25));
    assert_eq!(bob.get(2).unwrap().datatype(), Datatype::Text);
    assert_eq!(
        bob.get(2).unwrap().to_display_string(),
        Some("tall".to_string())
    );
}

#[test]
fn from_csv_guesses_the_separator() {
    let csv = "a;b\n1;2\n";
    let table = Table::from_csv(csv, None, &Vec::new()).unwrap();
    assert_eq!(column_names(&table), vec!["a", "b"]);
    let row = table.page().get(0).unwrap();
    assert_eq!(row.get(0).unwrap().as_i64(), Some(1));
    assert_eq!(row.get(1).unwrap().as_i64(), Some(2));
}

#[test]
fn from_csv_without_floats_keeps_decimals_as_text() {
    let table = Table::from_csv("x\n1.5\n", Some(","), &Vec::new()).unwrap();
    let row = table.page().get(0).unwrap();
    assert_eq!(row.get(0).unwrap().datatype(), Datatype::Text);
    let short = vec![vec![]];
    let table = Table::from_csv("x\n1.5\n", Some(","), &short).unwrap();
    assert_eq!(
        table.page().get(0).unwrap().get(0).unwrap().datatype(),
        Datatype::Text
    );
}

#[test]
fn from_csv_numbers_columns_of_the_same_name() {
    let table = load("a,b,a,a\n", ",");
    assert_eq!(column_names(&table), vec!["a", "b", "a2", "a3"]);
    assert_eq!(table.row_count(), 0);
}

#[test]
fn from_csv_names_columns_by_the_text_of_the_header() {
    let table = load("größe;ä|b;\u{1F600}\n1;2;3\n", ";");
    assert_eq!(column_names(&table), vec!["größe", "ä|b", "\u{1F600}"]);
    assert_eq!(table.get_index("größe"), Some(0));
    let wide = load("a→b→c\n", "→");
    assert_eq!(column_names(&wide), vec!["a", "b", "c"]);
}

#[test]
fn from_csv_of_an_empty_text_has_one_nameless_column() {
    let table = load("", ",");
    assert_eq!(column_names(&table), vec![""]);
    assert_eq!(table.row_count(), 0);
}

#[test]
fn from_csv_takes_rows_of_any_length() {
    let table = load("a,b\n1\n1,2,3\n", ",");
    assert_eq!(table.page().get(0).unwrap().column_count(), 1);
    assert_eq!(table.page().get(1).unwrap().column_count(), 3);
}

#[test]
fn from_csv_fails_where_the_rows_do_not_fit() {
    let mut csv = String::from("text\n");
    for _ in 0..39 {
        csv.push_str(&"x".repeat(100));
        csv.push('\n');
    }
    let result = Table::from_csv(&csv, Some(","), &Vec::new());
    assert_eq!(
        result.unwrap_err(),
        StorageError::CapacityExceeded(107, 30)
    );
    let mut fits = String::from("text\n");
    for _ in 0..38 {
        fits.push_str(&"x".repeat(100));
        fits.push('\n');
    }
    assert_eq!(
        Table::from_csv(&fits, Some(","), &Vec::new())
            .unwrap()
            .row_count(),
        38
    );
}
