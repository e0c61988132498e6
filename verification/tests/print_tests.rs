use csv::print::{column_widths, format_row};

fn texts(cells: &[&str]) -> Vec<String> {
    cells.iter().map(|c| c.to_string()).collect()
}

#[test]
fn widths_are_of_the_longest_cell_or_the_name() {
    let names = texts(&["name", "age", "city"]);
    let rows = vec![
        texts(&["alice", "30", "x"]),
        texts(&["bob", "25"]),
        texts(&["christopher", "7", ""]),
    ];
    assert_eq!(column_widths(&names, &rows), vec![11, 3, 4]);
    assert_eq!(column_widths(&names, &Vec::new()), vec![4, 3, 4]);
    assert_eq!(column_widths(&Vec::new(), &rows), Vec::<usize>::new());
}

#[test]
fn widths_count_bytes() {
    let names = texts(&["n"]);
    let rows = vec![texts(&["äöü"])];
    assert_eq!(column_widths(&names, &rows), vec![6]);
}

#[test]
fn a_line_has_a_bar_before_each_cell_and_one_at_the_end() {
    assert_eq!(
        format_row(&texts(&["alice", "30"]), &vec![11, 3]),
        "| alice       | 30  |"
    );
    assert_eq!(format_row(&texts(&["name"]), &vec![4]), "| name |");
    assert_eq!(format_row(&Vec::new(), &vec![4]), "|");
}

#[test]
fn a_cell_that_is_too_long_stays_as_it_is() {
    assert_eq!(format_row(&texts(&["alice"]), &vec![3]), "| alice |");
    assert_eq!(format_row(&texts(&["alice", "bob"]), &vec![6]), "| alice  | bob |");
    assert_eq!(format_row(&texts(&["a"]), &Vec::new()), "| a |");
}

#[test]
fn cells_are_filled_up_by_characters() {
    assert_eq!(format_row(&texts(&["äö"]), &vec![4]), "| äö   |");
}
