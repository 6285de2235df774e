use avenue_model::markdown::markdown_table;

fn row(cells: &[&str]) -> Vec<String> {
    cells.iter().map(|c| c.to_string()).collect()
}

#[test]
fn a_short_table_is_shown_whole() {
    let got = markdown_table(&row(&["age", "Rating_Factor"]), &vec![row(&["25", "0.1000"]), row(&["60", "—"])], 2, 30);
    assert_eq!(got, "| age | Rating_Factor |\n|---|---|\n| 25 | 0.1000 |\n| 60 | — |\n");
}

#[test]
fn rows_past_the_limit_are_counted() {
    let rows = vec![row(&["1"]), row(&["2"]), row(&["3"])];
    let got = markdown_table(&row(&["x"]), &rows, 13, 2);
    assert_eq!(got, "| x |\n|---|\n| 1 |\n| 2 |\n\n_11 further rows not shown._\n");
}

#[test]
fn a_table_without_columns_is_nothing() {
    assert_eq!(markdown_table(&Vec::new(), &Vec::new(), 4, 2), "");
}

#[test]
fn a_table_without_rows_keeps_its_header() {
    assert_eq!(markdown_table(&row(&["a", "b", "c"]), &Vec::new(), 0, 5), "| a | b | c |\n|---|---|---|\n");
}
