use resampler::resamplers::file_use::{first_column, parse_rows, terminal_rows, DataError};

fn parse(text: &str) -> Option<u32> {
    text.parse::<f32>().ok().map(f32::to_bits)
}

fn table(rows: &[&[&str]]) -> Vec<Vec<String>> {
    rows.iter().map(|row| row.iter().map(|v| v.to_string()).collect()).collect()
}

fn bits(values: &[f32]) -> Vec<u32> {
    values.iter().map(|v| v.to_bits()).collect()
}

#[test]
fn values_are_read_row_by_row() {
    let rows = table(&[&["10.0", "30.0"], &["23", "23.11"]]);
    assert_eq!(parse_rows(&rows, parse), Ok(bits(&[10.0, 30.0, 23.0, 23.11])));
}

#[test]
fn no_rows_and_empty_rows_hold_no_samples() {
    assert_eq!(parse_rows(&table(&[]), parse), Ok(vec![]));
    assert_eq!(parse_rows(&table(&[&[], &[]]), parse), Ok(vec![]));
    assert_eq!(parse_rows(&table(&[&[], &["1"], &[]]), parse), Ok(bits(&[1.0])));
}

#[test]
fn the_first_value_that_is_no_number_is_named() {
    let rows = table(&[&["1", "2"], &["3", "x", "y"], &["z"]]);
    assert_eq!(parse_rows(&rows, parse), Err(DataError { row: 1, column: 1 }));
    let rows = table(&[&["", "2"]]);
    assert_eq!(parse_rows(&rows, parse), Err(DataError { row: 0, column: 0 }));
    let rows = table(&[&["1"], &["2"], &["3 "]]);
    assert_eq!(parse_rows(&rows, parse), Err(DataError { row: 2, column: 0 }));
}

#[test]
fn nothing_is_read_past_the_first_failure() {
    let asked = std::cell::Cell::new(0);
    let counting = |text: &str| {
        asked.set(asked.get() + 1);
        parse(text)
    };
    let rows = table(&[&["1", "nope", "3"], &["4"]]);
    assert_eq!(parse_rows(&rows, counting), Err(DataError { row: 0, column: 1 }));
    assert_eq!(asked.get(), 2);
}

#[test]
fn a_typed_line_becomes_samples() {
    let rows = terminal_rows("10.0 30.0; 23 23.11\n");
    assert_eq!(parse_rows(&rows, parse), Ok(bits(&[10.0, 30.0, 23.0, 23.11])));
    let rows = terminal_rows("10.0 30.0;23\n");
    assert_eq!(parse_rows(&rows, parse), Err(DataError { row: 0, column: 1 }));
    let rows = terminal_rows("1  2\n");
    assert_eq!(parse_rows(&rows, parse), Err(DataError { row: 0, column: 1 }));
}

#[test]
fn the_first_field_of_each_record_is_kept() {
    let records = table(&[&["1.5", "a", "b"], &["2.5"], &["x", "3.5"]]);
    assert_eq!(first_column(&records), table(&[&["1.5"], &["2.5"], &["x"]]));
    assert_eq!(first_column(&table(&[])), table(&[]));
}

#[test]
fn a_record_without_fields_gives_an_empty_row() {
    let records = table(&[&["1"], &[], &["2"]]);
    assert_eq!(first_column(&records), table(&[&["1"], &[], &["2"]]));
    assert_eq!(parse_rows(&first_column(&records), parse), Ok(bits(&[1.0, 2.0])));
}

#[test]
fn a_table_is_read_by_its_first_column() {
    let records = table(&[&["0.5", "junk"], &["-2", ""], &["1e3", "7"]]);
    assert_eq!(parse_rows(&first_column(&records), parse), Ok(bits(&[0.5, -2.0, 1000.0])));
    let records = table(&[&["0.5", "1"], &["junk", "2"]]);
    assert_eq!(
        parse_rows(&first_column(&records), parse),
        Err(DataError { row: 1, column: 0 })
    );
}
