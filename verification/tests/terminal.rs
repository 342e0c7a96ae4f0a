use resampler::resamplers::file_use::terminal_rows;

fn rows(input: &str) -> Vec<Vec<String>> {
    terminal_rows(input)
}

fn expect(input: &str, want: &[&[&str]]) {
    let want: Vec<Vec<String>> =
        want.iter().map(|row| row.iter().map(|v| v.to_string()).collect()).collect();
    assert_eq!(rows(input), want);
}

#[test]
fn one_row_of_values() {
    expect("10.0 30.0", &[&["10.0", "30.0"]]);
    expect("7", &[&["7"]]);
}

#[test]
fn rows_are_parted_by_semicolon_and_blank() {
    expect("10.0 30.0; 23 23.11", &[&["10.0", "30.0"], &["23", "23.11"]]);
    expect("1; 2; 3", &[&["1"], &["2"], &["3"]]);
}

#[test]
fn agrees_with_split() {
    let inputs = [
        "", " ", "; ", ";", "a;b", "a; ", "; a", "a  b", ";; ", "; ; ", "1 2;  3", "x\ny",
        "\u{e9} \u{1F3B5}; z", "\r", "a\r",
    ];
    for input in inputs {
        let want: Vec<Vec<String>> = input
            .split("; ")
            .map(|row| row.split(' ').map(|v| v.to_string()).collect())
            .collect();
        assert_eq!(rows(input), want);
    }
}

#[test]
fn empty_input_is_one_row_with_one_empty_value() {
    expect("", &[&[""]]);
}

#[test]
fn blanks_side_by_side_have_an_empty_value_between() {
    expect("1  2", &[&["1", "", "2"]]);
    expect(" 1", &[&["", "1"]]);
    expect("1 ", &[&["1", ""]]);
}

#[test]
fn a_semicolon_alone_parts_nothing() {
    expect("1;2", &[&["1;2"]]);
    expect("1 ;2", &[&["1", ";2"]]);
    expect("1;; 2", &[&["1;"], &["2"]]);
}

#[test]
fn the_end_of_the_line_is_no_part_of_the_last_value() {
    expect("1 2\n", &[&["1", "2"]]);
    expect("1 2\r\n", &[&["1", "2"]]);
    expect("10.0 30.0; 23 23.11\n", &[&["10.0", "30.0"], &["23", "23.11"]]);
    expect("\n", &[&[""]]);
    expect("\r\n", &[&[""]]);
}

#[test]
fn only_one_end_of_line_is_taken_off() {
    expect("1\n\n", &[&["1\n"]]);
    expect("1\r", &[&["1\r"]]);
    expect("1\n\r", &[&["1\n\r"]]);
    expect("1\r\r\n", &[&["1\r"]]);
    expect("1\n2", &[&["1\n2"]]);
}
