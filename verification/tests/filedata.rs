use resampler::filedata::FileData;

#[test]
fn csv_is_told_by_its_last_segment() {
    assert_eq!(FileData::from_string("data.csv"), FileData::CSV);
    assert_eq!(FileData::from_string("a.b.csv"), FileData::CSV);
    assert_eq!(FileData::from_string("dir.d/data.csv"), FileData::CSV);
    assert_eq!(FileData::from_string("csv"), FileData::CSV);
    assert_eq!(FileData::from_string(".csv"), FileData::CSV);
}

#[test]
fn terminal_has_three_names() {
    assert_eq!(FileData::from_string("terminal"), FileData::Terminal);
    assert_eq!(FileData::from_string("console"), FileData::Terminal);
    assert_eq!(FileData::from_string("tty"), FileData::Terminal);
    assert_eq!(FileData::from_string("out.tty"), FileData::Terminal);
    assert_eq!(FileData::from_string("x.console"), FileData::Terminal);
}

#[test]
fn anything_else_is_nothing() {
    assert_eq!(FileData::from_string(""), FileData::Nothing);
    assert_eq!(FileData::from_string("data.txt"), FileData::Nothing);
    assert_eq!(FileData::from_string("data.csv."), FileData::Nothing);
    assert_eq!(FileData::from_string("data.CSV"), FileData::Nothing);
    assert_eq!(FileData::from_string("csv.data"), FileData::Nothing);
    assert_eq!(FileData::from_string("data.csv/x"), FileData::Nothing);
    assert_eq!(FileData::from_string("datacsv"), FileData::Nothing);
    assert_eq!(FileData::from_string("terminal.d/x"), FileData::Nothing);
    assert_eq!(FileData::from_string("d\u{e9}j\u{e0}.cs"), FileData::Nothing);
}

#[test]
fn segments_are_counted_in_characters() {
    assert_eq!(FileData::from_string("d\u{e9}j\u{e0}.csv"), FileData::CSV);
    assert_eq!(FileData::from_string("\u{1F3B5}.tty"), FileData::Terminal);
}
