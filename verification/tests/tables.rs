//! Tables, from bytes to bytes.
use add_rsi::convert::{fresh_states, output_row, process_file, ConvertError, Conversion};
use add_rsi::files::{FileInfo, FsPath, InputFile};
use add_rsi::inspect::{
    analyze_file, analyze_file_for_auto_first_row, analyze_file_for_auto_last_row,
    analyze_file_fully, row_has_completed_appended_rsi_columns, FileStats, InspectError,
};
use add_rsi::modes::{AutoInspectMode, SelectionMode};
use add_rsi::outputs::file_stem;
use add_rsi::rsi::{Arithmetic, RsiState};
use add_rsi::select::{inspect_file, should_process_file};
use csv::{ReaderBuilder, WriterBuilder};

struct Ieee;

impl Arithmetic for Ieee {
    type Number = f64;

    fn parse(text: &str) -> Option<f64> {
        text.parse().ok()
    }

    fn text(value: f64) -> String {
        value.to_string()
    }

    fn whole(count: usize) -> f64 {
        count as f64
    }

    fn is_finite(value: f64) -> bool {
        value.is_finite()
    }

    fn equal(left: f64, right: f64) -> bool {
        left == right
    }

    fn larger(left: f64, right: f64) -> f64 {
        left.max(right)
    }

    fn negated(value: f64) -> f64 {
        -value
    }

    fn plus(left: f64, right: f64) -> f64 {
        left + right
    }

    fn minus(left: f64, right: f64) -> f64 {
        left - right
    }

    fn times(left: f64, right: f64) -> f64 {
        left * right
    }

    fn over(left: f64, right: f64) -> f64 {
        left / right
    }
}

fn states(windows: &[usize]) -> Vec<RsiState<Ieee>> {
    fresh_states(windows)
}

fn kline_row(close: &str, trailing: &[&str]) -> Vec<String> {
    let mut row = vec![
        "0".to_owned(),
        "1.0".to_owned(),
        "2.0".to_owned(),
        "0.5".to_owned(),
        close.to_owned(),
        "100.0".to_owned(),
        "1".to_owned(),
        "200.0".to_owned(),
        "5".to_owned(),
        "50.0".to_owned(),
        "100.0".to_owned(),
        "0".to_owned(),
    ];
    row.extend(trailing.iter().map(|value| (*value).to_owned()));
    row
}

fn write_rows(rows: &[Vec<String>]) -> Vec<u8> {
    let mut writer = WriterBuilder::new()
        .has_headers(false)
        .flexible(true)
        .from_writer(Vec::new());
    for row in rows {
        writer.write_record(row).expect("write CSV row");
    }
    writer.into_inner().expect("flush CSV writer")
}

fn read_rows(data: &[u8]) -> Vec<Vec<String>> {
    ReaderBuilder::new()
        .has_headers(false)
        .flexible(true)
        .from_reader(data)
        .records()
        .map(|record| {
            record
                .expect("read CSV row")
                .iter()
                .map(|field| field.to_owned())
                .collect()
        })
        .collect()
}

fn input(name: &str, year: u32, month: u32) -> InputFile {
    InputFile {
        path: FsPath {
            parts: vec![b"data".to_vec(), name.as_bytes().to_vec()],
            name: Some(name.to_owned()),
            stem: Some(file_stem(name)),
        },
        group: FsPath {
            parts: vec![b"data".to_vec()],
            name: Some("data".to_owned()),
            stem: Some("data".to_owned()),
        },
        folder: "data".to_owned(),
        source: 0,
        year,
        month,
    }
}

#[test]
fn auto_carry_analysis_uses_first_row_and_counts_selected_files() {
    let data = write_rows(&[
        kline_row("10", &[]),
        kline_row("11", &["old-rsi-a", "old-rsi-b"]),
    ]);

    let stats = analyze_file_for_auto_first_row(&data, 12, 2).expect("analyze file");

    assert_eq!(stats.row_count, Some(2));
    assert_eq!(stats.min_columns, Some(12));
    assert_eq!(stats.max_columns, Some(14));
    assert_eq!(stats.auto_processable, Some(true));
}

#[test]
fn auto_carry_analysis_skips_from_first_row_without_counting_rows() {
    let data = write_rows(&[
        kline_row("10", &["old-rsi-a", "old-rsi-b"]),
        kline_row("11", &[]),
    ]);

    let stats = analyze_file_for_auto_first_row(&data, 12, 2).expect("analyze file");
    let file_info = FileInfo {
        file: input("SOLUSDT-1s-2024-01.csv", 2024, 1),
        row_count: stats.row_count,
        min_columns: stats.min_columns,
        max_columns: stats.max_columns,
        auto_processable: stats.auto_processable,
    };

    assert_eq!(stats.row_count, None);
    assert_eq!(stats.min_columns, Some(14));
    assert_eq!(stats.max_columns, Some(14));
    assert_eq!(stats.auto_processable, Some(false));
    assert!(!file_info.is_auto_processable(12));
}

#[test]
fn auto_no_carry_analysis_uses_last_row_to_accept_files() {
    let data = write_rows(&[
        kline_row("10", &["old-rsi-a", "old-rsi-b"]),
        kline_row("11", &[]),
    ]);

    let stats = analyze_file_for_auto_last_row(&data, 12, 2).expect("analyze file");

    assert_eq!(stats.row_count, Some(2));
    assert_eq!(stats.min_columns, Some(12));
    assert_eq!(stats.max_columns, Some(14));
    assert_eq!(stats.auto_processable, Some(true));
}

#[test]
fn auto_no_carry_analysis_uses_last_row_to_skip_files() {
    let data = write_rows(&[
        kline_row("10", &[]),
        kline_row("11", &["old-rsi-a", "old-rsi-b"]),
    ]);

    let stats = analyze_file_for_auto_last_row(&data, 12, 2).expect("analyze file");

    assert_eq!(stats.row_count, Some(2));
    assert_eq!(stats.min_columns, Some(12));
    assert_eq!(stats.max_columns, Some(14));
    assert_eq!(stats.auto_processable, Some(false));
}

#[test]
fn auto_carry_treats_blank_appended_columns_as_incomplete() {
    let data = write_rows(&[
        kline_row("10", &["", ""]),
        kline_row("11", &["old-rsi-a", "old-rsi-b"]),
    ]);

    let stats = analyze_file_for_auto_first_row(&data, 12, 2).expect("analyze file");

    assert_eq!(stats.row_count, Some(2));
    assert_eq!(stats.min_columns, Some(14));
    assert_eq!(stats.max_columns, Some(14));
    assert_eq!(stats.auto_processable, Some(true));
}

#[test]
fn auto_no_carry_treats_partially_filled_last_row_as_incomplete() {
    let data = write_rows(&[
        kline_row("10", &["old-rsi-a", "old-rsi-b"]),
        kline_row("11", &["old-rsi-a", ""]),
    ]);

    let stats = analyze_file_for_auto_last_row(&data, 12, 2).expect("analyze file");

    assert_eq!(stats.row_count, Some(2));
    assert_eq!(stats.min_columns, Some(14));
    assert_eq!(stats.max_columns, Some(14));
    assert_eq!(stats.auto_processable, Some(true));
}

#[test]
fn an_empty_table_is_still_to_be_converted() {
    let empty = FileStats {
        row_count: Some(0),
        min_columns: None,
        max_columns: None,
        auto_processable: Some(true),
    };
    assert_eq!(analyze_file_for_auto_first_row(b"", 12, 2).expect("analyze"), empty);
    assert_eq!(analyze_file_for_auto_last_row(b"", 12, 2).expect("analyze"), empty);
    let full = analyze_file_fully(b"\n\n").expect("analyze");
    assert_eq!(full, FileStats { auto_processable: None, ..empty });
}

#[test]
fn the_modes_pick_the_way_of_looking() {
    let data = write_rows(&[
        kline_row("10", &["old-rsi"]),
        kline_row("11", &[]),
    ]);
    let look = |selection: SelectionMode, row: AutoInspectMode| {
        analyze_file(&data, selection, row, 12, 1).expect("analyze").auto_processable
    };
    assert_eq!(look(SelectionMode::Auto, AutoInspectMode::FirstRow), Some(false));
    assert_eq!(look(SelectionMode::Auto, AutoInspectMode::LastRow), Some(true));
    assert_eq!(look(SelectionMode::All, AutoInspectMode::FirstRow), None);
}

#[test]
fn a_record_that_is_not_text_cannot_be_inspected() {
    let data = b"a,b\n\xff,c\n";
    let told = "CSV parse error: record 1 (line 2, field: 0, byte: 4): \
                invalid utf-8: invalid UTF-8 in field 0 near byte index 0";
    let text = |result: Result<FileStats, InspectError>| match result {
        Err(InspectError::Record(text)) => text,
        _ => panic!("a record cannot be read"),
    };
    assert_eq!(text(analyze_file_fully(data)), told);
    assert_eq!(text(analyze_file_for_auto_last_row(data, 1, 1)), told);
    assert_eq!(text(analyze_file_for_auto_first_row(data, 12, 1)), told);
    match analyze_file_for_auto_first_row(b"\xff\n", 1, 1) {
        Err(InspectError::FirstRecord(text)) => assert_eq!(
            text,
            "CSV parse error: record 0 (line 1, field: 0, byte: 0): \
             invalid utf-8: invalid UTF-8 in field 0 near byte index 0"
        ),
        _ => panic!("the first record cannot be read"),
    }
    // A completed first row ends the look before the bad record.
    let stats = analyze_file_for_auto_first_row(data, 1, 1).expect("analyze");
    assert_eq!(stats.auto_processable, Some(false));
}

#[test]
fn columns_beyond_any_row_are_never_completed() {
    let row = kline_row("10", &["old-rsi"]);
    assert!(row_has_completed_appended_rsi_columns(&row, 12, 1));
    assert!(!row_has_completed_appended_rsi_columns(&row, 12, 2));
    assert!(row_has_completed_appended_rsi_columns(&row, 12, 0));
    assert!(!row_has_completed_appended_rsi_columns(&row, usize::MAX, 1));
}

#[test]
fn a_row_keeps_its_leading_fields() {
    let mut columns = states(&[1, 1]);
    let wide = kline_row("10", &["dropped"]);
    let output = output_row(&wide, 12, "NA", &mut columns);
    assert_eq!(output[..12], wide[..12]);
    assert_eq!(output[12..], ["NA", "NA"]);
    let narrow = output_row(&wide[..5].to_vec(), 12, "NA", &mut columns);
    assert_eq!(narrow.len(), 7);
    assert_eq!(narrow[5..], ["50", "50"]);
}

#[test]
fn states_go_on_from_table_to_table() {
    let whole = write_rows(&[
        kline_row("10", &[]),
        kline_row("11", &[]),
        kline_row("10", &[]),
        kline_row("12", &[]),
    ]);
    let first = write_rows(&[kline_row("10", &[]), kline_row("11", &[])]);
    let second = write_rows(&[kline_row("10", &[]), kline_row("12", &[])]);
    let mut once = states(&[2]);
    let mut carried = states(&[2]);
    let together = process_file(&whole, 12, "NA", &mut once).expect("convert");
    let mut apart = process_file(&first, 12, "NA", &mut carried).expect("convert");
    apart.extend(process_file(&second, 12, "NA", &mut carried).expect("convert"));
    assert_eq!(together, apart);
    assert_ne!(together, whole);
}

#[test]
fn a_conversion_in_steps_gives_the_same_bytes() {
    let rows: Vec<Vec<String>> = (0..10)
        .map(|index| kline_row(&format!("{}", 10 + index * index % 7), &["dropped"]))
        .collect();
    let data = write_rows(&rows);
    let whole = process_file(&data, 12, "", &mut states(&[2, 3])).expect("convert");
    let mut columns = states(&[2, 3]);
    let mut conversion = Conversion::new(&data);
    let mut counts = Vec::new();
    loop {
        let (next, count) = conversion.advance(12, "", &mut columns, 4).expect("advance");
        conversion = next;
        counts.push(count);
        if count == 0 {
            break;
        }
    }
    assert_eq!(counts, [4, 4, 2, 0]);
    assert_eq!(conversion.finish(), whole);
    assert_eq!(read_rows(&whole).len(), 10);
}

#[test]
fn converting_twice_is_converting_once() {
    let data = write_rows(&[
        kline_row("10", &[]),
        kline_row("11", &[]),
        kline_row("9", &[]),
    ]);
    let once = process_file(&data, 12, "NA", &mut states(&[1, 2])).expect("convert");
    let twice = process_file(&once, 12, "NA", &mut states(&[1, 2])).expect("convert");
    assert_eq!(once, twice);
}

#[test]
fn a_column_does_not_depend_on_its_neighbours() {
    let data = write_rows(&[
        kline_row("10", &[]),
        kline_row("11", &[]),
        kline_row("10.5", &[]),
    ]);
    let both = read_rows(&process_file(&data, 12, "NA", &mut states(&[1, 2])).expect("convert"));
    let first = read_rows(&process_file(&data, 12, "NA", &mut states(&[1])).expect("convert"));
    let second = read_rows(&process_file(&data, 12, "NA", &mut states(&[2])).expect("convert"));
    for index in 0..3 {
        assert_eq!(both[index][12], first[index][12]);
        assert_eq!(both[index][13], second[index][12]);
    }
}

#[test]
fn a_converted_table_is_passed_over() {
    let data = write_rows(&[kline_row("10", &[]), kline_row("11", &[])]);
    let before = analyze_file_for_auto_last_row(&data, 12, 1).expect("analyze");
    let converted = process_file(&data, 12, "", &mut states(&[1])).expect("convert");
    let after = analyze_file_for_auto_last_row(&converted, 12, 1).expect("analyze");
    assert_eq!(before.auto_processable, Some(true));
    assert_eq!(after.auto_processable, Some(false));
    // The first cell is the empty fallback, so the first row is not completed.
    let first = analyze_file_for_auto_first_row(&converted, 12, 1).expect("analyze");
    assert_eq!(first.auto_processable, Some(true));
    let filled = process_file(&data, 12, "NA", &mut states(&[1])).expect("convert");
    let first = analyze_file_for_auto_first_row(&filled, 12, 1).expect("analyze");
    assert_eq!(first.auto_processable, Some(false));
}

#[test]
fn rows_that_come_out_uneven_are_refused() {
    let data = b"1,2,3,4,5\n1,2,3\n";
    let mut columns = states(&[1]);
    let result = process_file(data, 12, "NA", &mut columns);
    match result {
        Err(ConvertError::Write(text)) => assert_eq!(
            text,
            "CSV error: found record with 4 fields, but the previous record has 6 fields"
        ),
        _ => panic!("the rows are uneven"),
    }
    // Where enough is cut off, the rows are even.
    let even = process_file(data, 3, "NA", &mut states(&[1])).expect("convert");
    assert_eq!(even, b"1,2,3,NA\n1,2,3,NA\n");
}

#[test]
fn a_record_that_is_not_text_is_refused() {
    let result = process_file(b"1\n\xff\n", 12, "NA", &mut states(&[1]));
    match result {
        Err(ConvertError::Read(text)) => assert_eq!(
            text,
            "CSV parse error: record 1 (line 2, field: 0, byte: 2): \
             invalid utf-8: invalid UTF-8 in field 0 near byte index 0"
        ),
        _ => panic!("a record cannot be read"),
    }
}

#[test]
fn quotes_and_line_ends_survive() {
    let data = b"a,\"b,c\",\"d\ne\",\"f\"\"g\",1\r\n";
    let converted = process_file(data, 12, "", &mut states(&[1])).expect("convert");
    assert_eq!(
        read_rows(&converted),
        [["a", "b,c", "d\ne", "f\"g", "1", ""]]
    );
}

#[test]
fn a_byte_order_mark_is_dropped() {
    let converted = process_file(b"\xef\xbb\xbf1,2\n", 12, "x", &mut states(&[1]));
    assert_eq!(converted.expect("convert"), b"1,2,x\n");
}

#[test]
fn an_empty_table_stays_empty() {
    let converted = process_file(b"", 12, "NA", &mut states(&[1])).expect("convert");
    assert!(converted.is_empty());
}

#[test]
fn an_inspection_keeps_the_file() {
    let data = write_rows(&[kline_row("10", &["extra"])]);
    let file = input("SOLUSDT-1s-2024-03.csv", 2024, 3);
    let options = add_rsi::modes::InspectionOptions {
        mode: add_rsi::modes::OutputMode::Overwrite,
        selection_mode: SelectionMode::All,
        auto_inspect_mode: AutoInspectMode::LastRow,
        expected_columns: 12,
        rsi_column_count: 1,
        jobs: 1,
        skip_confirmation: true,
    };
    let info = inspect_file(&file, &data, options).expect("inspect");
    assert_eq!((info.file.year, info.file.month), (2024, 3));
    assert_eq!(info.row_count, Some(1));
    assert!(info.has_extra_columns(12));
    assert!(!info.is_auto_processable(12));
    assert!(should_process_file(&info, SelectionMode::All, 12));
    assert!(!should_process_file(&info, SelectionMode::Auto, 12));
}

#[test]
fn three_tables_convert_like_one() {
    let closes = ["10", "11", "bad", "9.5", "12", "12.25", "11"];
    let rows: Vec<Vec<String>> = closes.iter().map(|close| kline_row(close, &[])).collect();
    let whole = process_file(&write_rows(&rows), 12, "NA", &mut states(&[1, 2, 3]));
    let mut carried = states(&[1, 2, 3]);
    let mut parts = Vec::new();
    for part in [&rows[..2], &rows[2..2], &rows[2..5], &rows[5..]] {
        let bytes = process_file(&write_rows(part), 12, "NA", &mut carried);
        parts.extend(bytes.expect("convert"));
    }
    assert_eq!(whole.expect("convert"), parts);
}

#[test]
fn full_tables_convert_whatever_they_hold() {
    let data = write_rows(&[
        kline_row("", &["a"]),
        kline_row("x,\"y\"\n", &[]),
        kline_row("1e400", &["b", "c", "d"]),
    ]);
    let converted = process_file(&data, 12, "NA", &mut states(&[1])).expect("convert");
    let rows = read_rows(&converted);
    assert_eq!(rows.len(), 3);
    assert!(rows.iter().all(|row| row.len() == 13 && row[12] == "NA"));
    assert_eq!(rows[1][4], "x,\"y\"\n");
}
