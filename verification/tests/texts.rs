//! Names, numbers and answers.
use add_rsi::files::FsPath;
use add_rsi::modes::OutputMode;
use add_rsi::months::{format_month_index, month_index};
use add_rsi::names::parse_input_filename;
use add_rsi::outputs::{build_output_path, file_stem, temp_output_path, unique_token, PathError};
use add_rsi::report::{
    describe_column_range, describe_row_count, describe_total_rows, file_progress_template,
    parallel_summary, summary, total_progress_template, truncate_progress_name,
};
use add_rsi::select::parallel_file_count;
use add_rsi::text::{blank, decimal_text, format_with_commas, is_confirmation};

fn path(parts: &[&str]) -> FsPath {
    FsPath {
        parts: parts.iter().map(|part| part.as_bytes().to_vec()).collect(),
        name: parts.last().map(|part| (*part).to_owned()),
        stem: parts.last().map(|part| file_stem(part)),
    }
}

#[test]
fn parse_input_filename_accepts_expected_pattern() {
    assert_eq!(
        parse_input_filename("SOLUSDT-1s-2024-01.csv", "SOLUSDT", "1s"),
        Some((2024, 1))
    );
    assert_eq!(
        parse_input_filename("SOL-USDT-5m-2024-12.csv", "SOL-USDT", "5m"),
        Some((2024, 12))
    );
    assert_eq!(
        parse_input_filename("SOLUSDT-1s-2024-13.csv", "SOLUSDT", "1s"),
        None
    );
    assert_eq!(
        parse_input_filename("SOLUSDT-1s-2024-01.rsi.csv", "SOLUSDT", "1s"),
        None
    );
    assert_eq!(
        parse_input_filename("BTCUSDT-1s-2024-01.csv", "SOLUSDT", "1s"),
        None
    );
}

#[test]
fn a_month_may_be_written_in_any_way_that_reads_as_a_number() {
    let named = |name: &str| parse_input_filename(name, "A", "1s");
    assert_eq!(named("A-1s-2024-1.csv"), Some((2024, 1)));
    assert_eq!(named("A-1s-2024-+1.csv"), Some((2024, 1)));
    assert_eq!(named("A-1s-02024-012.csv"), Some((2024, 12)));
    assert_eq!(named("A-1s-4294967295-1.csv"), Some((4294967295, 1)));
    assert_eq!(named("A-1s-4294967296-1.csv"), None);
    assert_eq!(named("A-1s-2024-0.csv"), None);
    assert_eq!(named("A-1s-2024-.csv"), None);
    assert_eq!(named("A-1s--1-1.csv"), None);
    assert_eq!(named("A-1s-2024.csv"), None);
    assert_eq!(named("A-1s-2024-01.CSV"), None);
    assert_eq!(named("A-1s-2024-01-02.csv"), None);
    assert_eq!(named(".csv"), None);
}

#[test]
fn truncate_progress_name_short_name_unchanged() {
    let name = "SOLUSDT/SOLUSDT-1s-2024-01.csv";
    assert_eq!(name.chars().count(), 30);
    assert_eq!(truncate_progress_name(name), name);
}

#[test]
fn truncate_progress_name_exactly_34_chars_unchanged() {
    let name = "A".repeat(34);
    assert_eq!(truncate_progress_name(&name), name);
}

#[test]
fn truncate_progress_name_35_chars_truncated_with_ellipsis() {
    let name = "A".repeat(35);
    let result = truncate_progress_name(&name);
    assert_eq!(result.chars().count(), 34);
    assert!(result.ends_with('…'));
    assert_eq!(&result[..result.len() - '…'.len_utf8()], "A".repeat(33));
}

#[test]
fn truncate_progress_name_long_name_truncated() {
    let name = "futures/linear/ETHUSDT/ETHUSDT-1s-2024-01.csv";
    assert!(name.chars().count() > 34);
    let result = truncate_progress_name(name);
    assert_eq!(result.chars().count(), 34);
    assert!(result.ends_with('…'));
}

#[test]
fn truncate_progress_name_multibyte_boundary() {
    let name = "α".repeat(35);
    let result = truncate_progress_name(&name);
    assert_eq!(result.chars().count(), 34);
    assert!(result.ends_with('…'));
}

#[test]
fn format_with_commas_zero() {
    assert_eq!(format_with_commas(0), "0");
}

#[test]
fn format_with_commas_three_digits() {
    assert_eq!(format_with_commas(999), "999");
}

#[test]
fn format_with_commas_four_digits() {
    assert_eq!(format_with_commas(1000), "1,000");
}

#[test]
fn format_with_commas_seven_digits() {
    assert_eq!(format_with_commas(1_234_567), "1,234,567");
}

#[test]
fn format_with_commas_boundary_999_999() {
    assert_eq!(format_with_commas(999_999), "999,999");
}

#[test]
fn the_largest_number_is_written_in_full() {
    assert_eq!(decimal_text(u64::MAX), u64::MAX.to_string());
    let plain: String = format_with_commas(usize::MAX)
        .chars()
        .filter(|character| *character != ',')
        .collect();
    assert_eq!(plain, usize::MAX.to_string());
}

#[test]
fn white_space_of_any_script_is_blank() {
    assert!(blank(""));
    assert!(blank(" \t\r\n"));
    assert!(blank("\u{a0}\u{3000}\u{2003}"));
    assert!(!blank(" x "));
    assert!(!blank("\u{200b}"));
    for code in 0..0x11000u32 {
        if let Some(character) = char::from_u32(code) {
            assert_eq!(blank(&character.to_string()), character.is_whitespace());
        }
    }
}

#[test]
fn only_a_lone_y_agrees() {
    for answer in ["y", "Y", " y\n", "\tY \r\n"] {
        assert!(is_confirmation(answer));
    }
    for answer in ["", "\n", "n", "yes", "y y", "YY", "ỳ"] {
        assert!(!is_confirmation(answer));
    }
}

#[test]
fn months_have_places_and_places_have_names() {
    assert_eq!(month_index(2024, 1), 24288);
    assert_eq!(month_index(0, 12), 11);
    assert_eq!(format_month_index(24288), "2024-01");
    assert_eq!(format_month_index(24299), "2024-12");
    assert_eq!(format_month_index(0), "0-01");
}

#[test]
fn a_copy_stands_beside_its_input() {
    let input = path(&["data", "A-1s-2024-01.csv"]);
    let copy = build_output_path(&input, OutputMode::Copy).expect("an output path");
    assert_eq!(copy.name.as_deref(), Some("A-1s-2024-01.rsi.csv"));
    assert!(copy.same(&path(&["data", "A-1s-2024-01.rsi.csv"])));
    assert_eq!(parse_input_filename("A-1s-2024-01.rsi.csv", "A", "1s"), None);
}

#[test]
fn overwriting_keeps_the_path() {
    let input = path(&["data", "A-1s-2024-01.csv"]);
    let output = build_output_path(&input, OutputMode::Overwrite).expect("an output path");
    assert!(output.same(&input));
    assert_eq!(output.name, input.name);
}

#[test]
fn a_temporary_file_stands_beside_its_output() {
    let output = path(&["data", "A-1s-2024-01.csv"]);
    let temporary = temp_output_path(&output, &unique_token(12, 34)).expect("a path");
    assert_eq!(temporary.name.as_deref(), Some(".A-1s-2024-01.csv.tmp-12-34"));
    assert!(temporary.same(&path(&["data", ".A-1s-2024-01.csv.tmp-12-34"])));
}

#[test]
fn a_path_without_a_name_gives_no_output() {
    let nameless = FsPath { parts: vec![b"..".to_vec()], name: None, stem: None };
    let copy = build_output_path(&nameless, OutputMode::Copy);
    assert!(matches!(copy, Err(PathError::NoOutputName)));
    let temporary = temp_output_path(&nameless, "1-2");
    assert!(matches!(temporary, Err(PathError::InvalidOutputPath)));
    assert_eq!(
        PathError::NoOutputName.message(".."),
        "failed to derive output name for .."
    );
    assert_eq!(PathError::InvalidOutputPath.message(".."), "invalid output path ..");
}

#[test]
fn a_stem_ends_before_the_last_dot() {
    assert_eq!(file_stem("a.csv"), "a");
    assert_eq!(file_stem("a.b.csv"), "a.b");
    assert_eq!(file_stem(".csv"), ".csv");
    assert_eq!(file_stem("a"), "a");
    assert_eq!(file_stem("a."), "a");
}

#[test]
fn tokens_differ_in_process_and_count() {
    assert_eq!(unique_token(1, 23), "1-23");
    assert_eq!(unique_token(12, 3), "12-3");
}

#[test]
fn counts_are_put_in_words() {
    assert_eq!(summary(1, "group"), "1 group");
    assert_eq!(summary(0, "group"), "0 groups");
    assert_eq!(parallel_summary(5), "5 files");
    assert_eq!(describe_total_rows(Some(1234)), "1,234 counted rows");
    assert_eq!(describe_total_rows(None), "rows not counted");
    assert_eq!(describe_row_count(Some(1234)), "1,234");
    assert_eq!(describe_row_count(None), "not counted");
    assert_eq!(describe_column_range(Some(12), Some(12)), "12 columns");
    assert_eq!(describe_column_range(Some(12), Some(15)), "12-15 columns");
    assert_eq!(describe_column_range(None, None), "no CSV rows");
}

#[test]
fn bars_need_a_total() {
    assert!(total_progress_template(true).contains("{bar:40.cyan/blue}"));
    assert!(total_progress_template(false).contains("{spinner:.green}"));
    assert!(file_progress_template(true).contains("{bar:28.green/black}"));
    assert!(file_progress_template(false).contains("{spinner:.green}"));
}

#[test]
fn jobs_are_a_maximum() {
    assert_eq!(parallel_file_count(10, 5), 5);
    assert_eq!(parallel_file_count(3, 5), 3);
    assert_eq!(parallel_file_count(0, 5), 1);
    assert_eq!(parallel_file_count(10, 0), 1);
    assert_eq!(parallel_file_count(usize::MAX, usize::MAX), usize::MAX);
}

#[test]
fn what_a_run_writes_is_never_read_as_input() {
    for name in ["A-1s-2024-01.csv", "A-1s-2024-01.rsi.csv", "A"] {
        let file = path(&["data", name]);
        let copy = build_output_path(&file, OutputMode::Copy).expect("an output path");
        let copied = copy.name.expect("a name");
        assert_eq!(parse_input_filename(&copied, "A", "1s"), None);
        let temporary = temp_output_path(&file, &unique_token(1, 2)).expect("a path");
        let kept = temporary.name.expect("a name");
        assert_eq!(parse_input_filename(&kept, "A", "1s"), None);
        assert_eq!(parse_input_filename(&kept, ".A", "1s"), None);
    }
}

#[test]
fn two_inputs_never_share_a_copy() {
    let copy = |name: &str| {
        let output = build_output_path(&path(&["data", name]), OutputMode::Copy);
        output.expect("an output path").name
    };
    assert_ne!(copy("A-1s-2024-01.csv"), copy("A-1s-2024-1.csv"));
    assert_ne!(copy("A-1s-2024-01.csv"), copy("A-1s-2024-02.csv"));
}

#[test]
fn a_copy_needs_only_the_stem_to_be_text() {
    let file = FsPath {
        parts: vec![b"data".to_vec(), b"abc.\xff".to_vec()],
        name: None,
        stem: Some("abc".to_owned()),
    };
    let copy = build_output_path(&file, OutputMode::Copy).expect("an output path");
    assert!(copy.same(&path(&["data", "abc.rsi.csv"])));
    assert_eq!(copy.stem.as_deref(), Some("abc.rsi"));
}

#[test]
fn what_has_a_name_comes_last() {
    let ordered = ["/", ".", "..", "!x", "-x", "a", "a!", "b"];
    for (place, left) in ordered.iter().enumerate() {
        for (other, right) in ordered.iter().enumerate() {
            assert_eq!(path(&[left]).comes_before(&path(&[right])), place < other);
        }
    }
    for left in ["..", ".", "a", "-b"] {
        for right in ["..", ".", "a", "-b"] {
            let expected = std::path::Path::new(left) < std::path::Path::new(right);
            assert_eq!(path(&[left]).comes_before(&path(&[right])), expected);
        }
    }
}

#[test]
fn no_two_temporary_files_share_a_name() {
    let output = path(&["data", "A-1s-2024-01.csv"]);
    let temporary = |name: &str, process: u32, count: u64| {
        let file = path(&["data", name]);
        temp_output_path(&file, &unique_token(process, count)).expect("a path").name
    };
    let name = "A-1s-2024-01.csv";
    assert_ne!(temporary(name, 1, 23), temporary(name, 12, 3));
    assert_ne!(temporary(name, 1, 2), temporary(name, 1, 3));
    assert_ne!(temporary("A", 1, 2), temporary("A.tmp-1", 1, 3));
    let beside = temp_output_path(&output, &unique_token(1, 2)).expect("a path");
    assert!(!beside.same(&output));
    assert_eq!(beside.parts[..1], output.parts[..1]);
}
