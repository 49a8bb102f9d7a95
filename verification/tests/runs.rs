//! Whole runs over files in memory.
use add_rsi::carry::{Carrier, FileStep, GroupRun, TableStep};
use add_rsi::collect::{collect_all_input_files, collect_input_files, Entry, Listing};
use add_rsi::convert::{fresh_states, process_file, ConvertError};
use add_rsi::files::{FileInfo, FsPath, InputFile};
use add_rsi::groups::{group_file_info, group_input_files_by_folder};
use add_rsi::modes::{AutoInspectMode, InspectionOptions, OutputMode, SelectionMode};
use add_rsi::months::find_missing_months;
use add_rsi::outputs::{build_output_path, file_stem};
use add_rsi::overview::{
    checking_line, counted_line, counting_line, overview_lines, presentable, scan_lines,
};
use add_rsi::report::progress_name;
use add_rsi::rsi::Arithmetic;
use add_rsi::run::{
    confirm, dir_arg_was_provided, reads_all_data, validate_windows, version_was_requested,
    RunError, Settings, DEFAULT_ALL_DATA_DIR, DEFAULT_DATA_DIR,
};
use add_rsi::schedule::{gather, schedule};
use add_rsi::select::{
    inspect_file, inspect_first_row, rows_add_up, select_process_files, skipped_files, sum_counted_rows,
};
use csv::{ReaderBuilder, WriterBuilder};

struct Ieee;

impl Arithmetic for Ieee {
    type Number = f64;

    fn parse(text: &str) -> Option<f64> {
        text.parse().ok()
    }

    fn text(value: f64) -> String {
        value.to_string()
    }

    fn whole(count: usize) -> f64 {
        count as f64
    }

    fn is_finite(value: f64) -> bool {
        value.is_finite()
    }

    fn equal(left: f64, right: f64) -> bool {
        left == right
    }

    fn larger(left: f64, right: f64) -> f64 {
        left.max(right)
    }

    fn negated(value: f64) -> f64 {
        -value
    }

    fn plus(left: f64, right: f64) -> f64 {
        left + right
    }

    fn minus(left: f64, right: f64) -> f64 {
        left - right
    }

    fn times(left: f64, right: f64) -> f64 {
        left * right
    }

    fn over(left: f64, right: f64) -> f64 {
        left / right
    }
}

/// Files in memory, each with the names on the way to it.
struct Tree {
    files: Vec<(String, Vec<u8>)>,
}

impl Tree {
    fn new() -> Self {
        Tree { files: Vec::new() }
    }

    fn write(&mut self, path: &str, rows: &[Vec<String>]) {
        let mut writer = WriterBuilder::new()
            .has_headers(false)
            .flexible(true)
            .from_writer(Vec::new());
        for row in rows {
            writer.write_record(row).expect("write CSV row");
        }
        let data = writer.into_inner().expect("flush CSV writer");
        self.put(path, data);
    }

    fn put(&mut self, path: &str, data: Vec<u8>) {
        match self.files.iter_mut().find(|file| file.0 == path) {
            Some(file) => file.1 = data,
            None => self.files.push((path.to_owned(), data)),
        }
    }

    fn read(&self, path: &str) -> Vec<Vec<String>> {
        let file = self.files.iter().find(|file| file.0 == path).expect("a file");
        ReaderBuilder::new()
            .has_headers(false)
            .flexible(true)
            .from_reader(file.1.as_slice())
            .records()
            .map(|record| {
                record
                    .expect("read CSV row")
                    .iter()
                    .map(|field| field.to_owned())
                    .collect()
            })
            .collect()
    }

    fn listing(&self) -> Listing {
        self.folder("root")
    }

    fn folder(&self, folder: &str) -> Listing {
        let mut entries = Vec::new();
        let mut seen: Vec<String> = Vec::new();
        let start = format!("{folder}/");
        for (index, (path, _)) in self.files.iter().enumerate() {
            let full = format!("root/{path}");
            let Some(rest) = full.strip_prefix(&start) else {
                continue;
            };
            match rest.split_once('/') {
                None => entries.push(Entry::File(fs_path(&full), index)),
                Some((inner, _)) => {
                    if !seen.contains(&inner.to_owned()) {
                        seen.push(inner.to_owned());
                        entries.push(Entry::Folder(self.folder(&format!("{start}{inner}"))));
                    }
                }
            }
        }
        entries.push(Entry::Other);
        Listing { path: fs_path(folder), folder: folder.to_owned(), entries }
    }
}

fn fs_path(path: &str) -> FsPath {
    FsPath {
        parts: path.split('/').map(|part| part.as_bytes().to_vec()).collect(),
        name: path.split('/').last().map(str::to_owned),
        stem: path.split('/').last().map(file_stem),
    }
}

fn shown(path: &FsPath) -> String {
    let parts: Vec<String> = path
        .parts
        .iter()
        .map(|part| String::from_utf8(part.clone()).expect("text"))
        .collect();
    parts.join("/")
}

fn kline_row(close: &str, trailing: &[&str]) -> Vec<String> {
    let mut row = vec![
        "0".to_owned(),
        "1.0".to_owned(),
        "2.0".to_owned(),
        "0.5".to_owned(),
        close.to_owned(),
        "100.0".to_owned(),
        "1".to_owned(),
        "200.0".to_owned(),
        "5".to_owned(),
        "50.0".to_owned(),
        "100.0".to_owned(),
        "0".to_owned(),
    ];
    row.extend(trailing.iter().map(|value| (*value).to_owned()));
    row
}

fn settings(name: &str, windows: &[usize]) -> Settings {
    Settings {
        name: name.to_owned(),
        interval: "1s".to_owned(),
        column: 12,
        windows: windows.to_vec(),
        carry: true,
        jobs: 5,
        auto: false,
        all: false,
        overwrite: true,
        copy: false,
    }
}

fn inspect(tree: &Tree, files: &[InputFile], options: InspectionOptions) -> Vec<FileInfo> {
    files
        .iter()
        .map(|file| inspect_file(file, &tree.files[file.source].1, options).expect("inspect"))
        .collect()
}

/// Converts the next file of a group and tells how many rows each step took.
fn convert_next<'a>(
    run: GroupRun<'a, Ieee>,
    data: &[u8],
    step: usize,
) -> Result<(GroupRun<'a, Ieee>, Vec<u8>, Vec<usize>), ConvertError> {
    let mut amounts = Vec::new();
    let mut file = run.open(data, step);
    loop {
        match file.advance()? {
            FileStep::Rows(rest, count) => {
                amounts.push(count);
                file = rest;
            }
            FileStep::Done(next, bytes) => return Ok((next, bytes, amounts)),
        }
    }
}

/// Converts a table and tells how many rows each step took.
fn convert_in_steps(
    carrier: Carrier<Ieee>,
    data: &[u8],
    step: usize,
) -> Result<(Carrier<Ieee>, Vec<u8>, Vec<usize>), ConvertError> {
    let mut amounts = Vec::new();
    let mut table = carrier.open(data, step);
    loop {
        match table.advance()? {
            TableStep::Rows(rest, count) => {
                amounts.push(count);
                table = rest;
            }
            TableStep::Done(next, bytes) => return Ok((next, bytes, amounts)),
        }
    }
}

fn run(tree: &mut Tree, settings: &Settings, fallback: &str) -> Result<Vec<String>, RunError> {
    settings.check_start(true)?;
    let files = settings.find_inputs(&tree.listing())?;
    let options = settings.inspection_options(true);
    let parts = schedule(&files, options)
        .batches
        .iter()
        .map(|batch| inspect(tree, batch.files, options))
        .collect();
    let infos = gather(parts);
    assert!(presentable(&infos, options));
    let mut lines = overview_lines("root", &infos, options);
    let plan = settings.plan(confirm(options, None)?, &infos)?;
    lines.extend(plan.banner.iter().cloned());
    for group in &plan.groups {
        let mut run = GroupRun::<Ieee>::start(settings, fallback, group);
        while let Some(info) = run.current() {
            let output = build_output_path(&info.file.path, options.mode).expect("an output");
            let data = tree.files[info.file.source].1.clone();
            let (next, converted, _) = convert_next(run, &data, 1).expect("convert");
            run = next;
            tree.put(&shown(&output)["root/".len()..], converted);
        }
    }
    lines.push(plan.done_line());
    Ok(lines)
}

fn options(jobs: usize) -> InspectionOptions {
    InspectionOptions {
        mode: OutputMode::Overwrite,
        selection_mode: SelectionMode::All,
        auto_inspect_mode: AutoInspectMode::LastRow,
        expected_columns: 12,
        rsi_column_count: 1,
        jobs,
        skip_confirmation: true,
    }
}

#[test]
fn all_without_explicit_dir_uses_all_data_default() {
    let all = true;
    let default = fs_path(DEFAULT_DATA_DIR.trim_end_matches('/'));

    let dir = if reads_all_data(all, false, &default) {
        DEFAULT_ALL_DATA_DIR
    } else {
        DEFAULT_DATA_DIR
    };

    assert_eq!(dir, "../data/");
    assert!(!reads_all_data(all, true, &default));
    assert!(!reads_all_data(false, false, &default));
    assert!(!reads_all_data(all, false, &fs_path("../data")));
    assert!(!reads_all_data(all, false, &fs_path("../data/ETHUSDT")));
}

#[test]
fn arguments_tell_whether_a_directory_was_named() {
    let arguments = |texts: &[&str]| -> Vec<Option<String>> {
        texts.iter().map(|text| Some((*text).to_owned())).collect()
    };
    assert!(dir_arg_was_provided(&arguments(&["add-rsi", "-d", "x"])));
    assert!(dir_arg_was_provided(&arguments(&["add-rsi", "--all", "--dir", "x"])));
    assert!(dir_arg_was_provided(&arguments(&["add-rsi", "--dir=x"])));
    assert!(dir_arg_was_provided(&arguments(&["add-rsi", "--all", "-d../data/BTCUSDT/"])));
    assert!(dir_arg_was_provided(&arguments(&["add-rsi", "-d=x"])));
    assert!(dir_arg_was_provided(&arguments(&["add-rsi", "-oCrd", "x"])));
    assert!(!dir_arg_was_provided(&arguments(&["add-rsi", "-nd", "-fd", "-", "", "d"])));
    assert!(!dir_arg_was_provided(&arguments(&["-d"])));
    assert!(!dir_arg_was_provided(&arguments(&["add-rsi", "--all", "--directory"])));
    assert!(!dir_arg_was_provided(&[None, None]));
    assert!(!dir_arg_was_provided(&[]));
    assert!(version_was_requested(&arguments(&["add-rsi", "-v"])));
    assert!(version_was_requested(&arguments(&["add-rsi", "--all", "--version"])));
    assert!(version_was_requested(&arguments(&["add-rsi", "-ov"])));
    assert!(!version_was_requested(&arguments(&["add-rsi", "-dv", "-nv"])));
    assert!(!version_was_requested(&arguments(&["-v"])));
    assert!(!version_was_requested(&arguments(&["add-rsi", "-V"])));
}

#[test]
fn validate_windows_rejects_empty_slice() {
    assert!(validate_windows(&[]).is_err());
}

#[test]
fn validate_windows_rejects_zero_window() {
    assert!(validate_windows(&[0]).is_err());
    assert!(validate_windows(&[14, 0]).is_err());
}

#[test]
fn validate_windows_accepts_valid_windows() {
    assert!(validate_windows(&[14]).is_ok());
    assert!(validate_windows(&[14, 64, 256]).is_ok());
}

#[test]
fn collect_input_files_sorts_and_ignores_subdirectories() {
    let mut tree = Tree::new();
    tree.write("SOLUSDT-1s-2024-02.csv", &[]);
    tree.write("SOLUSDT-1s-2023-12.csv", &[]);
    tree.write("BTCUSDT-1s-2024-01.csv", &[]);
    tree.write("nested/SOLUSDT-1s-2022-01.csv", &[]);

    let files = collect_input_files(&tree.listing(), "SOLUSDT", "1s");
    let names = files
        .iter()
        .map(|file| file.path.name.clone().unwrap())
        .collect::<Vec<_>>();

    assert_eq!(
        names,
        vec!["SOLUSDT-1s-2023-12.csv", "SOLUSDT-1s-2024-02.csv"]
    );
}

#[test]
fn collect_all_input_files_recurses_and_uses_parent_dir_prefix() {
    let mut tree = Tree::new();
    tree.write("spot/BTCUSDT/BTCUSDT-1s-2024-02.csv", &[]);
    tree.write("spot/BTCUSDT/ETHUSDT-1s-2024-01.csv", &[]);
    tree.write("spot/BTCUSDT/BTCUSDT-1s-2024-03.rsi.csv", &[]);
    tree.write("futures/linear/ETHUSDT/ETHUSDT-1s-2024-01.csv", &[]);
    tree.write("futures/linear/ETHUSDT/ETHUSDT-5m-2024-01.csv", &[]);

    let files = collect_all_input_files(&tree.listing(), "1s");
    let names = files
        .iter()
        .map(|file| shown(&file.path).strip_prefix("root/").unwrap().to_owned())
        .collect::<Vec<_>>();

    assert_eq!(
        names,
        vec![
            "futures/linear/ETHUSDT/ETHUSDT-1s-2024-01.csv",
            "spot/BTCUSDT/BTCUSDT-1s-2024-02.csv",
        ]
    );
}

#[test]
fn group_input_files_by_folder_preserves_sorted_folder_runs() {
    let mut tree = Tree::new();
    tree.write("BTCUSDT/BTCUSDT-1s-2024-01.csv", &[]);
    tree.write("BTCUSDT/BTCUSDT-1s-2024-02.csv", &[]);
    tree.write("ETHUSDT/ETHUSDT-1s-2024-01.csv", &[]);

    let files = collect_all_input_files(&tree.listing(), "1s");
    let groups = group_input_files_by_folder(&files);

    assert_eq!(groups.len(), 2);
    assert_eq!(groups[0].len(), 2);
    assert_eq!(shown(&groups[0][0].group), "root/BTCUSDT");
    assert_eq!(groups[1].len(), 1);
    assert_eq!(shown(&groups[1][0].group), "root/ETHUSDT");
}

#[test]
fn all_inspection_counts_rows_folder_by_folder() {
    let mut tree = Tree::new();
    tree.write(
        "BTCUSDT/BTCUSDT-1s-2024-01.csv",
        &[kline_row("10", &[]), kline_row("11", &[])],
    );
    tree.write("BTCUSDT/BTCUSDT-1s-2024-02.csv", &[kline_row("12", &[])]);
    tree.write(
        "ETHUSDT/ETHUSDT-1s-2024-01.csv",
        &[
            kline_row("20", &[]),
            kline_row("21", &[]),
            kline_row("22", &["extra"]),
        ],
    );

    let files = collect_all_input_files(&tree.listing(), "1s");
    let parts = schedule(&files, options(2))
        .batches
        .iter()
        .map(|batch| inspect(&tree, batch.files, options(2)))
        .collect();
    let file_info = gather(parts);

    assert_eq!(file_info.len(), 3);
    assert!(rows_add_up(&file_info));
    assert_eq!(sum_counted_rows(&file_info), Some(6));
    assert_eq!(shown(&file_info[0].file.group), "root/BTCUSDT");
    assert_eq!(file_info[0].row_count, Some(2));
    assert_eq!(file_info[1].row_count, Some(1));
    assert_eq!(shown(&file_info[2].file.group), "root/ETHUSDT");
    assert_eq!(file_info[2].row_count, Some(3));
    assert_eq!(file_info[2].max_columns, Some(13));
}

#[test]
fn overwrite_mode_truncates_columns_and_appends_rsi() {
    let mut tree = Tree::new();
    let path = "SOLUSDT-1s-2024-01.csv";
    tree.write(
        path,
        &[
            kline_row("10", &["drop-a", "drop-b"]),
            kline_row("9", &["drop-c", "drop-d"]),
        ],
    );

    run(&mut tree, &settings("SOLUSDT", &[1]), "NA").expect("run overwrite mode");

    let rows = tree.read(path);
    assert_eq!(rows.len(), 2);
    assert_eq!(rows[0].len(), 13);
    assert_eq!(rows[0][12], "NA");
    assert_eq!(rows[1].len(), 13);
    assert_eq!(rows[1][11], "0");
    assert_eq!(rows[1][12], "0");
    assert!(!rows[1].contains(&"drop-c".to_owned()));
    assert!(!rows[1].contains(&"drop-d".to_owned()));
}

#[test]
fn copy_mode_preserves_original_and_writes_rsi_sibling() {
    let mut tree = Tree::new();
    let path = "SOLUSDT-1s-2024-01.csv";
    tree.write(
        path,
        &[
            kline_row("10", &["keep-extra-a", "keep-extra-b"]),
            kline_row("9", &["keep-extra-c", "keep-extra-d"]),
        ],
    );

    let copying = Settings { overwrite: false, copy: true, ..settings("SOLUSDT", &[1]) };
    run(&mut tree, &copying, "NA").expect("run copy mode");

    let original_rows = tree.read(path);
    let copy_rows = tree.read("SOLUSDT-1s-2024-01.rsi.csv");

    assert_eq!(original_rows[0].len(), 14);
    assert!(original_rows[0].contains(&"keep-extra-a".to_owned()));
    assert_eq!(copy_rows[0].len(), 13);
    assert_eq!(copy_rows[0][12], "NA");
}

#[test]
fn carries_rsi_state_across_month_boundaries() {
    let mut tree = Tree::new();
    let february = "SOLUSDT-1s-2024-02.csv";
    tree.write(
        "SOLUSDT-1s-2024-01.csv",
        &[kline_row("10", &[]), kline_row("11", &[])],
    );
    tree.write(february, &[kline_row("10", &[]), kline_row("12", &[])]);

    run(&mut tree, &settings("SOLUSDT", &[2]), "NA").expect("run across files");

    let february_rows = tree.read(february);
    assert_eq!(february_rows[0][12].parse::<f64>().unwrap(), 50.0);

    let second_value = february_rows[1][12].parse::<f64>().unwrap();
    assert!((second_value - 83.33333333333333).abs() < 1e-12);
}

#[test]
fn all_carry_resets_state_for_each_parent_directory_group() {
    let mut tree = Tree::new();
    let btc = "spot/BTCUSDT/BTCUSDT-1s-2024-01.csv";
    let eth = "spot/ETHUSDT/ETHUSDT-1s-2024-01.csv";
    tree.write(btc, &[kline_row("10", &[]), kline_row("11", &[])]);
    tree.write(eth, &[kline_row("20", &[]), kline_row("21", &[])]);

    let everything = Settings { all: true, ..settings("BTCUSDT", &[1]) };
    run(&mut tree, &everything, "NA").expect("run all carry mode");

    let btc_rows = tree.read(btc);
    let eth_rows = tree.read(eth);

    assert_eq!(btc_rows[0][12], "NA");
    assert_eq!(btc_rows[1][12], "100");
    assert_eq!(eth_rows[0][12], "NA");
    assert_eq!(eth_rows[1][12], "100");
}

#[test]
fn auto_no_carry_uses_last_row_for_skip_decision() {
    let mut tree = Tree::new();
    let january = "SOLUSDT-1s-2024-01.csv";
    let february = "SOLUSDT-1s-2024-02.csv";
    tree.write(
        january,
        &[
            kline_row("10", &["old-rsi-a", "old-rsi-b"]),
            kline_row("11", &[]),
        ],
    );
    tree.write(
        february,
        &[
            kline_row("10", &[]),
            kline_row("11", &["old-rsi-a", "old-rsi-b"]),
        ],
    );

    let automatic = Settings { carry: false, auto: true, ..settings("SOLUSDT", &[1]) };
    run(&mut tree, &automatic, "NA").expect("run auto no-carry mode");

    let january_rows = tree.read(january);
    let february_rows = tree.read(february);

    assert_eq!(january_rows[0].len(), 13);
    assert!(!january_rows[0].contains(&"old-rsi-a".to_owned()));
    assert_eq!(february_rows[0].len(), 12);
    assert_eq!(february_rows[1].len(), 14);
    assert!(february_rows[1].contains(&"old-rsi-a".to_owned()));
}

#[test]
fn auto_carry_skips_overwide_files_and_carries_only_selected_files() {
    let mut tree = Tree::new();
    let january = "SOLUSDT-1s-2024-01.csv";
    let february = "SOLUSDT-1s-2024-02.csv";
    let march = "SOLUSDT-1s-2024-03.csv";
    tree.write(january, &[kline_row("10", &[]), kline_row("11", &[])]);
    tree.write(
        february,
        &[
            kline_row("10", &["old-rsi-a", "old-rsi-b"]),
            kline_row("12", &["old-rsi-c", "old-rsi-d"]),
        ],
    );
    tree.write(march, &[kline_row("11", &[]), kline_row("13", &[])]);

    let automatic = Settings { auto: true, ..settings("SOLUSDT", &[2]) };
    run(&mut tree, &automatic, "NA").expect("run auto carry mode");

    let january_rows = tree.read(january);
    let february_rows = tree.read(february);
    let march_rows = tree.read(march);

    assert_eq!(january_rows[0].len(), 13);
    assert_eq!(february_rows[0].len(), 14);
    assert!(february_rows[0].contains(&"old-rsi-a".to_owned()));
    assert_eq!(march_rows[0].len(), 13);
    assert_eq!(march_rows[0][12].parse::<f64>().unwrap(), 100.0);

    let second_march_value = march_rows[1][12].parse::<f64>().unwrap();
    assert_eq!(second_march_value, 100.0);
}

#[test]
fn rsi_returns_100_when_there_are_only_gains() {
    let mut tree = Tree::new();
    let path = "SOLUSDT-1s-2024-01.csv";
    tree.write(
        path,
        &[
            kline_row("10", &[]),
            kline_row("11", &[]),
            kline_row("12", &[]),
        ],
    );

    run(&mut tree, &settings("SOLUSDT", &[2]), "DIV0").expect("run with fallback");

    let rows = tree.read(path);
    assert_eq!(rows[0][12], "DIV0");
    assert_eq!(rows[1][12], "DIV0");
    assert_eq!(rows[2][12], "100");
}

#[test]
fn a_run_tells_what_it_does() {
    let mut tree = Tree::new();
    tree.write("SOLUSDT/SOLUSDT-1s-2024-01.csv", &[kline_row("10", &["x"]), kline_row("11", &[])]);
    tree.write("SOLUSDT/SOLUSDT-1s-2024-04.csv", &[kline_row("10", &[])]);

    let everything = Settings { all: true, copy: true, overwrite: false, ..settings("", &[1]) };
    let lines = run(&mut tree, &everything, "NA").expect("run");

    assert_eq!(
        lines,
        [
            "\nDirectory: root",
            "Matching files: 2 files, 3 counted rows",
            "Column target: 12",
            "Selection mode: all: process every matching file",
            "Files to process: 2 files, 3 counted rows",
            "Folders to process:",
            "  root/SOLUSDT: 2 files, 3 counted rows",
            "Files to process:",
            "  1. SOLUSDT/SOLUSDT-1s-2024-01.csv (2 rows, 12-13 columns)",
            "  2. SOLUSDT/SOLUSDT-1s-2024-04.csv (1 rows, 12 columns)",
            "\nWARNING: processing 1 file with more than 12 columns; extra columns will be dropped before RSI values are appended.",
            "\nWARNING: root/SOLUSDT is missing 2 months between first and last file: 2024-02, 2024-03",
            "         Carryover will continue across the gap, but the missing month data is not being processed.",
            "Output mode: copy to .rsi.csv",
            "\nCarryover mode: processing 1 group in parallel; RSI state resets for each parent-directory group.",
            "Progress: 100.00% (3/3)",
        ]
    );
}

#[test]
fn an_automatic_run_tells_what_it_passes_over() {
    let mut tree = Tree::new();
    tree.write("A-1s-2024-01.csv", &[kline_row("10", &["old"])]);
    tree.write("A-1s-2024-02.csv", &[kline_row("10", &[]), kline_row("11", &["old"])]);

    let automatic = Settings { auto: true, ..settings("A", &[1]) };
    let lines = run(&mut tree, &automatic, "NA").expect("run");

    assert_eq!(
        lines,
        [
            "\nDirectory: root",
            "Matching files: 2 files, rows not counted",
            "Column target: 12",
            "Selection mode: auto: skip files whose first row has all requested RSI columns filled",
            "Files to process: 1 files, 2 counted rows",
            "Files to process:",
            "  1. root/A-1s-2024-02.csv (2 rows, 12-13 columns)",
            "Files skipped by --auto:",
            "  1. root/A-1s-2024-01.csv (not counted rows, 13 columns)",
            "Skipped files are not written, row-counted, or scanned. RSI state carries across selected files only.",
            "\nAuto mode: skipped 1 file whose first row already has all requested RSI columns filled.",
            "\nWARNING: processing 1 selected file with rows over 12 columns; extra columns will be dropped before RSI values are appended.",
            "Output mode: overwrite in place",
            "\nCarryover mode: processing 1 group in parallel; RSI state resets for each parent-directory group.",
            "Carryover mode: skipped --auto files are not scanned.",
            "Progress: 100.00% (2/2)",
        ]
    );
}

#[test]
fn an_automatic_run_without_carryover_goes_by_last_rows() {
    let mut tree = Tree::new();
    tree.write("A-1s-2024-01.csv", &[kline_row("10", &["old"])]);
    tree.write("A-1s-2024-02.csv", &[]);

    let automatic = Settings { auto: true, carry: false, ..settings("A", &[1]) };
    let lines = run(&mut tree, &automatic, "NA").expect("run");

    assert_eq!(
        lines[3],
        "Selection mode: auto: skip files whose last row has all requested RSI columns filled"
    );
    assert_eq!(lines[6], "  1. root/A-1s-2024-02.csv (0 rows, no CSV rows)");
    assert!(lines.contains(&"Skipped files are not written or processed.".to_owned()));
    assert!(lines.contains(&"\nNo-carry mode: processing 1 file in parallel.".to_owned()));
}

#[test]
fn a_run_ends_early_for_a_reason() {
    let mut tree = Tree::new();
    tree.write("A-1s-2024-01.csv", &[kline_row("10", &["old"])]);
    let good = settings("A", &[1]);
    assert_eq!(good.check_start(false), Err(RunError::NotADirectory));
    assert_eq!(settings("A", &[]).check_start(true), Err(RunError::NoWindow));
    assert_eq!(settings("A", &[1, 0]).check_start(true), Err(RunError::ZeroWindow));
    assert_eq!(settings("A", &[]).check_start(false), Err(RunError::NotADirectory));
    let other = settings("B", &[1]);
    assert_eq!(run(&mut tree, &other, ""), Err(RunError::NoInputs));
    let automatic = Settings { auto: true, ..settings("A", &[1]) };
    assert_eq!(run(&mut tree, &automatic, ""), Err(RunError::NothingToProcess));

    let everything = Settings { all: true, ..settings("B", &[1]) };
    let told = |error: RunError, settings: &Settings| error.message(settings, "root");
    assert_eq!(told(RunError::NotADirectory, &good), "root is not a directory");
    assert_eq!(told(RunError::NoWindow, &good), "at least one RSI window is required");
    assert_eq!(told(RunError::ZeroWindow, &good), "RSI windows must be greater than zero");
    assert_eq!(
        told(RunError::NoInputs, &other),
        "no matching CSV files found in root for prefix B-1s"
    );
    assert_eq!(
        told(RunError::NoInputs, &everything),
        "no matching CSV files found recursively in root using parent-directory prefixes and interval 1s"
    );
    assert_eq!(told(RunError::Aborted, &good), "aborted by user");
    assert_eq!(
        told(RunError::NothingToProcess, &good),
        "no files eligible for processing with --auto and --column 12; use --all to process every matching file"
    );
}

#[test]
fn nothing_is_written_unasked() {
    let asked = settings("A", &[1]).inspection_options(false);
    assert!(!asked.skip_confirmation);
    assert!(confirm(asked, Some("y\n")).is_ok());
    assert!(matches!(confirm(asked, Some("n\n")), Err(RunError::Aborted)));
    assert!(matches!(confirm(asked, Some("")), Err(RunError::Aborted)));
    assert!(matches!(confirm(asked, None), Err(RunError::Aborted)));
    let switched_off = settings("A", &[1]).inspection_options(true);
    assert!(confirm(switched_off, None).is_ok());
    let automatic = Settings { auto: true, ..settings("A", &[1]) };
    assert!(confirm(automatic.inspection_options(false), None).is_ok());
}

#[test]
fn settings_pick_the_modes() {
    let plain = Settings { carry: false, overwrite: false, ..settings("A", &[1, 2]) };
    let options = plain.inspection_options(false);
    assert_eq!(options.mode, OutputMode::Overwrite);
    assert_eq!(options.selection_mode, SelectionMode::All);
    assert_eq!(options.auto_inspect_mode, AutoInspectMode::LastRow);
    assert_eq!((options.expected_columns, options.rsi_column_count, options.jobs), (12, 2, 5));
    let other = Settings { copy: true, auto: true, carry: true, ..settings("A", &[1]) };
    let options = other.inspection_options(false);
    assert_eq!(options.mode, OutputMode::Copy);
    assert_eq!(options.selection_mode, SelectionMode::Auto);
    assert_eq!(options.auto_inspect_mode, AutoInspectMode::FirstRow);
    assert!(options.skip_confirmation);
}

#[test]
fn plans_group_by_directory_or_not_at_all() {
    let mut tree = Tree::new();
    tree.write("B/B-1s-2024-02.csv", &[kline_row("10", &[])]);
    tree.write("A/A-1s-2024-01.csv", &[kline_row("10", &[])]);
    tree.write("B/B-1s-2023-12.csv", &[kline_row("10", &[])]);
    for (carry, sizes, unit) in [(true, vec![1, 2], "folder"), (false, vec![1, 1, 1], "file")] {
        let everything = Settings { all: true, carry, jobs: 2, ..settings("", &[1]) };
        let options = everything.inspection_options(true);
        let files = everything.find_inputs(&tree.listing()).expect("files");
        let infos = inspect(&tree, &files, options);
        let consent = confirm(options, None).expect("consent");
        let plan = everything.plan(consent, &infos).expect("a plan");
        let found: Vec<usize> = plan.groups.iter().map(|group| group.len()).collect();
        assert_eq!(found, sizes);
        assert_eq!((plan.parallel, plan.unit, plan.total_rows), (2, unit, Some(3)));
        let names: Vec<String> =
            plan.groups.iter().flatten().map(|info| progress_name(&info.file)).collect();
        assert_eq!(names, ["A/A-1s-2024-01.csv", "B/B-1s-2023-12.csv", "B/B-1s-2024-02.csv"]);
    }
}

#[test]
fn selections_split_the_files() {
    let mut tree = Tree::new();
    tree.write("A-1s-2024-01.csv", &[kline_row("10", &["old"])]);
    tree.write("A-1s-2024-02.csv", &[kline_row("10", &[])]);
    tree.write("A-1s-2024-03.csv", &[kline_row("10", &["old", "x"])]);
    let files = collect_input_files(&tree.listing(), "A", "1s");
    let automatic = Settings { auto: true, ..settings("A", &[1]) };
    let infos = inspect(&tree, &files, automatic.inspection_options(false));
    let months = |infos: Vec<FileInfo>| -> Vec<u32> {
        infos.iter().map(|info| info.file.month).collect()
    };
    assert_eq!(months(select_process_files(&infos, SelectionMode::Auto, 12)), [2]);
    assert_eq!(months(skipped_files(&infos, SelectionMode::Auto, 12)), [1, 3]);
    assert_eq!(months(select_process_files(&infos, SelectionMode::All, 12)), [1, 2, 3]);
    assert!(skipped_files(&infos, SelectionMode::All, 12).is_empty());
    assert_eq!(sum_counted_rows(&infos), None);
}

#[test]
fn gaps_are_found_within_a_directory() {
    let mut tree = Tree::new();
    tree.write("A/A-1s-2023-11.csv", &[]);
    tree.write("A/A-1s-2024-02.csv", &[]);
    tree.write("B/B-1s-2022-01.csv", &[]);
    let files = collect_all_input_files(&tree.listing(), "1s");
    let groups = group_file_info(inspect(&tree, &files, options(1)));
    assert_eq!(groups.len(), 2);
    assert_eq!(find_missing_months(&groups[0]), ["2023-12", "2024-01"]);
    assert!(find_missing_months(&groups[1]).is_empty());
    assert!(find_missing_months(&[]).is_empty());
}

#[test]
fn inspections_are_announced() {
    let mut tree = Tree::new();
    tree.write("A/A-1s-2024-01.csv", &[kline_row("10", &[])]);
    tree.write("B/B-1s-2024-01.csv", &[]);
    tree.write("B/B-1s-2024-02.csv", &[]);
    let files = collect_all_input_files(&tree.listing(), "1s");
    assert_eq!(
        scan_lines(&files, 2),
        [
            "\nCounting rows and columns folder by folder, with up to 2 files in parallel per folder...",
            "\nFolders to scan:",
            "  root/A: 1 file",
            "  root/B: 2 files",
        ]
    );
    assert_eq!(
        scan_lines(&[], 2)[1],
        "Folders to scan: none"
    );
    assert_eq!(
        counting_line(&files[1..], 5),
        "\nCounting root/B: 2 files with up to 2 files in parallel..."
    );
    let infos = inspect(&tree, &files[..1], options(1));
    assert_eq!(counted_line(&infos), "Counted root/A: 1 files, 1 counted rows");
    assert_eq!(
        checking_line(AutoInspectMode::FirstRow, 1),
        "\nChecking first-row RSI cells with up to 1 file in parallel..."
    );
    assert_eq!(
        checking_line(AutoInspectMode::LastRow, 3),
        "\nChecking last-row RSI cells with up to 3 files in parallel..."
    );
}

#[test]
fn sums_and_months_beyond_the_machine_are_told_beforehand() {
    let mut tree = Tree::new();
    tree.write("A-1s-2024-01.csv", &[]);
    tree.write("A-1s-400000000-01.csv", &[]);
    let files = collect_input_files(&tree.listing(), "A", "1s");
    let mut infos = inspect(&tree, &files, options(1));
    assert!(!presentable(&infos, options(1)));
    infos.pop();
    assert!(presentable(&infos, options(1)));
    infos.push(infos[0].clone());
    infos[0].row_count = Some(usize::MAX);
    assert!(presentable(&infos, options(1)));
    infos[1].row_count = Some(1);
    assert!(!rows_add_up(&infos));
    assert!(!presentable(&infos, options(1)));
    infos[0].row_count = None;
    assert!(rows_add_up(&infos));
}

#[test]
fn a_path_without_names_is_shown_with_question_marks() {
    let mut file = {
        let mut tree = Tree::new();
        tree.write("A-1s-2024-01.csv", &[]);
        collect_input_files(&tree.listing(), "A", "1s").remove(0)
    };
    assert_eq!(progress_name(&file), "root/A-1s-2024-01.csv");
    file.group.name = None;
    file.path.name = None;
    assert_eq!(progress_name(&file), "?/?");
}

#[test]
fn batches_are_directories_or_everything() {
    let mut tree = Tree::new();
    tree.write("A/A-1s-2024-01.csv", &[]);
    tree.write("B/B-1s-2024-01.csv", &[]);
    tree.write("B/B-1s-2024-02.csv", &[]);
    let files = collect_all_input_files(&tree.listing(), "1s");

    let counting = schedule(&files, options(5));
    assert_eq!(counting.opening, scan_lines(&files, 5));
    let sizes: Vec<(usize, usize)> =
        counting.batches.iter().map(|batch| (batch.files.len(), batch.parallel)).collect();
    assert_eq!(sizes, [(1, 1), (2, 2)]);
    assert_eq!(counting.batches[1].announcement, Some(counting_line(&files[1..], 5)));

    let looking = InspectionOptions { selection_mode: SelectionMode::Auto, ..options(2) };
    let checking = schedule(&files, looking);
    assert_eq!(checking.opening, [checking_line(AutoInspectMode::LastRow, 2)]);
    assert_eq!(checking.batches.len(), 1);
    assert_eq!((checking.batches[0].files.len(), checking.batches[0].parallel), (3, 2));
    assert_eq!(checking.batches[0].announcement, None);
}

/// What the `csv` crate tells of the first record that it cannot read.
fn csv_text(data: &[u8]) -> String {
    ReaderBuilder::new()
        .has_headers(false)
        .flexible(true)
        .from_reader(data)
        .records()
        .find_map(|record| record.err())
        .expect("an unreadable record")
        .to_string()
}

fn table(closes: &[&str]) -> Vec<u8> {
    let mut tree = Tree::new();
    let rows: Vec<Vec<String>> = closes.iter().map(|close| kline_row(close, &[])).collect();
    tree.write("table", &rows);
    tree.files.remove(0).1
}

#[test]
fn a_group_is_converted_as_one_file() {
    let mut tree = Tree::new();
    for (month, closes) in [("01", ["10", "11"]), ("02", ["10", "12"]), ("03", ["9", "9"])] {
        let rows: Vec<Vec<String>> = closes.iter().map(|close| kline_row(close, &[])).collect();
        tree.write(&format!("A-1s-2024-{month}.csv"), &rows);
    }
    let together = table(&["10", "11", "10", "12", "9", "9"]);
    let whole = process_file::<Ieee>(&together, 12, "NA", &mut fresh_states(&[2, 3]));

    let carrying = settings("A", &[2, 3]);
    run(&mut tree, &carrying, "NA").expect("run");
    let apart: Vec<u8> = tree.files.iter().flat_map(|file| file.1.clone()).collect();
    assert_eq!(whole.expect("convert"), apart);
}

#[test]
fn a_second_run_changes_nothing() {
    for carry in [true, false] {
        let mut tree = Tree::new();
        tree.write("A-1s-2024-01.csv", &[kline_row("10", &["x"]), kline_row("11", &[])]);
        tree.write("A-1s-2024-02.csv", &[kline_row("9.5", &[]), kline_row("12", &["y"])]);
        let again = Settings { carry, ..settings("A", &[1, 2]) };
        run(&mut tree, &again, "").expect("first run");
        let first = tree.files.clone();
        run(&mut tree, &again, "").expect("second run");
        assert_eq!(tree.files, first);
    }
}

#[test]
fn without_carry_files_are_converted_alone() {
    let january = table(&["10", "11", "10"]);
    let february = table(&["10", "12"]);
    for jobs in [0, 1, 7] {
        let mut tree = Tree::new();
        tree.put("A-1s-2024-01.csv", january.clone());
        tree.put("A-1s-2024-02.csv", february.clone());
        let apart = Settings { carry: false, jobs, ..settings("A", &[1]) };
        run(&mut tree, &apart, "NA").expect("run");
        for (file, data) in tree.files.iter().zip([&january, &february]) {
            let alone = process_file::<Ieee>(data, 12, "NA", &mut fresh_states(&[1]));
            assert_eq!(file.1, alone.expect("convert"));
        }
    }
}

#[test]
fn a_carrier_goes_on_where_it_was() {
    let first = table(&["10", "11"]);
    let second = table(&["10", "12"]);
    let mut carrier = Carrier::<Ieee>::start(&[1], 12, "NA".to_owned());
    let mut states = fresh_states::<Ieee>(&[1]);
    for data in [&first, &second] {
        let carried = carrier.convert(data).expect("convert");
        assert_eq!(carried, process_file(data, 12, "NA", &mut states).expect("convert"));
    }
    assert!(matches!(carrier.convert(b"\xff\n"), Err(ConvertError::Read(_))));
}

#[test]
fn steps_are_reported_and_change_nothing() {
    let data = table(&["10", "11", "10", "12", "9"]);
    let whole = process_file::<Ieee>(&data, 12, "NA", &mut fresh_states(&[2]));
    let whole = whole.expect("convert");
    for (step, expected) in [(1, vec![1, 1, 1, 1, 1]), (2, vec![2, 2, 1]), (5, vec![5]), (9, vec![5])] {
        let carrier = Carrier::<Ieee>::start(&[2], 12, "NA".to_owned());
        let (_, bytes, amounts) = convert_in_steps(carrier, &data, step).expect("convert");
        assert_eq!(bytes, whole);
        assert_eq!(amounts, expected);
    }
}

#[test]
fn an_empty_table_reports_nothing() {
    let carrier = Carrier::<Ieee>::start(&[2], 12, "NA".to_owned());
    let (_, bytes, amounts) = convert_in_steps(carrier, b"", 8192).expect("convert");
    assert!(bytes.is_empty());
    assert!(amounts.is_empty());
}

#[test]
fn a_carrier_goes_on_behind_steps() {
    let first = table(&["10", "11"]);
    let second = table(&["10", "12", "9"]);
    let mut states = fresh_states::<Ieee>(&[1]);
    let carrier = Carrier::<Ieee>::start(&[1], 12, "NA".to_owned());
    let (carrier, bytes, _) = convert_in_steps(carrier, &first, 1).expect("convert");
    assert_eq!(bytes, process_file(&first, 12, "NA", &mut states).expect("convert"));
    let (_, bytes, amounts) = convert_in_steps(carrier, &second, 2).expect("convert");
    assert_eq!(bytes, process_file(&second, 12, "NA", &mut states).expect("convert"));
    assert_eq!(amounts, [2, 1]);
}

#[test]
fn a_step_that_meets_an_unsound_row_fails() {
    for step in [1, 2, 3, 8192] {
        let carrier = Carrier::<Ieee>::start(&[1], 12, "NA".to_owned());
        let result = convert_in_steps(carrier, b"1,2\n1,2\n1\n", step);
        match result {
            Err(ConvertError::Write(text)) => assert_eq!(
                text,
                "CSV error: found record with 2 fields, but the previous record has 3 fields"
            ),
            _ => panic!("the row is too short"),
        }
        let carrier = Carrier::<Ieee>::start(&[1], 12, "NA".to_owned());
        match convert_in_steps(carrier, b"1\n2\n\xff\n", step) {
            Err(ConvertError::Read(text)) => assert_eq!(text, csv_text(b"1\n2\n\xff\n")),
            _ => panic!("the record is not text"),
        }
    }
}

#[test]
fn the_files_of_a_group_report_their_rows() {
    let mut tree = Tree::new();
    tree.put("A-1s-2024-01.csv", table(&["10", "11", "12"]));
    tree.put("A-1s-2024-02.csv", Vec::new());
    tree.put("A-1s-2024-03.csv", table(&["11"]));
    let carrying = settings("A", &[1]);
    let files = carrying.find_inputs(&tree.listing()).expect("inputs");
    let options = carrying.inspection_options(true);
    let infos = inspect(&tree, &files, options);
    let plan = carrying.plan(confirm(options, None).expect("consent"), &infos).expect("a plan");
    assert_eq!(plan.groups.len(), 1);
    let mut run = GroupRun::<Ieee>::start(&carrying, "NA", &plan.groups[0]);
    let mut reported = Vec::new();
    while let Some(info) = run.current() {
        let data = &tree.files[info.file.source].1;
        let (next, bytes, amounts) = convert_next(run, data, 2).expect("convert");
        assert_eq!(amounts.iter().sum::<usize>(), info.row_count.expect("counted"));
        assert_eq!(bytes.is_empty(), data.is_empty());
        reported.push(amounts);
        run = next;
    }
    assert_eq!(reported, [vec![2, 1], vec![], vec![1]]);
}

#[test]
fn a_completed_first_row_settles_a_file() {
    let mut tree = Tree::new();
    let row = kline_row("10", &["old"]);
    tree.write("A-1s-2024-01.csv", &[row.clone(), kline_row("11", &[])]);
    let file = collect_input_files(&tree.listing(), "A", "1s").remove(0);
    let carrying = Settings { auto: true, ..settings("A", &[1]) }.inspection_options(false);
    let settled = inspect_first_row(&file, &row, carrying).expect("settled");
    let looked = inspect_file(&file, &tree.files[0].1, carrying).expect("inspect");
    assert_eq!(settled.row_count, looked.row_count);
    assert_eq!(settled.max_columns, looked.max_columns);
    assert_eq!(settled.auto_processable, Some(false));
    assert!(inspect_first_row(&file, &kline_row("10", &[]), carrying).is_none());
    assert!(inspect_first_row(&file, &row, options(1)).is_none());
}
