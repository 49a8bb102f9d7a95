//! What is shown while files are inspected and before they are converted.
use vstd::prelude::*;

use crate::files::{FileInfo, InfoModel, InputFile, InputModel};
use crate::groups::{
    group_file_info, group_input_files_by_folder, info_folder, input_folder,
    law_runs_cut_where_the_key_changes, runs,
};
use crate::modes::{AutoInspectMode, InspectionOptions, OutputMode, SelectionMode};
use crate::months::{all_on_scale, months_on_scale};
use crate::report::{
    describe_total_rows, file_list, file_list_lines, folder_summary, folder_summary_lines,
    input_folder_summary, input_folder_summary_lines, parallel_summary, runs_fit, summary_text,
    total_text,
};
use crate::select::{
    at_a_time, law_jobs_are_a_maximum, parallel_file_count, passed_over, rows_add_up, rows_fit,
    select_process_files, selected, skipped_files, sum_counted_rows, total_rows,
};
use crate::text::{decimal, decimal_text, grouped};
use crate::warnings::{
    column_warnings, gap_warnings, warn_about_extra_columns, warn_about_missing_months,
};

verus! {

/// How the files were selected.
pub open spec fn selection_text(options: InspectionOptions) -> Seq<char> {
    match options.selection_mode {
        SelectionMode::Auto => match options.auto_inspect_mode {
            AutoInspectMode::FirstRow =>
                "Selection mode: auto: skip files whose first row has all requested RSI columns filled"@,
            AutoInspectMode::LastRow =>
                "Selection mode: auto: skip files whose last row has all requested RSI columns filled"@,
        },
        SelectionMode::All => "Selection mode: all: process every matching file"@,
    }
}

/// What is not done with the files that are passed over.
pub open spec fn skipping_text(mode: AutoInspectMode) -> Seq<char> {
    match mode {
        AutoInspectMode::FirstRow =>
            "Skipped files are not written, row-counted, or scanned. RSI state carries across selected files only."@,
        AutoInspectMode::LastRow => "Skipped files are not written or processed."@,
    }
}

/// Where the converted tables go.
pub open spec fn output_text(mode: OutputMode) -> Seq<char> {
    match mode {
        OutputMode::Overwrite => "Output mode: overwrite in place"@,
        OutputMode::Copy => "Output mode: copy to .rsi.csv"@,
    }
}

/// A number of files and their rows.
pub open spec fn files_text(label: Seq<char>, infos: Seq<InfoModel>) -> Seq<char> {
    label + decimal(infos.len()) + " files, "@ + total_text(total_rows(infos))
}

/// The part on the files that are passed over.
pub open spec fn skipped_lines(skipped: Seq<InfoModel>, options: InspectionOptions) -> Seq<
    Seq<char>,
> {
    if skipped.len() == 0 {
        seq![]
    } else if options.selection_mode == SelectionMode::Auto {
        file_list("Files skipped by --auto:"@, skipped).push(
            skipping_text(options.auto_inspect_mode),
        )
    } else {
        file_list("Files skipped by --auto:"@, skipped)
    }
}

/// The part on the directories of the files that are converted.
pub open spec fn process_folder_lines(
    process: Seq<InfoModel>,
    options: InspectionOptions,
) -> Seq<Seq<char>> {
    if options.selection_mode == SelectionMode::All {
        folder_summary("Folders to process:"@, process)
    } else {
        seq![]
    }
}

/// What is shown before work starts.
pub open spec fn overview(
    dir: Seq<char>,
    infos: Seq<InfoModel>,
    options: InspectionOptions,
) -> Seq<Seq<char>> {
    let columns = options.expected_columns as nat;
    let process = selected(infos, options.selection_mode, columns);
    let skipped = passed_over(infos, options.selection_mode, columns);
    seq![
        "\nDirectory: "@ + dir,
        files_text("Matching files: "@, infos),
        "Column target: "@ + decimal(columns),
        selection_text(options),
        files_text("Files to process: "@, process),
    ] + process_folder_lines(process, options) + file_list("Files to process:"@, process)
        + skipped_lines(skipped, options) + column_warnings(
        infos,
        options.selection_mode,
        options.auto_inspect_mode,
        columns,
    ) + gap_warnings(runs(infos, info_folder())) + seq![output_text(options.mode)]
}

/// The sums and months that an overview shows can be computed.
pub open spec fn is_presentable(infos: Seq<InfoModel>, options: InspectionOptions) -> bool {
    let process = selected(infos, options.selection_mode, options.expected_columns as nat);
    &&& rows_fit(infos)
    &&& rows_fit(process)
    &&& options.selection_mode == SelectionMode::All ==> runs_fit(runs(process, info_folder()))
    &&& all_on_scale(infos)
}

/// A number of files and their rows.
fn files_line(label: &str, file_info: &[FileInfo]) -> (line: String)
    requires
        rows_fit(file_info.deep_view()),
    ensures
        line@ == files_text(label@, file_info.deep_view()),
{
    assert(file_info@.len() == file_info.len());
    let mut line = label.to_owned();
    let count = decimal_text(file_info.len() as u64);
    line.append(count.as_str());
    line.append(" files, ");
    let total = describe_total_rows(sum_counted_rows(file_info));
    line.append(total.as_str());
    line
}

/// Adds lines to others.
fn add_lines(lines: &mut Vec<String>, more: Vec<String>)
    ensures
        final(lines).deep_view() == old(lines).deep_view() + more.deep_view(),
{
    let ghost added = more.deep_view();
    let mut rest = more;
    lines.append(&mut rest);
    assert(lines.deep_view() =~= old(lines).deep_view() + added);
}

/// Adds a line to others.
fn add_line(lines: &mut Vec<String>, line: String)
    ensures
        final(lines).deep_view() == old(lines).deep_view().push(line@),
{
    lines.push(line);
    assert(lines.deep_view() =~= old(lines).deep_view().push(line@));
}

/// What is shown before work starts.
pub fn overview_lines(dir: &str, file_info: &[FileInfo], options: InspectionOptions) -> (lines: Vec<
    String,
>)
    requires
        is_presentable(file_info.deep_view(), options),
    ensures
        lines.deep_view() == overview(dir@, file_info.deep_view(), options),
{
    let columns = options.expected_columns;
    let process = select_process_files(file_info, options.selection_mode, columns);
    let skipped = skipped_files(file_info, options.selection_mode, columns);
    let mut lines: Vec<String> = Vec::new();
    let mut directory = "\nDirectory: ".to_owned();
    directory.append(dir);
    add_line(&mut lines, directory);
    add_line(&mut lines, files_line("Matching files: ", file_info));
    let mut target = "Column target: ".to_owned();
    let target_number = decimal_text(columns as u64);
    target.append(target_number.as_str());
    add_line(&mut lines, target);
    let selection = match options.selection_mode {
        SelectionMode::Auto => match options.auto_inspect_mode {
            AutoInspectMode::FirstRow =>
                "Selection mode: auto: skip files whose first row has all requested RSI columns filled",
            AutoInspectMode::LastRow =>
                "Selection mode: auto: skip files whose last row has all requested RSI columns filled",
        },
        SelectionMode::All => "Selection mode: all: process every matching file",
    };
    add_line(&mut lines, selection.to_owned());
    add_line(&mut lines, files_line("Files to process: ", process.as_slice()));
    match options.selection_mode {
        SelectionMode::All => {
            add_lines(&mut lines, folder_summary_lines("Folders to process:", process.as_slice()));
        },
        SelectionMode::Auto => {},
    }
    add_lines(&mut lines, file_list_lines("Files to process:", process.as_slice()));
    if skipped.len() > 0 {
        add_lines(&mut lines, file_list_lines("Files skipped by --auto:", skipped.as_slice()));
        match options.selection_mode {
            SelectionMode::Auto => {
                let note = match options.auto_inspect_mode {
                    AutoInspectMode::FirstRow =>
                        "Skipped files are not written, row-counted, or scanned. RSI state carries across selected files only.",
                    AutoInspectMode::LastRow => "Skipped files are not written or processed.",
                };
                add_line(&mut lines, note.to_owned());
            },
            SelectionMode::All => {},
        }
    }
    add_lines(
        &mut lines,
        warn_about_extra_columns(
            file_info,
            options.selection_mode,
            options.auto_inspect_mode,
            columns,
        ),
    );
    add_lines(&mut lines, warn_about_missing_months(file_info));
    let output = match options.mode {
        OutputMode::Overwrite => "Output mode: overwrite in place",
        OutputMode::Copy => "Output mode: copy to .rsi.csv",
    };
    add_line(&mut lines, output.to_owned());
    lines
}

/// Whether the sums and months that an overview shows can be computed.
pub fn presentable(file_info: &[FileInfo], options: InspectionOptions) -> (result: bool)
    ensures
        result == is_presentable(file_info.deep_view(), options),
        result == {
            let process = selected(
                file_info.deep_view(),
                options.selection_mode,
                options.expected_columns as nat,
            );
            &&& rows_fit(file_info.deep_view())
            &&& rows_fit(process)
            &&& options.selection_mode == SelectionMode::All ==> forall|i: int|
                0 <= i < runs(process, info_folder()).len() ==> rows_fit(
                    #[trigger] runs(process, info_folder())[i],
                )
            &&& all_on_scale(file_info.deep_view())
        },
{
    let process = select_process_files(
        file_info,
        options.selection_mode,
        options.expected_columns,
    );
    if !rows_add_up(file_info) || !rows_add_up(process.as_slice()) || !months_on_scale(file_info) {
        return false;
    }
    match options.selection_mode {
        SelectionMode::Auto => true,
        SelectionMode::All => {
            let ghost parts = runs(process.deep_view(), info_folder());
            let groups = group_file_info(process);
            let mut index: usize = 0;
            while index < groups.len()
                invariant
                    groups.deep_view() == parts,
                    options.selection_mode == SelectionMode::All,
                    parts == runs(
                        selected(
                            file_info.deep_view(),
                            options.selection_mode,
                            options.expected_columns as nat,
                        ),
                        info_folder(),
                    ),
                    index <= groups@.len(),
                    forall|i: int| 0 <= i < index ==> rows_fit(#[trigger] parts[i]),
                decreases groups.len() - index,
            {
                assert(parts[index as int] == groups@[index as int].deep_view());
                if !rows_add_up(groups[index].as_slice()) {
                    return false;
                }
                index += 1;
            }
            true
        },
    }
}

/// That the files are being inspected.
pub open spec fn checking_text(mode: AutoInspectMode, parallel_files: nat) -> Seq<char> {
    let what = match mode {
        AutoInspectMode::FirstRow => "\nChecking first-row RSI cells"@,
        AutoInspectMode::LastRow => "\nChecking last-row RSI cells"@,
    };
    what + " with up to "@ + summary_text(parallel_files, "file"@) + " in parallel..."@
}

/// That the files are being inspected.
pub fn checking_line(auto_inspect_mode: AutoInspectMode, parallel_files: usize) -> (line: String)
    ensures
        line@ == checking_text(auto_inspect_mode, parallel_files as nat),
{
    let mut line = match auto_inspect_mode {
        AutoInspectMode::FirstRow => "\nChecking first-row RSI cells".to_owned(),
        AutoInspectMode::LastRow => "\nChecking last-row RSI cells".to_owned(),
    };
    line.append(" with up to ");
    let files = parallel_summary(parallel_files);
    line.append(files.as_str());
    line.append(" in parallel...");
    line
}

/// The most files that any of the directories has inspected at a time.
pub open spec fn most_at_a_time(groups: Seq<Seq<InputModel>>, jobs: nat) -> nat
    decreases groups.len(),
{
    if groups.len() == 0 {
        1
    } else {
        let earlier = most_at_a_time(groups.drop_last(), jobs);
        let count = at_a_time(groups.last().len(), jobs);
        if earlier < count {
            count
        } else {
            earlier
        }
    }
}

/// What is shown before the rows of all files are counted.
pub open spec fn scan(groups: Seq<Seq<InputModel>>, jobs: nat) -> Seq<Seq<char>> {
    seq![
        "\nCounting rows and columns folder by folder, with up to "@ + summary_text(
            most_at_a_time(groups, jobs),
            "file"@,
        ) + " in parallel per folder..."@,
    ] + input_folder_summary("Folders to scan:"@, groups)
}

/// What is shown before the rows of all files are counted.
pub fn scan_lines(files: &[InputFile], jobs: usize) -> (lines: Vec<String>)
    ensures
        lines.deep_view() == scan(runs(files.deep_view(), input_folder()), jobs as nat),
{
    let groups = group_input_files_by_folder(files);
    let ghost parts = runs(files.deep_view(), input_folder());
    let mut most: usize = 1;
    let mut index: usize = 0;
    while index < groups.len()
        invariant
            groups.deep_view() == parts,
            index <= groups@.len(),
            most == most_at_a_time(parts.take(index as int), jobs as nat),
        decreases groups.len() - index,
    {
        assert(parts[index as int] == groups@[index as int].deep_view());
        assert(groups@[index as int]@.len() == parts[index as int].len());
        assert(parts.take(index + 1).drop_last() =~= parts.take(index as int));
        let count = parallel_file_count(groups[index].len(), jobs);
        if most < count {
            most = count;
        }
        index += 1;
    }
    assert(parts.take(index as int) =~= parts);
    let mut first =
        "\nCounting rows and columns folder by folder, with up to ".to_owned();
    let together = parallel_summary(most);
    first.append(together.as_str());
    first.append(" in parallel per folder...");
    let mut lines: Vec<String> = Vec::new();
    add_line(&mut lines, first);
    proof {
        law_runs_cut_where_the_key_changes(files.deep_view(), input_folder());
        assert forall|i: int| 0 <= i < groups@.len() implies (#[trigger] groups@[i])@.len() > 0 by {
            assert(parts[i] == groups@[i].deep_view());
        }
    }
    add_lines(&mut lines, input_folder_summary_lines("Folders to scan:", groups.as_slice()));
    lines
}

/// That the rows of a directory's files are being counted.
pub open spec fn counting_text(folder: Seq<char>, count: nat, jobs: nat) -> Seq<char> {
    "\nCounting "@ + folder + ": "@ + decimal(count) + " files with up to "@ + summary_text(
        at_a_time(count, jobs),
        "file"@,
    ) + " in parallel..."@
}

/// That the rows of a directory's files are being counted.
pub fn counting_line(group: &[InputFile], jobs: usize) -> (line: String)
    requires
        group@.len() > 0,
    ensures
        line@ == counting_text(group.deep_view()[0].folder, group@.len(), jobs as nat),
{
    assert(group@.len() == group.len());
    let mut line = "\nCounting ".to_owned();
    line.append(group[0].folder.as_str());
    line.append(": ");
    let count = decimal_text(group.len() as u64);
    line.append(count.as_str());
    line.append(" files with up to ");
    let together = parallel_summary(parallel_file_count(group.len(), jobs));
    line.append(together.as_str());
    line.append(" in parallel...");
    line
}

/// That the rows of a directory's files are counted.
pub open spec fn counted_text(infos: Seq<InfoModel>) -> Seq<char> {
    "Counted "@ + infos[0].file.folder + ": "@ + decimal(infos.len()) + " files, "@ + total_text(
        total_rows(infos),
    )
}

/// That the rows of a directory's files are counted.
pub fn counted_line(group_info: &[FileInfo]) -> (line: String)
    requires
        group_info@.len() > 0,
        rows_fit(group_info.deep_view()),
    ensures
        line@ == counted_text(group_info.deep_view()),
{
    assert(group_info@.len() == group_info.len());
    let mut line = "Counted ".to_owned();
    line.append(group_info[0].file.folder.as_str());
    line.append(": ");
    let count = decimal_text(group_info.len() as u64);
    line.append(count.as_str());
    line.append(" files, ");
    let total = describe_total_rows(sum_counted_rows(group_info));
    line.append(total.as_str());
    line
}

/// What is shown before work starts, part by part: the directory, the files and
/// their rows, how the files were selected, which of them are converted and
/// which are passed over, what is to be pointed out, and where the tables go.
pub proof fn law_an_overview_tells_the_work(
    dir: Seq<char>,
    infos: Seq<InfoModel>,
    options: InspectionOptions,
)
    ensures
        ({
            let columns = options.expected_columns as nat;
            let process = selected(infos, options.selection_mode, columns);
            let skipped = passed_over(infos, options.selection_mode, columns);
            let rows = |files: Seq<InfoModel>|
                match total_rows(files) {
                    Some(count) => grouped(decimal(count)) + " counted rows"@,
                    None => "rows not counted"@,
                };
            overview(dir, infos, options) == seq![
                "\nDirectory: "@ + dir,
                "Matching files: "@ + decimal(infos.len()) + " files, "@ + rows(infos),
                "Column target: "@ + decimal(columns),
                match (options.selection_mode, options.auto_inspect_mode) {
                    (SelectionMode::All, _) => "Selection mode: all: process every matching file"@,
                    (SelectionMode::Auto, AutoInspectMode::FirstRow) =>
                        "Selection mode: auto: skip files whose first row has all requested RSI columns filled"@,
                    (SelectionMode::Auto, AutoInspectMode::LastRow) =>
                        "Selection mode: auto: skip files whose last row has all requested RSI columns filled"@,
                },
                "Files to process: "@ + decimal(process.len()) + " files, "@ + rows(process),
            ] + (if options.selection_mode == SelectionMode::All {
                folder_summary("Folders to process:"@, process)
            } else {
                seq![]
            }) + file_list("Files to process:"@, process) + (if skipped.len() == 0 {
                seq![]
            } else {
                file_list("Files skipped by --auto:"@, skipped) + (match (
                    options.selection_mode,
                    options.auto_inspect_mode,
                ) {
                    (SelectionMode::All, _) => seq![],
                    (SelectionMode::Auto, AutoInspectMode::FirstRow) => seq![
                        "Skipped files are not written, row-counted, or scanned. RSI state carries across selected files only."@,
                    ],
                    (SelectionMode::Auto, AutoInspectMode::LastRow) => seq![
                        "Skipped files are not written or processed."@,
                    ],
                })
            }) + column_warnings(
                infos,
                options.selection_mode,
                options.auto_inspect_mode,
                columns,
            ) + gap_warnings(runs(infos, info_folder())) + seq![
                match options.mode {
                    OutputMode::Overwrite => "Output mode: overwrite in place"@,
                    OutputMode::Copy => "Output mode: copy to .rsi.csv"@,
                },
            ]
        }),
{
    let columns = options.expected_columns as nat;
    let process = selected(infos, options.selection_mode, columns);
    let skipped = passed_over(infos, options.selection_mode, columns);
    let list = file_list("Files skipped by --auto:"@, skipped);
    assert(skipped_lines(skipped, options) =~= if skipped.len() == 0 {
        seq![]
    } else {
        list + (match (options.selection_mode, options.auto_inspect_mode) {
            (SelectionMode::All, _) => seq![],
            (SelectionMode::Auto, AutoInspectMode::FirstRow) => seq![
                "Skipped files are not written, row-counted, or scanned. RSI state carries across selected files only."@,
            ],
            (SelectionMode::Auto, AutoInspectMode::LastRow) => seq![
                "Skipped files are not written or processed."@,
            ],
        })
    });
    assert(files_text("Matching files: "@, infos) =~= "Matching files: "@ + decimal(infos.len())
        + " files, "@ + (match total_rows(infos) {
        Some(count) => grouped(decimal(count)) + " counted rows"@,
        None => "rows not counted"@,
    }));
    assert(files_text("Files to process: "@, process) =~= "Files to process: "@ + decimal(
        process.len(),
    ) + " files, "@ + (match total_rows(process) {
        Some(count) => grouped(decimal(count)) + " counted rows"@,
        None => "rows not counted"@,
    }));
}

/// What is shown while files are inspected.
pub proof fn law_progress_is_told_in_words(
    parallel: nat,
    groups: Seq<Seq<InputModel>>,
    jobs: nat,
    folder: Seq<char>,
    count: nat,
    infos: Seq<InfoModel>,
)
    ensures
        checking_text(AutoInspectMode::FirstRow, parallel) == "\nChecking first-row RSI cells"@
            + " with up to "@ + summary_text(parallel, "file"@) + " in parallel..."@,
        checking_text(AutoInspectMode::LastRow, parallel) == "\nChecking last-row RSI cells"@
            + " with up to "@ + summary_text(parallel, "file"@) + " in parallel..."@,
        scan(groups, jobs) == seq![
            "\nCounting rows and columns folder by folder, with up to "@ + summary_text(
                most_at_a_time(groups, jobs),
                "file"@,
            ) + " in parallel per folder..."@,
        ] + input_folder_summary("Folders to scan:"@, groups),
        counting_text(folder, count, jobs) == "\nCounting "@ + folder + ": "@ + decimal(count)
            + " files with up to "@ + summary_text(at_a_time(count, jobs), "file"@)
            + " in parallel..."@,
        infos.len() > 0 ==> counted_text(infos) == "Counted "@ + infos[0].file.folder + ": "@
            + decimal(infos.len()) + " files, "@ + (match total_rows(infos) {
            Some(rows) => grouped(decimal(rows)) + " counted rows"@,
            None => "rows not counted"@,
        }),
{
}

/// The most files that are looked at at a time in any directory: no directory has
/// more, and one has as many, or it is one where there is none.
pub proof fn law_most_at_a_time_is_the_largest(
    groups: Seq<Seq<InputModel>>,
    jobs: nat,
    index: int,
)
    ensures
        groups.len() == 0 ==> most_at_a_time(groups, jobs) == 1,
        0 <= index < groups.len() ==> at_a_time(groups[index].len(), jobs) <= most_at_a_time(
            groups,
            jobs,
        ),
        groups.len() > 0 ==> exists|i: int|
            0 <= i < groups.len() && at_a_time((#[trigger] groups[i]).len(), jobs)
                == most_at_a_time(groups, jobs),
    decreases groups.len(),
{
    if groups.len() > 0 {
        let front = groups.drop_last();
        let last = groups.len() - 1;
        law_most_at_a_time_is_the_largest(front, jobs, index);
        law_jobs_are_a_maximum(groups[last].len(), jobs);
        let earlier = most_at_a_time(front, jobs);
        let count = at_a_time(groups.last().len(), jobs);
        if earlier <= count {
            assert(at_a_time(groups[last].len(), jobs) == count);
        } else {
            let i = choose|i: int|
                0 <= i < front.len() && at_a_time((#[trigger] front[i]).len(), jobs) == earlier;
            assert(groups[i] == front[i]);
        }
    }
}

}
