//! What is shown of the files and of the work on them, line by line.
use vstd::prelude::*;

use crate::files::{FileInfo, InfoModel, InputFile, InputModel};
use crate::groups::{group_file_info, info_folder, law_runs_cut_where_the_key_changes, runs};
use crate::modes::AutoInspectMode;
use crate::select::{rows_fit, sum_counted_rows, total_rows};
use crate::text::{chars_of, decimal, decimal_text, format_with_commas, grouped};

verus! {

/// The longest name that is shown beside a progress bar.
pub const MAX_PROGRESS_NAME: usize = 34;

/// A name that fits beside a progress bar: the name itself, or its beginning
/// and an ellipsis.
pub open spec fn fitted(name: Seq<char>) -> Seq<char> {
    if name.len() <= MAX_PROGRESS_NAME {
        name
    } else {
        name.take(MAX_PROGRESS_NAME - 1).push('\u{2026}')
    }
}

/// A name that fits beside a progress bar.
pub fn truncate_progress_name(file_name: &str) -> (shown: String)
    ensures
        shown@ == fitted(file_name@),
        shown@.len() <= MAX_PROGRESS_NAME,
        file_name@.len() <= 34 ==> shown@ == file_name@,
        file_name@.len() > 34 ==> shown@ == file_name@.take(33) + seq!['\u{2026}'],
{
    let characters = chars_of(file_name);
    if characters.len() <= MAX_PROGRESS_NAME {
        return file_name.to_owned();
    }
    let mut shown = String::new();
    let mut index: usize = 0;
    while index < MAX_PROGRESS_NAME - 1
        invariant
            index < MAX_PROGRESS_NAME < characters@.len(),
            characters@ == file_name@,
            shown@ == characters@.take(index as int),
        decreases MAX_PROGRESS_NAME - index,
    {
        shown.push(characters[index]);
        assert(shown@ =~= characters@.take(index + 1));
        index += 1;
    }
    shown.push('\u{2026}');
    shown
}

/// The template of the bar over all rows.
pub fn total_progress_template(has_total: bool) -> (template: &'static str)
    ensures
        template@ == if has_total {
            "{prefix:<7} [{elapsed_precise}] [{bar:40.cyan/blue}] {percent:>3}% {pos}/{len} rows ({per_sec}, ETA {eta}) {msg}"@
        } else {
            "{prefix:<7} [{elapsed_precise}] {spinner:.green} {pos} rows ({per_sec}) {msg}"@
        },
{
    if has_total {
        "{prefix:<7} [{elapsed_precise}] [{bar:40.cyan/blue}] {percent:>3}% {pos}/{len} rows ({per_sec}, ETA {eta}) {msg}"
    } else {
        "{prefix:<7} [{elapsed_precise}] {spinner:.green} {pos} rows ({per_sec}) {msg}"
    }
}

/// The template of the bar over the rows of one file.
pub fn file_progress_template(has_total: bool) -> (template: &'static str)
    ensures
        template@ == if has_total {
            "  {msg:<34} [{bar:28.green/black}] {percent:>3}% {pos}/{len}"@
        } else {
            "  {msg:<34} {spinner:.green} {pos} rows"@
        },
{
    if has_total {
        "  {msg:<34} [{bar:28.green/black}] {percent:>3}% {pos}/{len}"
    } else {
        "  {msg:<34} {spinner:.green} {pos} rows"
    }
}

/// A count and its unit.
pub open spec fn summary_text(count: nat, unit: Seq<char>) -> Seq<char> {
    if count == 1 {
        "1 "@ + unit
    } else {
        decimal(count) + " "@ + unit + "s"@
    }
}

/// A count and its unit.
pub fn summary(count: usize, unit: &str) -> (text: String)
    ensures
        text@ == summary_text(count as nat, unit@),
        count == 1 ==> text@ == "1 "@ + unit@,
        count != 1 ==> text@ == decimal(count as nat) + " "@ + unit@ + "s"@,
{
    if count == 1 {
        let mut text = "1 ".to_owned();
        text.append(unit);
        text
    } else {
        let mut text = decimal_text(count as u64);
        text.append(" ");
        text.append(unit);
        text.append("s");
        text
    }
}

/// A number of files.
pub fn parallel_summary(parallel_files: usize) -> (text: String)
    ensures
        text@ == summary_text(parallel_files as nat, "file"@),
{
    summary(parallel_files, "file")
}

/// What a noun ends in behind a count.
pub open spec fn plural_text(count: nat) -> Seq<char> {
    if count == 1 {
        ""@
    } else {
        "s"@
    }
}

/// What a noun ends in behind a count.
pub(crate) fn plural(count: usize) -> (ending: &'static str)
    ensures
        ending@ == plural_text(count as nat),
        count == 1 ==> ending@ == ""@,
        count != 1 ==> ending@ == "s"@,
{
    if count == 1 {
        ""
    } else {
        "s"
    }
}

/// A name, or a question mark in its place.
pub open spec fn shown_name(name: Option<Seq<char>>) -> Seq<char> {
    match name {
        Some(text) => text,
        None => "?"@,
    }
}

/// A file as it is shown: its directory's name and its own.
pub open spec fn progress_text(file: InputModel) -> Seq<char> {
    shown_name(file.group.name) + "/"@ + shown_name(file.path.name)
}

/// A file as it is shown: its directory's name and its own.
pub fn progress_name(file: &InputFile) -> (text: String)
    ensures
        text@ == progress_text(file.deep_view()),
        text@ == (match file.group.name {
            Some(name) => name@,
            None => "?"@,
        }) + "/"@ + (match file.path.name {
            Some(name) => name@,
            None => "?"@,
        }),
{
    let mut text = match &file.group.name {
        Some(name) => name.clone(),
        None => "?".to_owned(),
    };
    text.append("/");
    match &file.path.name {
        Some(name) => text.append(name.as_str()),
        None => text.append("?"),
    }
    text
}

/// A total of rows in words.
pub open spec fn total_text(rows: Option<nat>) -> Seq<char> {
    match rows {
        Some(count) => grouped(decimal(count)) + " counted rows"@,
        None => "rows not counted"@,
    }
}

/// An optional count as a mathematical number.
pub open spec fn as_nat(count: Option<usize>) -> Option<nat> {
    match count {
        Some(number) => Some(number as nat),
        None => None,
    }
}

/// A total of rows in words.
pub fn describe_total_rows(row_count: Option<usize>) -> (text: String)
    ensures
        text@ == total_text(as_nat(row_count)),
        row_count matches Some(count) ==> text@ == grouped(decimal(count as nat))
            + " counted rows"@,
        row_count is None ==> text@ == "rows not counted"@,
{
    match row_count {
        Some(count) => {
            let mut text = format_with_commas(count);
            text.append(" counted rows");
            text
        },
        None => "rows not counted".to_owned(),
    }
}

/// A file's number of rows.
pub open spec fn rows_text(rows: Option<usize>) -> Seq<char> {
    match rows {
        Some(count) => grouped(decimal(count as nat)),
        None => "not counted"@,
    }
}

/// A file's number of rows.
pub fn describe_row_count(row_count: Option<usize>) -> (text: String)
    ensures
        text@ == rows_text(row_count),
        row_count matches Some(count) ==> text@ == grouped(decimal(count as nat)),
        row_count is None ==> text@ == "not counted"@,
{
    match row_count {
        Some(count) => format_with_commas(count),
        None => "not counted".to_owned(),
    }
}

/// A file's widths.
pub open spec fn columns_text(min_columns: Option<usize>, max_columns: Option<usize>) -> Seq<char> {
    match (min_columns, max_columns) {
        (Some(least), Some(most)) => if least == most {
            decimal(least as nat) + " columns"@
        } else {
            decimal(least as nat) + "-"@ + decimal(most as nat) + " columns"@
        },
        _ => "no CSV rows"@,
    }
}

/// A file's widths.
pub fn describe_column_range(min_columns: Option<usize>, max_columns: Option<usize>) -> (text:
    String)
    ensures
        text@ == columns_text(min_columns, max_columns),
        min_columns is None || max_columns is None ==> text@ == "no CSV rows"@,
        min_columns is Some && max_columns == min_columns ==> text@ == decimal(
            min_columns->0 as nat,
        ) + " columns"@,
        min_columns is Some && max_columns is Some && max_columns != min_columns ==> text@
            == decimal(min_columns->0 as nat) + "-"@ + decimal(max_columns->0 as nat)
            + " columns"@,
{
    match (min_columns, max_columns) {
        (Some(least), Some(most)) => {
            let mut text = decimal_text(least as u64);
            if least != most {
                text.append("-");
                let most_text = decimal_text(most as u64);
                text.append(most_text.as_str());
            }
            text.append(" columns");
            text
        },
        _ => "no CSV rows".to_owned(),
    }
}

/// The row that an inspection goes by.
pub open spec fn inspected_row_text(mode: AutoInspectMode) -> Seq<char> {
    match mode {
        AutoInspectMode::FirstRow => "first row"@,
        AutoInspectMode::LastRow => "last row"@,
    }
}

/// The row that an inspection goes by.
pub fn auto_inspected_row_name(auto_inspect_mode: AutoInspectMode) -> (name: &'static str)
    ensures
        name@ == inspected_row_text(auto_inspect_mode),
        auto_inspect_mode == AutoInspectMode::FirstRow ==> name@ == "first row"@,
        auto_inspect_mode == AutoInspectMode::LastRow ==> name@ == "last row"@,
{
    match auto_inspect_mode {
        AutoInspectMode::FirstRow => "first row",
        AutoInspectMode::LastRow => "last row",
    }
}

/// The line of one file in a list.
pub open spec fn file_line(number: nat, info: InfoModel) -> Seq<char> {
    "  "@ + decimal(number) + ". "@ + progress_text(info.file) + " ("@ + rows_text(info.row_count)
        + " rows, "@ + columns_text(info.min_columns, info.max_columns) + ")"@
}

/// The lines of a list of files.
pub open spec fn file_list(title: Seq<char>, infos: Seq<InfoModel>) -> Seq<Seq<char>> {
    if infos.len() == 0 {
        seq![title + " none"@]
    } else {
        seq![title] + Seq::new(infos.len(), |i: int| file_line((i + 1) as nat, infos[i]))
    }
}

/// A title over nothing.
fn empty_list(title: &str) -> (lines: Vec<String>)
    ensures
        lines.deep_view() == seq![title@ + " none"@],
{
    let mut line = title.to_owned();
    line.append(" none");
    let mut lines: Vec<String> = Vec::new();
    lines.push(line);
    assert(lines.deep_view() =~= seq![title@ + " none"@]);
    lines
}

/// The lines of a list of files.
pub fn file_list_lines(title: &str, file_info: &[FileInfo]) -> (lines: Vec<String>)
    ensures
        lines.deep_view() == file_list(title@, file_info.deep_view()),
{
    if file_info.len() == 0 {
        return empty_list(title);
    }
    let ghost all = file_info.deep_view();
    let ghost body = Seq::new(all.len(), |i: int| file_line((i + 1) as nat, all[i]));
    let mut lines: Vec<String> = Vec::new();
    lines.push(title.to_owned());
    let mut index: usize = 0;
    assert(lines.deep_view() =~= seq![title@] + body.take(0));
    while index < file_info.len()
        invariant
            all == file_info.deep_view(),
            body == Seq::new(all.len(), |i: int| file_line((i + 1) as nat, all[i])),
            index <= file_info@.len(),
            lines.deep_view() == seq![title@] + body.take(index as int),
        decreases file_info.len() - index,
    {
        let info = &file_info[index];
        let ghost before = lines.deep_view();
        let mut line = "  ".to_owned();
        let number = decimal_text(index as u64 + 1);
        line.append(number.as_str());
        line.append(". ");
        let name = progress_name(&info.file);
        line.append(name.as_str());
        line.append(" (");
        let rows = describe_row_count(info.row_count);
        line.append(rows.as_str());
        line.append(" rows, ");
        let columns = describe_column_range(info.min_columns, info.max_columns);
        line.append(columns.as_str());
        line.append(")");
        assert(line@ =~= body[index as int]);
        lines.push(line);
        assert(lines.deep_view() =~= before.push(body[index as int]));
        assert(body.take(index + 1) =~= body.take(index as int).push(body[index as int]));
        assert(lines.deep_view() =~= seq![title@] + body.take(index + 1));
        index += 1;
    }
    assert(body.take(index as int) =~= body);
    lines
}

/// The line of one directory and its inspected files.
pub open spec fn folder_line(run: Seq<InfoModel>) -> Seq<char> {
    "  "@ + run[0].file.folder + ": "@ + decimal(run.len()) + " file"@ + plural_text(run.len())
        + ", "@ + total_text(total_rows(run))
}

/// The lines of a list of directories and their inspected files.
pub open spec fn folder_summary(title: Seq<char>, infos: Seq<InfoModel>) -> Seq<Seq<char>> {
    if infos.len() == 0 {
        seq![title + " none"@]
    } else {
        seq![title] + runs(infos, info_folder()).map_values(
            |run: Seq<InfoModel>| folder_line(run),
        )
    }
}

/// The rows of every run can be added up.
pub open spec fn runs_fit(groups: Seq<Seq<InfoModel>>) -> bool {
    forall|i: int| 0 <= i < groups.len() ==> rows_fit(#[trigger] groups[i])
}

/// The line of one directory and its inspected files.
fn folder_line_text(run: &[FileInfo]) -> (line: String)
    requires
        run@.len() > 0,
        rows_fit(run.deep_view()),
    ensures
        line@ == folder_line(run.deep_view()),
{
    assert(run@.len() == run.len());
    let mut line = "  ".to_owned();
    line.append(run[0].file.folder.as_str());
    line.append(": ");
    let count = decimal_text(run.len() as u64);
    line.append(count.as_str());
    line.append(" file");
    line.append(plural(run.len()));
    line.append(", ");
    let total = describe_total_rows(sum_counted_rows(run));
    line.append(total.as_str());
    line
}

/// The lines of a list of directories and their inspected files.
pub fn folder_summary_lines(title: &str, file_info: &[FileInfo]) -> (lines: Vec<String>)
    requires
        runs_fit(runs(file_info.deep_view(), info_folder())),
    ensures
        lines.deep_view() == folder_summary(title@, file_info.deep_view()),
{
    if file_info.len() == 0 {
        return empty_list(title);
    }
    let ghost all = file_info.deep_view();
    let groups = group_file_info(copied(file_info));
    let ghost body = runs(all, info_folder()).map_values(|run: Seq<InfoModel>| folder_line(run));
    proof {
        law_runs_cut_where_the_key_changes(all, info_folder());
    }
    let mut lines: Vec<String> = Vec::new();
    lines.push(title.to_owned());
    let mut index: usize = 0;
    assert(lines.deep_view() =~= seq![title@] + body.take(0));
    while index < groups.len()
        invariant
            groups.deep_view() == runs(all, info_folder()),
            body == runs(all, info_folder()).map_values(
                |run: Seq<InfoModel>| folder_line(run),
            ),
            runs_fit(runs(all, info_folder())),
            forall|i: int|
                0 <= i < runs(all, info_folder()).len() ==> (#[trigger] runs(
                    all,
                    info_folder(),
                )[i]).len() > 0,
            index <= groups@.len(),
            lines.deep_view() == seq![title@] + body.take(index as int),
        decreases groups.len() - index,
    {
        let ghost before = lines.deep_view();
        assert(groups.deep_view()[index as int] == groups@[index as int].deep_view());
        let line = folder_line_text(groups[index].as_slice());
        lines.push(line);
        assert(lines.deep_view() =~= before.push(body[index as int]));
        assert(body.take(index + 1) =~= body.take(index as int).push(body[index as int]));
        assert(lines.deep_view() =~= seq![title@] + body.take(index + 1));
        index += 1;
    }
    assert(body.take(index as int) =~= body);
    lines
}

/// The files of a slice as a vector.
pub(crate) fn copied(file_info: &[FileInfo]) -> (copy: Vec<FileInfo>)
    ensures
        copy.deep_view() == file_info.deep_view(),
{
    let ghost all = file_info.deep_view();
    let mut copy: Vec<FileInfo> = Vec::new();
    let mut index: usize = 0;
    while index < file_info.len()
        invariant
            all == file_info.deep_view(),
            index <= file_info@.len(),
            copy.deep_view() == all.take(index as int),
        decreases file_info.len() - index,
    {
        let ghost before = copy.deep_view();
        copy.push(file_info[index].clone());
        assert(copy.deep_view() =~= before.push(all[index as int]));
        assert(all.take(index + 1) =~= all.take(index as int).push(all[index as int]));
        index += 1;
    }
    assert(all.take(index as int) =~= all);
    copy
}

/// The line of one directory and its files.
pub open spec fn input_folder_line(run: Seq<InputModel>) -> Seq<char> {
    "  "@ + run[0].folder + ": "@ + decimal(run.len()) + " file"@ + plural_text(run.len())
}

/// The lines of a list of directories and their files.
pub open spec fn input_folder_summary(title: Seq<char>, groups: Seq<Seq<InputModel>>) -> Seq<
    Seq<char>,
> {
    if groups.len() == 0 {
        seq![title + " none"@]
    } else {
        seq!["\n"@ + title] + groups.map_values(|run: Seq<InputModel>| input_folder_line(run))
    }
}

/// The lines of a list of directories and their files.
pub fn input_folder_summary_lines(title: &str, groups: &[&[InputFile]]) -> (lines: Vec<String>)
    requires
        forall|i: int| 0 <= i < groups@.len() ==> (#[trigger] groups@[i])@.len() > 0,
    ensures
        lines.deep_view() == input_folder_summary(title@, groups.deep_view()),
{
    if groups.len() == 0 {
        return empty_list(title);
    }
    let ghost all = groups.deep_view();
    let ghost body = all.map_values(|run: Seq<InputModel>| input_folder_line(run));
    let mut first = "\n".to_owned();
    first.append(title);
    let ghost heading = first@;
    let mut lines: Vec<String> = Vec::new();
    lines.push(first);
    let mut index: usize = 0;
    assert(lines.deep_view() =~= seq![heading] + body.take(0));
    while index < groups.len()
        invariant
            all == groups.deep_view(),
            body == all.map_values(|run: Seq<InputModel>| input_folder_line(run)),
            forall|i: int| 0 <= i < groups@.len() ==> (#[trigger] groups@[i])@.len() > 0,
            index <= groups@.len(),
            lines.deep_view() == seq![heading] + body.take(index as int),
        decreases groups.len() - index,
    {
        let ghost before = lines.deep_view();
        let group = groups[index];
        assert(groups@[index as int]@.len() > 0);
        assert(group@.len() == group.len());
        assert(all[index as int] == group.deep_view());
        let mut line = "  ".to_owned();
        line.append(group[0].folder.as_str());
        line.append(": ");
        let count = decimal_text(group.len() as u64);
        line.append(count.as_str());
        line.append(" file");
        line.append(plural(group.len()));
        assert(line@ =~= body[index as int]);
        lines.push(line);
        assert(lines.deep_view() =~= before.push(body[index as int]));
        assert(body.take(index + 1) =~= body.take(index as int).push(body[index as int]));
        assert(lines.deep_view() =~= seq![heading] + body.take(index + 1));
        index += 1;
    }
    assert(body.take(index as int) =~= body);
    lines
}

/// A list of files has a title and one line for each file, in their order, with
/// its number, its name, its rows and its columns.
pub proof fn law_a_file_list_tells_every_file(title: Seq<char>, infos: Seq<InfoModel>, index: int)
    requires
        0 <= index < infos.len(),
    ensures
        file_list(title, seq![]) == seq![title + " none"@],
        file_list(title, infos).len() == infos.len() + 1,
        file_list(title, infos)[0] == title,
        file_list(title, infos)[index + 1] == "  "@ + decimal((index + 1) as nat) + ". "@ + (
        match infos[index].file.group.name {
            Some(name) => name,
            None => "?"@,
        }) + "/"@ + (match infos[index].file.path.name {
            Some(name) => name,
            None => "?"@,
        }) + " ("@ + (match infos[index].row_count {
            Some(rows) => grouped(decimal(rows as nat)),
            None => "not counted"@,
        }) + " rows, "@ + (match (infos[index].min_columns, infos[index].max_columns) {
            (Some(least), Some(most)) => if least == most {
                decimal(least as nat) + " columns"@
            } else {
                decimal(least as nat) + "-"@ + decimal(most as nat) + " columns"@
            },
            _ => "no CSV rows"@,
        }) + ")"@,
{
    let info = infos[index];
    assert(file_list(title, infos)[index + 1] =~= file_line((index + 1) as nat, info));
    assert(file_line((index + 1) as nat, info) =~= "  "@ + decimal((index + 1) as nat) + ". "@ + (
    match info.file.group.name {
        Some(name) => name,
        None => "?"@,
    }) + "/"@ + (match info.file.path.name {
        Some(name) => name,
        None => "?"@,
    }) + " ("@ + rows_text(info.row_count) + " rows, "@ + columns_text(
        info.min_columns,
        info.max_columns,
    ) + ")"@);
}

/// A list of directories has a title and one line for each run of files of one
/// directory, with the directory, the number of its files and of their rows.
pub proof fn law_a_folder_list_tells_every_directory(
    title: Seq<char>,
    infos: Seq<InfoModel>,
    index: int,
)
    requires
        0 <= index < runs(infos, info_folder()).len(),
    ensures
        folder_summary(title, seq![]) == seq![title + " none"@],
        infos.len() > 0,
        folder_summary(title, infos).len() == runs(infos, info_folder()).len() + 1,
        folder_summary(title, infos)[0] == title,
        ({
            let run = runs(infos, info_folder())[index];
            folder_summary(title, infos)[index + 1] == "  "@ + run[0].file.folder + ": "@ + decimal(
                run.len(),
            ) + " file"@ + (if run.len() == 1 {
                ""@
            } else {
                "s"@
            }) + ", "@ + (match total_rows(run) {
                Some(rows) => grouped(decimal(rows)) + " counted rows"@,
                None => "rows not counted"@,
            })
        }),
{
    law_runs_cut_where_the_key_changes(infos, info_folder());
}

/// A list of directories that are still to be inspected tells the directory and
/// the number of its files.
pub proof fn law_a_scan_list_tells_every_directory(
    title: Seq<char>,
    groups: Seq<Seq<InputModel>>,
    index: int,
)
    requires
        0 <= index < groups.len(),
    ensures
        input_folder_summary(title, seq![]) == seq![title + " none"@],
        input_folder_summary(title, groups).len() == groups.len() + 1,
        input_folder_summary(title, groups)[0] == "\n"@ + title,
        input_folder_summary(title, groups)[index + 1] == "  "@ + groups[index][0].folder + ": "@
            + decimal(groups[index].len()) + " file"@ + (if groups[index].len() == 1 {
            ""@
        } else {
            "s"@
        }),
{
}

}
