//! What a run decides between one look at the world and the next: where it
//! reads, whether it goes on, which files it converts together and how many at
//! a time.
use vstd::prelude::*;

use crate::collect::{
    collect_all_input_files, collect_input_files, found, is_named_for_its_month, listed, Listing,
};
use crate::files::{
    is_sorted, is_stable_rearrangement, lemma_filter_keeps_none, FileInfo, FsPath, InfoModel,
    InputFile, InputModel,
};
use crate::groups::{
    group_file_info, info_folder, is_no_later, law_runs_cut_where_the_key_changes,
    law_sorted_files_run_by_month, runs,
};
use crate::modes::{AutoInspectMode, InspectionOptions, OutputMode, SelectionMode};
use crate::names::begins_with;
use crate::report::{as_nat, parallel_summary, summary, summary_text};
use crate::select::{
    at_a_time, files_of, is_selected, is_total, law_jobs_are_a_maximum,
    law_selection_is_a_partition, law_selection_keeps_the_order,
    law_the_selection_goes_by_the_inspection, parallel_file_count, rows_fit,
    select_process_files, selected, sum_counted_rows, total_rows,
};
use crate::text::{
    agrees, chars_of, decimal, decimal_text, format_with_commas, grouped, is_confirmation,
    lemma_filter_keeps_all,
};

verus! {

/// The directory that is read where none is named.
pub const DEFAULT_DATA_DIR: &'static str = "../data/BTCUSDT/";

/// The directory that is read, with all below it, where none is named.
pub const DEFAULT_ALL_DATA_DIR: &'static str = "../data/";

/// What a run is asked for.
pub struct Settings {
    /// The prefix of the files' names.
    pub name: String,
    /// The interval in the files' names.
    pub interval: String,
    /// How many leading columns stay.
    pub column: usize,
    /// The windows of the RSI columns.
    pub windows: Vec<usize>,
    /// Whether the state of the columns goes from file to file.
    pub carry: bool,
    /// How many files or directories are worked on at a time, at most.
    pub jobs: usize,
    /// Whether files that were converted before are passed over.
    pub auto: bool,
    /// Whether directories below the one named are read too.
    pub all: bool,
    /// Whether the files are replaced.
    pub overwrite: bool,
    /// Whether the files stay and copies are written.
    pub copy: bool,
}

/// Why a run ends early.
#[derive(Clone, Copy, Debug, PartialEq, Eq, Structural)]
pub enum RunError {
    /// The directory is none.
    NotADirectory,
    /// No window is asked for.
    NoWindow,
    /// A window is zero.
    ZeroWindow,
    /// No file matches.
    NoInputs,
    /// The question was not answered with yes.
    Aborted,
    /// Every file is passed over.
    NothingToProcess,
}

/// The short options that take no value. Others may follow them behind the same
/// dash.
pub open spec fn is_flag(letter: char) -> bool {
    letter == 'r' || letter == 'a' || letter == 'o' || letter == 'C' || letter == 'v'
}

/// An argument that gives the short option `letter`: behind a dash and options
/// without a value, with whatever follows it.
pub open spec fn gives_short(text: Seq<char>, letter: char) -> bool {
    &&& text.len() > 0
    &&& text[0] == '-'
    &&& exists|i: int|
        {
            &&& 1 <= i < text.len()
            &&& #[trigger] text[i] == letter
            &&& forall|k: int| 1 <= k < i ==> is_flag(#[trigger] text[k])
        }
}

/// An argument that names the directory: `--dir`, `--dir=` and a value, or the
/// short `-d`, whose value may be attached to it.
pub open spec fn names_dir(argument: Option<Seq<char>>) -> bool {
    argument matches Some(text) && (gives_short(text, 'd') || text == "--dir"@
        || "--dir="@.is_prefix_of(text))
}

/// An argument that asks for the version: `--version` or the short `-v`.
pub open spec fn asks_for_version(argument: Option<Seq<char>>) -> bool {
    argument matches Some(text) && (gives_short(text, 'v') || text == "--version"@)
}

/// Whether an argument gives the short option `letter`.
fn short_is_given(text: &str, letter: char) -> (result: bool)
    ensures
        result == gives_short(text@, letter),
{
    let characters = chars_of(text);
    if characters.len() == 0 || characters[0] != '-' {
        return false;
    }
    let mut index: usize = 1;
    while index < characters.len()
        invariant
            characters@ == text@,
            characters@.len() > 0,
            characters@[0] == '-',
            1 <= index <= characters@.len(),
            forall|k: int| 1 <= k < index ==> is_flag(#[trigger] text@[k]) && text@[k] != letter,
        decreases characters.len() - index,
    {
        let character = characters[index];
        assert(text@[index as int] == character);
        if character == letter {
            return true;
        }
        if character != 'r' && character != 'a' && character != 'o' && character != 'C' && character
            != 'v' {
            assert(!is_flag(text@[index as int]));
            return false;
        }
        index += 1;
    }
    false
}

/// Whether one of the arguments behind the program's name names the directory.
/// An argument that is not text is `None`.
pub fn dir_arg_was_provided(arguments: &[Option<String>]) -> (result: bool)
    ensures
        result == exists|i: int|
            1 <= i < arguments@.len() && names_dir(#[trigger] arguments.deep_view()[i]),
{
    let ghost all = arguments.deep_view();
    let start = chars_of("--dir=");
    let mut index: usize = 1;
    while index < arguments.len()
        invariant
            all == arguments.deep_view(),
            start@ == "--dir="@,
            1 <= index,
            forall|i: int| 1 <= i < index && i < all.len() ==> !names_dir(#[trigger] all[i]),
        decreases arguments.len() - index,
    {
        assert(all[index as int] == arguments@[index as int].deep_view());
        match &arguments[index] {
            Some(text) => {
                let characters = chars_of(text.as_str());
                if short_is_given(text.as_str(), 'd') || *text == "--dir".to_owned() || begins_with(
                    characters.as_slice(),
                    start.as_slice(),
                ) {
                    assert(names_dir(all[index as int]));
                    return true;
                }
            },
            None => {},
        }
        assert(!names_dir(all[index as int]));
        index += 1;
    }
    false
}

/// Whether one of the arguments behind the program's name asks for the version.
pub fn version_was_requested(arguments: &[Option<String>]) -> (result: bool)
    ensures
        result == exists|i: int|
            1 <= i < arguments@.len() && asks_for_version(#[trigger] arguments.deep_view()[i]),
{
    let ghost all = arguments.deep_view();
    let mut index: usize = 1;
    while index < arguments.len()
        invariant
            all == arguments.deep_view(),
            1 <= index,
            forall|i: int| 1 <= i < index && i < all.len() ==> !asks_for_version(#[trigger] all[i]),
        decreases arguments.len() - index,
    {
        assert(all[index as int] == arguments@[index as int].deep_view());
        match &arguments[index] {
            Some(text) => {
                if short_is_given(text.as_str(), 'v') || *text == "--version".to_owned() {
                    assert(asks_for_version(all[index as int]));
                    return true;
                }
            },
            None => {},
        }
        assert(!asks_for_version(all[index as int]));
        index += 1;
    }
    false
}

/// The components of [`DEFAULT_DATA_DIR`]: two dots, `data` and `BTCUSDT`.
pub open spec fn default_parts() -> Seq<Seq<u8>> {
    seq![seq![46u8, 46], seq![100u8, 97, 116, 97], seq![66u8, 84, 67, 85, 83, 68, 84]]
}

/// Whether [`DEFAULT_ALL_DATA_DIR`] is read in place of `dir`: where all
/// directories are asked for and `dir` is the default that nobody named.
pub fn reads_all_data(all: bool, dir_was_provided: bool, dir: &FsPath) -> (result: bool)
    ensures
        result == (all && !dir_was_provided && dir.deep_view().parts == default_parts()),
        result == (all && !dir_was_provided && dir.deep_view().parts == seq![
            seq![46u8, 46],
            seq![100u8, 97, 116, 97],
            seq![66u8, 84, 67, 85, 83, 68, 84],
        ]),
{
    if !all || dir_was_provided {
        return false;
    }
    let default = FsPath {
        parts: vec![vec![46u8, 46], vec![100u8, 97, 116, 97], vec![66u8, 84, 67, 85, 83, 68, 84]],
        name: None,
        stem: None,
    };
    assert(default.parts@[0].deep_view() =~= default_parts()[0]);
    assert(default.parts@[1].deep_view() =~= default_parts()[1]);
    assert(default.parts@[2].deep_view() =~= default_parts()[2]);
    assert(default.deep_view().parts =~= default_parts());
    dir.same(&default)
}

/// What is wrong with the windows, if anything is.
pub open spec fn window_error(windows: Seq<usize>) -> Option<RunError> {
    if windows.len() == 0 {
        Some(RunError::NoWindow)
    } else if windows.contains(0) {
        Some(RunError::ZeroWindow)
    } else {
        None
    }
}

/// Whether there is a window and none is zero.
pub fn validate_windows(windows: &[usize]) -> (result: Result<(), RunError>)
    ensures
        match window_error(windows@) {
            Some(error) => result == Err::<(), RunError>(error),
            None => result is Ok,
        },
        result is Ok <==> windows@.len() > 0 && forall|i: int|
            0 <= i < windows@.len() ==> #[trigger] windows@[i] > 0,
        result == Err::<(), RunError>(RunError::NoWindow) <==> windows@.len() == 0,
        result == Err::<(), RunError>(RunError::ZeroWindow) <==> exists|i: int|
            0 <= i < windows@.len() && #[trigger] windows@[i] == 0,
{
    if windows.len() == 0 {
        return Err(RunError::NoWindow);
    }
    let mut index: usize = 0;
    while index < windows.len()
        invariant
            index <= windows@.len(),
            windows@.len() > 0,
            forall|i: int| 0 <= i < index ==> #[trigger] windows@[i] != 0,
        decreases windows.len() - index,
    {
        if windows[index] == 0 {
            assert(windows@.contains(0)) by {
                assert(windows@[index as int] == 0);
            }
            return Err(RunError::ZeroWindow);
        }
        index += 1;
    }
    Ok(())
}

impl Settings {
    /// Whether the run can start, in a directory or in what is none.
    pub fn check_start(&self, is_directory: bool) -> (result: Result<(), RunError>)
        ensures
            match result {
                Ok(()) => is_directory && window_error(self.windows@) is None,
                Err(error) => if is_directory {
                    window_error(self.windows@) == Some(error)
                } else {
                    error == RunError::NotADirectory
                },
            },
            result is Ok <==> is_directory && self.windows@.len() > 0 && forall|i: int|
                0 <= i < self.windows@.len() ==> #[trigger] self.windows@[i] > 0,
            !is_directory ==> result == Err::<(), RunError>(RunError::NotADirectory),
            is_directory && self.windows@.len() == 0 ==> result == Err::<(), RunError>(
                RunError::NoWindow,
            ),
            is_directory && (exists|i: int|
                0 <= i < self.windows@.len() && #[trigger] self.windows@[i] == 0) ==> result
                == Err::<(), RunError>(RunError::ZeroWindow),
    {
        if !is_directory {
            return Err(RunError::NotADirectory);
        }
        validate_windows(self.windows.as_slice())
    }

    /// The input files of the run before they are put in order.
    pub open spec fn inputs(&self, listing: Listing) -> Seq<InputModel> {
        if self.all {
            found(listing, self.interval@)
        } else {
            listed(listing.entries@, listing, self.name@, self.interval@)
        }
    }

    /// The prefix that the names of a directory's files begin with.
    pub open spec fn prefix(&self, file: InputModel) -> Option<Seq<char>> {
        if self.all {
            file.group.name
        } else {
            Some(self.name@)
        }
    }

    /// The input files of the run, in order.
    pub fn find_inputs(&self, listing: &Listing) -> (result: Result<Vec<InputFile>, RunError>)
        ensures
            match result {
                Ok(files) => {
                    &&& files@.len() > 0
                    &&& is_sorted(files.deep_view())
                    &&& is_stable_rearrangement(self.inputs(*listing), files.deep_view())
                    &&& forall|i: int|
                        0 <= i < files@.len() ==> is_named_for_its_month(
                            #[trigger] files.deep_view()[i],
                            self.prefix(files.deep_view()[i]),
                            self.interval@,
                        )
                    &&& self.all ==> is_stable_rearrangement(
                        found(*listing, self.interval@),
                        files.deep_view(),
                    )
                    &&& !self.all ==> is_stable_rearrangement(
                        listed(listing.entries@, *listing, self.name@, self.interval@),
                        files.deep_view(),
                    )
                },
                Err(error) => {
                    &&& error == RunError::NoInputs
                    &&& self.inputs(*listing).len() == 0
                    &&& self.all ==> found(*listing, self.interval@).len() == 0
                    &&& !self.all ==> listed(
                        listing.entries@,
                        *listing,
                        self.name@,
                        self.interval@,
                    ).len() == 0
                },
            },
    {
        let files = if self.all {
            collect_all_input_files(listing, self.interval.as_str())
        } else {
            collect_input_files(listing, self.name.as_str(), self.interval.as_str())
        };
        if files.len() == 0 {
            proof {
                files.deep_view().to_multiset_ensures();
                self.inputs(*listing).to_multiset_ensures();
            }
            return Err(RunError::NoInputs);
        }
        Ok(files)
    }

    /// The choices that concern the inspection of files. `confirmation_is_off`
    /// tells that the question is switched off from outside.
    pub open spec fn options(&self, confirmation_is_off: bool) -> InspectionOptions {
        InspectionOptions {
            mode: if self.copy {
                OutputMode::Copy
            } else {
                OutputMode::Overwrite
            },
            selection_mode: self.selection_mode(),
            auto_inspect_mode: if self.carry {
                AutoInspectMode::FirstRow
            } else {
                AutoInspectMode::LastRow
            },
            expected_columns: self.column,
            rsi_column_count: self.windows@.len() as usize,
            jobs: self.jobs,
            skip_confirmation: self.auto || confirmation_is_off,
        }
    }

    /// Which files are converted.
    pub open spec fn selection_mode(&self) -> SelectionMode {
        if self.auto {
            SelectionMode::Auto
        } else {
            SelectionMode::All
        }
    }

    /// The choices that concern the inspection of files.
    pub fn inspection_options(&self, confirmation_is_off: bool) -> (options: InspectionOptions)
        ensures
            options == self.options(confirmation_is_off),
            options.rsi_column_count == self.windows@.len(),
            options.mode == OutputMode::Copy <==> self.copy,
            options.selection_mode == SelectionMode::Auto <==> self.auto,
            options.auto_inspect_mode == AutoInspectMode::FirstRow <==> self.carry,
            options.expected_columns == self.column,
            options.jobs == self.jobs,
            options.skip_confirmation == (self.auto || confirmation_is_off),
    {
        InspectionOptions {
            mode: match (self.overwrite, self.copy) {
                (_, true) => OutputMode::Copy,
                _ => OutputMode::Overwrite,
            },
            selection_mode: if self.auto {
                SelectionMode::Auto
            } else {
                SelectionMode::All
            },
            auto_inspect_mode: if self.carry {
                AutoInspectMode::FirstRow
            } else {
                AutoInspectMode::LastRow
            },
            expected_columns: self.column,
            rsi_column_count: self.windows.len(),
            jobs: self.jobs,
            skip_confirmation: self.auto || confirmation_is_off,
        }
    }
}

/// What is told of an early end. `dir` is the directory as it is shown.
pub open spec fn error_text(error: RunError, settings: Settings, dir: Seq<char>) -> Seq<char> {
    match error {
        RunError::NotADirectory => dir + " is not a directory"@,
        RunError::NoWindow => "at least one RSI window is required"@,
        RunError::ZeroWindow => "RSI windows must be greater than zero"@,
        RunError::NoInputs => if settings.all {
            "no matching CSV files found recursively in "@ + dir
                + " using parent-directory prefixes and interval "@ + settings.interval@
        } else {
            "no matching CSV files found in "@ + dir + " for prefix "@ + settings.name@ + "-"@
                + settings.interval@
        },
        RunError::Aborted => "aborted by user"@,
        RunError::NothingToProcess => "no files eligible for processing with --auto and --column "@
            + decimal(settings.column as nat)
            + "; use --all to process every matching file"@,
    }
}

impl RunError {
    /// What is told of an early end. `dir` is the directory as it is shown.
    pub fn message(&self, settings: &Settings, dir: &str) -> (text: String)
        ensures
            text@ == error_text(*self, *settings, dir@),
            *self == RunError::NotADirectory ==> text@ == dir@ + " is not a directory"@,
            *self == RunError::NoWindow ==> text@ == "at least one RSI window is required"@,
            *self == RunError::ZeroWindow ==> text@ == "RSI windows must be greater than zero"@,
            *self == RunError::NoInputs && settings.all ==> text@
                == "no matching CSV files found recursively in "@ + dir@
                + " using parent-directory prefixes and interval "@ + settings.interval@,
            *self == RunError::NoInputs && !settings.all ==> text@
                == "no matching CSV files found in "@ + dir@ + " for prefix "@ + settings.name@
                + "-"@ + settings.interval@,
            *self == RunError::Aborted ==> text@ == "aborted by user"@,
            *self == RunError::NothingToProcess ==> text@
                == "no files eligible for processing with --auto and --column "@ + decimal(
                settings.column as nat,
            ) + "; use --all to process every matching file"@,
    {
        match self {
            RunError::NotADirectory => {
                let mut text = dir.to_owned();
                text.append(" is not a directory");
                text
            },
            RunError::NoWindow => "at least one RSI window is required".to_owned(),
            RunError::ZeroWindow => "RSI windows must be greater than zero".to_owned(),
            RunError::NoInputs => if settings.all {
                let mut text = "no matching CSV files found recursively in ".to_owned();
                text.append(dir);
                text.append(" using parent-directory prefixes and interval ");
                text.append(settings.interval.as_str());
                text
            } else {
                let mut text = "no matching CSV files found in ".to_owned();
                text.append(dir);
                text.append(" for prefix ");
                text.append(settings.name.as_str());
                text.append("-");
                text.append(settings.interval.as_str());
                text
            },
            RunError::Aborted => "aborted by user".to_owned(),
            RunError::NothingToProcess => {
                let mut text =
                    "no files eligible for processing with --auto and --column ".to_owned();
                let columns = decimal_text(settings.column as u64);
                text.append(columns.as_str());
                text.append("; use --all to process every matching file");
                text
            },
        }
    }
}

/// That files may be written. It comes from [`confirm`] alone.
pub struct Consent {
    given: (),
}

/// Whether files may be written: where no question is asked, or where the
/// answer agrees. `answer` is `None` where there was no question.
pub open spec fn is_agreed(options: InspectionOptions, answer: Option<Seq<char>>) -> bool {
    options.skip_confirmation || (answer matches Some(text) && agrees(text))
}

/// Takes the answer to the question whether files may be written.
pub fn confirm(options: InspectionOptions, answer: Option<&str>) -> (result: Result<
    Consent,
    RunError,
>)
    ensures
        result is Ok <==> is_agreed(
            options,
            match answer {
                Some(text) => Some(text@),
                None => None,
            },
        ),
        result matches Err(error) ==> error == RunError::Aborted,
        options.skip_confirmation ==> result is Ok,
        !options.skip_confirmation && answer is None ==> result is Err,
        !options.skip_confirmation ==> (answer matches Some(text) ==> (result is Ok <==> agrees(
            text@,
        ))),
{
    if options.skip_confirmation {
        return Ok(Consent { given: () });
    }
    match answer {
        Some(text) => if is_confirmation(text) {
            Ok(Consent { given: () })
        } else {
            Err(RunError::Aborted)
        },
        None => Err(RunError::Aborted),
    }
}

/// The work of a run.
pub struct Plan {
    /// Files whose rows follow each other, group by group.
    pub groups: Vec<Vec<FileInfo>>,
    /// How many groups are worked on at a time.
    pub parallel: usize,
    /// What a group is called.
    pub unit: &'static str,
    /// The number of rows of all files, where every file's rows were counted.
    pub total_rows: Option<usize>,
    /// What is shown before work starts.
    pub banner: Vec<String>,
}

/// The groups: with carryover the files of a directory, without it every file
/// alone.
pub open spec fn planned_groups(process: Seq<InfoModel>, carry: bool) -> Seq<Seq<InfoModel>> {
    if carry {
        runs(process, info_folder())
    } else {
        Seq::new(process.len(), |i: int| seq![process[i]])
    }
}

/// What is shown before work starts.
pub open spec fn banner_lines(parallel: nat, carry: bool, auto: bool) -> Seq<Seq<char>> {
    if carry {
        let first = "\nCarryover mode: processing "@ + summary_text(parallel, "group"@)
            + " in parallel; RSI state resets for each parent-directory group."@;
        if auto {
            seq![first, "Carryover mode: skipped --auto files are not scanned."@]
        } else {
            seq![first]
        }
    } else {
        seq![
            "\nNo-carry mode: processing "@ + summary_text(parallel, "file"@) + " in parallel."@,
        ]
    }
}

/// The files that the run converts.
pub open spec fn processed(settings: Settings, infos: Seq<InfoModel>) -> Seq<InfoModel> {
    selected(infos, settings.selection_mode(), settings.column as nat)
}

/// `plan` is the work on the files `process`.
pub open spec fn is_plan(plan: Plan, settings: Settings, process: Seq<InfoModel>) -> bool {
    &&& plan.groups.deep_view() == planned_groups(process, settings.carry)
    &&& plan.parallel == at_a_time(plan.groups@.len(), settings.jobs as nat)
    &&& plan.unit@ == if settings.carry {
        "folder"@
    } else {
        "file"@
    }
    &&& is_total(plan.total_rows, process)
    &&& plan.banner.deep_view() == banner_lines(
        plan.parallel as nat,
        settings.carry,
        settings.auto,
    )
}

/// Every file alone.
fn alone(files: Vec<FileInfo>) -> (groups: Vec<Vec<FileInfo>>)
    ensures
        groups.deep_view() == planned_groups(files.deep_view(), false),
{
    let ghost all = files.deep_view();
    let ghost parts = planned_groups(all, false);
    let mut groups: Vec<Vec<FileInfo>> = Vec::new();
    for info in iter: files.into_iter()
        invariant
            iter.seq() == files@,
            all == files.deep_view(),
            parts == planned_groups(all, false),
            groups.deep_view() == parts.take(iter.index()),
    {
        let ghost before = groups.deep_view();
        assert(all[iter.index()] == info.deep_view());
        let mut group: Vec<FileInfo> = Vec::new();
        group.push(info);
        assert(group.deep_view() =~= parts[iter.index()]);
        groups.push(group);
        assert(groups.deep_view() =~= before.push(parts[iter.index()]));
        assert(parts.take(iter.index() + 1) =~= parts.take(iter.index()).push(
            parts[iter.index()],
        ));
    }
    assert(parts.take(parts.len() as int) =~= parts);
    groups
}

impl Settings {
    /// The work on the inspected files, once it may be done.
    pub fn plan(&self, consent: Consent, file_info: &[FileInfo]) -> (result: Result<Plan, RunError>)
        requires
            rows_fit(processed(*self, file_info.deep_view())),
        ensures
            match result {
                Ok(plan) => {
                    &&& processed(*self, file_info.deep_view()).len() > 0
                    &&& is_plan(plan, *self, processed(*self, file_info.deep_view()))
                },
                Err(error) => {
                    &&& error == RunError::NothingToProcess
                    &&& processed(*self, file_info.deep_view()).len() == 0
                },
            },
    {
        let Consent { given: () } = consent;
        let selection_mode = if self.auto {
            SelectionMode::Auto
        } else {
            SelectionMode::All
        };
        let files = select_process_files(file_info, selection_mode, self.column);
        if files.len() == 0 {
            return Err(RunError::NothingToProcess);
        }
        let total = sum_counted_rows(files.as_slice());
        let mut banner: Vec<String> = Vec::new();
        if self.carry {
            let groups = group_file_info(files);
            let parallel = parallel_file_count(groups.len(), self.jobs);
            let mut line = "\nCarryover mode: processing ".to_owned();
            let together = summary(parallel, "group");
            line.append(together.as_str());
            line.append(" in parallel; RSI state resets for each parent-directory group.");
            banner.push(line);
            if self.auto {
                banner.push("Carryover mode: skipped --auto files are not scanned.".to_owned());
            }
            assert(banner.deep_view() =~= banner_lines(parallel as nat, true, self.auto));
            Ok(Plan { groups, parallel, unit: "folder", total_rows: total, banner })
        } else {
            let groups = alone(files);
            let parallel = parallel_file_count(groups.len(), self.jobs);
            let mut line = "\nNo-carry mode: processing ".to_owned();
            let together = parallel_summary(parallel);
            line.append(together.as_str());
            line.append(" in parallel.");
            banner.push(line);
            assert(banner.deep_view() =~= banner_lines(parallel as nat, false, self.auto));
            Ok(Plan { groups, parallel, unit: "file", total_rows: total, banner })
        }
    }
}

/// What is shown at the end.
pub open spec fn done_text(rows: Option<nat>) -> Seq<char> {
    match rows {
        Some(count) => "Progress: 100.00% ("@ + grouped(decimal(count)) + "/"@ + grouped(
            decimal(count),
        ) + ")"@,
        None => "Progress: completed (rows not counted)."@,
    }
}

impl Plan {
    /// What is shown at the end.
    pub fn done_line(&self) -> (line: String)
        ensures
            line@ == done_text(as_nat(self.total_rows)),
            self.total_rows matches Some(count) ==> line@ == "Progress: 100.00% ("@ + grouped(
                decimal(count as nat),
            ) + "/"@ + grouped(decimal(count as nat)) + ")"@,
            self.total_rows is None ==> line@ == "Progress: completed (rows not counted)."@,
    {
        match self.total_rows {
            Some(count) => {
                let shown = format_with_commas(count);
                let mut line = "Progress: 100.00% (".to_owned();
                line.append(shown.as_str());
                line.append("/");
                line.append(shown.as_str());
                line.append(")");
                line
            },
            None => "Progress: completed (rows not counted).".to_owned(),
        }
    }
}

/// Every file that is converted stands in one group, once, and no group is
/// empty: the groups one after the other are the files.
pub proof fn law_a_plan_loses_no_file(process: Seq<InfoModel>, carry: bool)
    ensures
        planned_groups(process, carry).flatten() == process,
        forall|i: int|
            0 <= i < planned_groups(process, carry).len() ==> (#[trigger] planned_groups(
                process,
                carry,
            )[i]).len() > 0,
{
    if carry {
        law_runs_cut_where_the_key_changes(process, info_folder());
    } else {
        lemma_singles_flatten(process);
    }
}

proof fn lemma_singles_flatten(process: Seq<InfoModel>)
    ensures
        planned_groups(process, false).flatten() == process,
    decreases process.len(),
{
    let groups = planned_groups(process, false);
    if process.len() == 0 {
        assert(groups.flatten() =~= process);
    } else {
        let front = process.drop_last();
        lemma_singles_flatten(front);
        assert(groups =~= planned_groups(front, false).push(seq![process.last()]));
        planned_groups(front, false).lemma_flatten_push(seq![process.last()]);
        assert(groups.flatten() =~= process);
    }
}

/// Without carryover every file is a group of its own, so that no file's rows
/// reach another's cells.
pub proof fn law_no_carry_keeps_files_apart(process: Seq<InfoModel>)
    ensures
        planned_groups(process, false).len() == process.len(),
        forall|i: int|
            0 <= i < process.len() ==> #[trigger] planned_groups(process, false)[i]
                == seq![process[i]],
{
}

/// With carryover, files that were found in order are grouped by directory,
/// one group for each directory, and a group's months follow each other in
/// time, whichever files are passed over.
pub proof fn law_carryover_follows_the_months(settings: Settings, infos: Seq<InfoModel>)
    requires
        is_sorted(files_of(infos)),
    ensures
        ({
            let groups = planned_groups(processed(settings, infos), true);
            &&& forall|i: int, j: int|
                0 <= i < groups.len() && 0 <= j < groups[i].len() ==> (
                #[trigger] groups[i][j]).file.group.parts == groups[i][0].file.group.parts
            &&& forall|i: int, j: int|
                0 <= i < j < groups.len() ==> (#[trigger] groups[i])[0].file.group.parts != (
                #[trigger] groups[j])[0].file.group.parts
            &&& forall|i: int, j: int, k: int|
                0 <= i < groups.len() && 0 <= j < k < groups[i].len() ==> is_no_later(
                    (#[trigger] groups[i][j]).file,
                    (#[trigger] groups[i][k]).file,
                )
        }),
{
    let mode = settings.selection_mode();
    let process = processed(settings, infos);
    let groups = planned_groups(process, true);
    let key = info_folder();
    let file = |info: InfoModel| info.file;
    law_selection_keeps_the_order(infos, mode, settings.column as nat);
    assert(process.map_values(file) =~= files_of(process));
    law_runs_cut_where_the_key_changes(process, key);
    law_sorted_files_run_by_month(process, file, key);
    assert forall|i: int, j: int| 0 <= i < groups.len() && 0 <= j < groups[i].len() implies (
    #[trigger] groups[i][j]).file.group.parts == groups[i][0].file.group.parts by {
        assert(key(groups[i][j]) == key(groups[i][0]));
    }
    assert forall|i: int, j: int| 0 <= i < j < groups.len() implies (
    #[trigger] groups[i])[0].file.group.parts != (#[trigger] groups[j])[0].file.group.parts by {
        assert(key(groups[i][0]) != key(groups[j][0]));
    }
    assert forall|i: int, j: int, k: int|
        0 <= i < groups.len() && 0 <= j < k < groups[i].len() implies is_no_later(
        (#[trigger] groups[i][j]).file,
        (#[trigger] groups[i][k]).file,
    ) by {
        assert(is_no_later(file(groups[i][j]), file(groups[i][k])));
    }
}

/// Nothing is written unasked: unless files are passed over automatically or
/// the question is switched off, there has to be an answer, and it has to agree.
pub proof fn law_writing_is_asked_for(
    settings: Settings,
    confirmation_is_off: bool,
    answer: Option<Seq<char>>,
)
    ensures
        is_agreed(settings.options(confirmation_is_off), answer) <==> settings.auto
            || confirmation_is_off || (answer matches Some(text) && agrees(text)),
{
}

/// Where the items that are kept are those of one part, they are that part.
proof fn lemma_filter_picks_a_part<T>(parts: Seq<Seq<T>>, keep: spec_fn(T) -> bool, index: int)
    requires
        forall|i: int, j: int|
            0 <= i < parts.len() && 0 <= j < parts[i].len() ==> (keep(#[trigger] parts[i][j]) <==> i
                == index),
    ensures
        parts.flatten().filter(keep) == if 0 <= index < parts.len() {
            parts[index]
        } else {
            seq![]
        },
    decreases parts.len(),
{
    if parts.len() == 0 {
        reveal(Seq::filter);
        assert(parts.flatten() =~= seq![]);
    } else {
        let front = parts.drop_last();
        let last = parts.last();
        assert forall|i: int, j: int| 0 <= i < front.len() && 0 <= j < front[i].len() implies (keep(
            #[trigger] front[i][j],
        ) <==> i == index) by {
            assert(front[i] == parts[i]);
            assert(keep(parts[i][j]) <==> i == index);
        }
        lemma_filter_picks_a_part(front, keep, index);
        front.lemma_flatten_push(last);
        assert(front.push(last) =~= parts);
        Seq::filter_distributes_over_add(front.flatten(), last, keep);
        let end = parts.len() - 1;
        if index == end {
            assert forall|j: int| 0 <= j < last.len() implies keep(#[trigger] last[j]) by {
                assert(keep(parts[end][j]));
            }
            lemma_filter_keeps_all(last, keep);
            assert(seq![] + last =~= last);
        } else {
            assert forall|j: int| 0 <= j < last.len() implies !keep(#[trigger] last[j]) by {
                assert(!keep(parts[end][j]));
            }
            lemma_filter_keeps_none(last, keep);
            assert(front.flatten().filter(keep) + seq![] =~= front.flatten().filter(keep));
        }
    }
}

/// With carryover a group is a directory: all the files of that directory that
/// are converted, and no other file.
pub proof fn law_a_carry_group_is_a_directory(
    settings: Settings,
    infos: Seq<InfoModel>,
    index: int,
)
    requires
        is_sorted(files_of(infos)),
        0 <= index < planned_groups(processed(settings, infos), true).len(),
    ensures
        ({
            let process = processed(settings, infos);
            let group = planned_groups(process, true)[index];
            group == process.filter(
                |info: InfoModel| info.file.group.parts == group[0].file.group.parts,
            )
        }),
{
    let process = processed(settings, infos);
    let groups = planned_groups(process, true);
    let group = groups[index];
    let keep = |info: InfoModel| info.file.group.parts == group[0].file.group.parts;
    law_carryover_follows_the_months(settings, infos);
    law_a_plan_loses_no_file(process, true);
    assert forall|i: int, j: int| 0 <= i < groups.len() && 0 <= j < groups[i].len() implies (keep(
        #[trigger] groups[i][j],
    ) <==> i == index) by {
        assert(groups[i][j].file.group.parts == groups[i][0].file.group.parts);
        if i != index {
            assert(groups[i][0].file.group.parts != groups[index][0].file.group.parts);
        }
    }
    lemma_filter_picks_a_part(groups, keep, index);
}

/// The number of jobs changes how many groups are worked on at a time and
/// nothing of the work.
pub proof fn law_jobs_do_not_change_the_work(
    settings: Settings,
    other: Settings,
    infos: Seq<InfoModel>,
    plan: Plan,
    other_plan: Plan,
)
    requires
        other.auto == settings.auto,
        other.carry == settings.carry,
        other.column == settings.column,
        is_plan(plan, settings, processed(settings, infos)),
        is_plan(other_plan, other, processed(other, infos)),
    ensures
        processed(other, infos) == processed(settings, infos),
        other_plan.groups.deep_view() == plan.groups.deep_view(),
        other_plan.unit@ == plan.unit@,
        other_plan.total_rows == plan.total_rows,
{
}

/// Runs of files are cut by the files alone, whatever was found out of them.
proof fn lemma_runs_follow_the_files(infos: Seq<InfoModel>, other: Seq<InfoModel>)
    requires
        files_of(infos) == files_of(other),
    ensures
        runs(infos, info_folder()).len() == runs(other, info_folder()).len(),
        forall|i: int|
            0 <= i < runs(infos, info_folder()).len() ==> files_of(
                #[trigger] runs(infos, info_folder())[i],
            ) == files_of(runs(other, info_folder())[i]),
    decreases infos.len(),
{
    assert(files_of(infos).len() == infos.len());
    assert(files_of(other).len() == other.len());
    if infos.len() > 0 {
        let key = info_folder();
        let front = infos.drop_last();
        let other_front = other.drop_last();
        assert forall|i: int| 0 <= i < front.len() implies #[trigger] files_of(front)[i]
            == files_of(other_front)[i] by {
            assert(files_of(infos)[i] == infos[i].file);
            assert(files_of(other)[i] == other[i].file);
        }
        assert(files_of(front) =~= files_of(other_front));
        lemma_runs_follow_the_files(front, other_front);
        law_runs_cut_where_the_key_changes(front, key);
        law_runs_cut_where_the_key_changes(other_front, key);
        let earlier = runs(front, key);
        let other_earlier = runs(other_front, key);
        assert(files_of(infos)[infos.len() - 1] == files_of(other)[infos.len() - 1]);
        assert(infos.last().file == other.last().file);
        if earlier.len() > 0 {
            let end = earlier.len() - 1;
            assert(files_of(earlier[end]) == files_of(other_earlier[end]));
            assert(earlier[end].len() > 0 && other_earlier[end].len() > 0);
            assert(files_of(earlier[end])[0] == files_of(other_earlier[end])[0]);
            assert(key(earlier.last()[0]) == key(other_earlier.last()[0]));
        }
        let groups = runs(infos, key);
        let other_groups = runs(other, key);
        assert forall|i: int| 0 <= i < groups.len() implies files_of(#[trigger] groups[i])
            == files_of(other_groups[i]) by {
            if i < earlier.len() {
                assert(files_of(earlier[i]) == files_of(other_earlier[i]));
                assert(files_of(earlier[i]).len() == files_of(other_earlier[i]).len());
            }
            assert forall|j: int| 0 <= j < groups[i].len() implies #[trigger] files_of(groups[i])[j]
                == files_of(other_groups[i])[j] by {
                if i < earlier.len() && j < earlier[i].len() {
                    assert(files_of(earlier[i])[j] == files_of(other_earlier[i])[j]);
                }
            }
            assert(files_of(groups[i]) =~= files_of(other_groups[i]));
        }
    }
}

/// Where no file is passed over, the groups depend on the files that were found
/// and on nothing that was found out of them: a second run over the same files
/// has the same groups.
pub proof fn law_the_same_files_are_grouped_alike(
    settings: Settings,
    infos: Seq<InfoModel>,
    again: Seq<InfoModel>,
)
    requires
        !settings.auto,
        files_of(again) == files_of(infos),
    ensures
        processed(settings, infos) == infos,
        processed(settings, again) == again,
        planned_groups(again, settings.carry).len() == planned_groups(infos, settings.carry).len(),
        forall|i: int|
            0 <= i < planned_groups(infos, settings.carry).len() ==> files_of(
                #[trigger] planned_groups(again, settings.carry)[i],
            ) == files_of(planned_groups(infos, settings.carry)[i]),
{
    let keep = |info: InfoModel|
        is_selected(info, settings.selection_mode(), settings.column as nat);
    lemma_filter_keeps_all(infos, keep);
    lemma_filter_keeps_all(again, keep);
    if settings.carry {
        lemma_runs_follow_the_files(again, infos);
    } else {
        assert(files_of(again).len() == again.len());
        assert(files_of(infos).len() == infos.len());
        let groups = planned_groups(infos, false);
        let again_groups = planned_groups(again, false);
        assert forall|i: int| 0 <= i < groups.len() implies files_of(#[trigger] again_groups[i])
            == files_of(groups[i]) by {
            assert(files_of(again)[i] == again[i].file);
            assert(files_of(infos)[i] == infos[i].file);
            assert(files_of(again_groups[i]) =~= files_of(groups[i]));
        }
    }
}

/// What the settings decide, each one a single thing and nothing else: copies
/// are written exactly if they are asked for, files are passed over exactly
/// under the automatic selection, and that goes by the first row exactly with
/// carryover. A question is left out exactly under the automatic selection or
/// where it is switched off.
pub proof fn law_options_follow_the_settings(settings: Settings, confirmation_is_off: bool)
    ensures
        ({
            let options = settings.options(confirmation_is_off);
            &&& options.mode == OutputMode::Copy <==> settings.copy
            &&& options.mode == OutputMode::Overwrite <==> !settings.copy
            &&& options.selection_mode == SelectionMode::Auto <==> settings.auto
            &&& options.selection_mode == SelectionMode::All <==> !settings.auto
            &&& options.auto_inspect_mode == AutoInspectMode::FirstRow <==> settings.carry
            &&& options.auto_inspect_mode == AutoInspectMode::LastRow <==> !settings.carry
            &&& options.expected_columns == settings.column
            &&& options.jobs == settings.jobs
            &&& options.skip_confirmation <==> settings.auto || confirmation_is_off
            &&& settings.selection_mode() == options.selection_mode
            &&& settings.windows@.len() <= usize::MAX ==> options.rsi_column_count
                == settings.windows@.len()
        }),
{
}

/// Where the search goes: through all directories with the names of those as
/// prefixes, or through the one directory with the prefix that is set.
pub proof fn law_the_search_follows_the_settings(
    settings: Settings,
    listing: Listing,
    file: InputModel,
)
    ensures
        settings.all ==> settings.inputs(listing) == found(listing, settings.interval@),
        !settings.all ==> settings.inputs(listing) == listed(
            listing.entries@,
            listing,
            settings.name@,
            settings.interval@,
        ),
        settings.all ==> settings.prefix(file) == file.group.name,
        !settings.all ==> settings.prefix(file) == Some(settings.name@),
{
}

/// A short option is given behind a dash, and may follow short options that take
/// no value; whatever follows it does not matter.
pub proof fn law_a_short_option_may_follow_flags(
    flags: Seq<char>,
    letter: char,
    rest: Seq<char>,
)
    requires
        forall|i: int|
            0 <= i < flags.len() ==> seq!['r', 'a', 'o', 'C', 'v'].contains(#[trigger] flags[i]),
    ensures
        gives_short(seq!['-'] + flags + seq![letter] + rest, letter),
{
    let text = seq!['-'] + flags + seq![letter] + rest;
    let place = 1 + flags.len();
    assert(text[place as int] == letter);
    assert forall|k: int| 1 <= k < place implies is_flag(#[trigger] text[k]) by {
        assert(text[k] == flags[k - 1]);
        assert(seq!['r', 'a', 'o', 'C', 'v'].contains(flags[k - 1]));
    }
}

/// A short option is not given behind one that takes a value, by a text without
/// a dash in front, or where it does not occur.
pub proof fn law_a_value_gives_no_short_option(
    text: Seq<char>,
    letter: char,
    flags: Seq<char>,
    other: char,
    rest: Seq<char>,
)
    requires
        forall|i: int| 0 <= i < flags.len() ==> #[trigger] flags[i] != letter,
        other != letter,
        !seq!['r', 'a', 'o', 'C', 'v'].contains(other),
    ensures
        !gives_short(seq!['-'] + flags + seq![other] + rest, letter),
        text.len() == 0 || text[0] != '-' ==> !gives_short(text, letter),
        (forall|i: int| 1 <= i < text.len() ==> #[trigger] text[i] != letter) ==> !gives_short(
            text,
            letter,
        ),
{
    let given = seq!['-'] + flags + seq![other] + rest;
    let place = (1 + flags.len()) as int;
    assert(given[place] == other);
    let letters = seq!['r', 'a', 'o', 'C', 'v'];
    assert(letters[0] == 'r' && letters[1] == 'a' && letters[2] == 'o' && letters[3] == 'C'
        && letters[4] == 'v');
    assert(!is_flag(other));
    if gives_short(given, letter) {
        let i = choose|i: int|
            {
                &&& 1 <= i < given.len()
                &&& #[trigger] given[i] == letter
                &&& forall|k: int| 1 <= k < i ==> is_flag(#[trigger] given[k])
            };
        if i < place {
            assert(given[i] == flags[i - 1]);
        } else if i > place {
            assert(is_flag(given[place]));
        }
    }
}

/// Which arguments name the directory and which ask for the version.
pub proof fn law_options_are_known_by_their_names(argument: Option<Seq<char>>)
    ensures
        argument is None ==> !names_dir(argument) && !asks_for_version(argument),
        argument matches Some(text) ==> {
            &&& names_dir(argument) <==> {
                ||| text == "--dir"@
                ||| "--dir="@.is_prefix_of(text)
                ||| gives_short(text, 'd')
            }
            &&& asks_for_version(argument) <==> text == "--version"@ || gives_short(text, 'v')
        },
{
}

/// Which files are converted: under the automatic selection those that are still
/// to be converted, else all of them.
pub proof fn law_the_work_follows_the_settings(settings: Settings, infos: Seq<InfoModel>)
    ensures
        settings.auto ==> processed(settings, infos) == selected(
            infos,
            SelectionMode::Auto,
            settings.column as nat,
        ),
        !settings.auto ==> processed(settings, infos) == infos,
{
    law_selection_is_a_partition(infos, SelectionMode::All, settings.column as nat);
}

/// What a plan is, told of what it does: every file that is converted stands in
/// one group. Without carryover a group is one file; with it a group is the files
/// of one directory, no two groups are of the same one, and the months of a
/// group follow each other. No more groups are worked on at a time than there
/// are jobs or groups.
pub proof fn law_a_plan_follows_the_settings(
    plan: Plan,
    settings: Settings,
    infos: Seq<InfoModel>,
)
    requires
        is_plan(plan, settings, processed(settings, infos)),
        is_sorted(files_of(infos)),
    ensures
        plan.groups.deep_view().flatten() == processed(settings, infos),
        !settings.auto ==> processed(settings, infos) == infos,
        settings.auto ==> forall|i: int|
            0 <= i < infos.len() ==> ((#[trigger] infos[i]).auto_processable matches Some(to_do)
                ==> (processed(settings, infos).contains(infos[i]) <==> to_do)),
        !settings.carry ==> plan.groups@.len() == processed(settings, infos).len() && forall|i: int|
            0 <= i < plan.groups@.len() ==> (#[trigger] plan.groups.deep_view()[i]) == seq![
                processed(settings, infos)[i],
            ],
        settings.carry ==> {
            let groups = plan.groups.deep_view();
            &&& forall|i: int, j: int, k: int|
                0 <= i < groups.len() && 0 <= j < k < groups[i].len() ==> {
                    let left = (#[trigger] groups[i][j]).file;
                    let right = (#[trigger] groups[i][k]).file;
                    &&& left.group.parts == right.group.parts
                    &&& left.year < right.year || left.year == right.year && left.month
                        <= right.month
                }
            &&& forall|i: int, j: int|
                0 <= i < j < groups.len() ==> (#[trigger] groups[i])[0].file.group.parts != (
                #[trigger] groups[j])[0].file.group.parts
            &&& forall|i: int| 0 <= i < groups.len() ==> (#[trigger] groups[i]).len() > 0
        },
        plan.parallel >= 1,
        settings.jobs >= 1 ==> plan.parallel <= settings.jobs,
        plan.groups@.len() >= 1 ==> plan.parallel <= plan.groups@.len(),
        1 <= settings.jobs <= plan.groups@.len() ==> plan.parallel == settings.jobs,
        1 <= plan.groups@.len() <= settings.jobs ==> plan.parallel == plan.groups@.len(),
        settings.carry ==> plan.unit@ == "folder"@,
        !settings.carry ==> plan.unit@ == "file"@,
        plan.total_rows is None <==> total_rows(processed(settings, infos)) is None,
        plan.total_rows matches Some(count) ==> total_rows(processed(settings, infos)) == Some(
            count as nat,
        ),
        !settings.carry ==> plan.banner.deep_view() == seq![
            "\nNo-carry mode: processing "@ + summary_text(plan.parallel as nat, "file"@)
                + " in parallel."@,
        ],
        settings.carry ==> plan.banner.deep_view() == seq![
            "\nCarryover mode: processing "@ + summary_text(plan.parallel as nat, "group"@)
                + " in parallel; RSI state resets for each parent-directory group."@,
        ] + if settings.auto {
            seq!["Carryover mode: skipped --auto files are not scanned."@]
        } else {
            seq![]
        },
{
    let process = processed(settings, infos);
    let groups = plan.groups.deep_view();
    law_a_plan_loses_no_file(process, settings.carry);
    law_carryover_follows_the_months(settings, infos);
    law_jobs_are_a_maximum(plan.groups@.len(), settings.jobs as nat);
    assert(groups.len() == plan.groups@.len());
    if !settings.auto {
        law_selection_is_a_partition(infos, SelectionMode::All, settings.column as nat);
    } else {
        assert forall|i: int| 0 <= i < infos.len() implies ((
        #[trigger] infos[i]).auto_processable matches Some(to_do) ==> (process.contains(infos[i])
            <==> to_do)) by {
            law_the_selection_goes_by_the_inspection(infos, settings.column as nat, i);
        }
    }
    if settings.carry {
        assert forall|i: int, j: int, k: int|
            0 <= i < groups.len() && 0 <= j < k < groups[i].len() implies {
            let left = (#[trigger] groups[i][j]).file;
            let right = (#[trigger] groups[i][k]).file;
            &&& left.group.parts == right.group.parts
            &&& left.year < right.year || left.year == right.year && left.month <= right.month
        } by {
            assert(groups[i][j].file.group.parts == groups[i][0].file.group.parts);
            assert(groups[i][k].file.group.parts == groups[i][0].file.group.parts);
            assert(is_no_later(groups[i][j].file, groups[i][k].file));
        }
    }
    assert(seq![
        "\nCarryover mode: processing "@ + summary_text(plan.parallel as nat, "group"@)
            + " in parallel; RSI state resets for each parent-directory group."@,
    ] + seq!["Carryover mode: skipped --auto files are not scanned."@] =~= seq![
        "\nCarryover mode: processing "@ + summary_text(plan.parallel as nat, "group"@)
            + " in parallel; RSI state resets for each parent-directory group."@,
        "Carryover mode: skipped --auto files are not scanned."@,
    ]);
}

}
