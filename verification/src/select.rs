//! Which of the inspected files are converted, and how much work that is.
use vstd::prelude::*;

use crate::files::{
    file_before, is_sorted, lemma_filter_keeps_none, FileInfo, InfoModel, InputFile, InputModel,
};
use crate::inspect::{
    analyze_file, is_completed, is_report, lacks_a_cell, law_a_look_goes_by_its_row,
    law_reports_agree, lemma_completed_or_lacking, row_has_completed_appended_rsi_columns,
    FileStats, InspectError,
};
use crate::modes::{AutoInspectMode, InspectionOptions, SelectionMode};
use crate::table::{csv_records, Record};

verus! {

/// A file that is still to be converted: as the inspection decided, or else
/// one without a row of more than the leading columns.
pub open spec fn is_to_do(info: InfoModel, expected_columns: nat) -> bool {
    match info.auto_processable {
        Some(to_do) => to_do,
        None => match info.max_columns {
            Some(max_columns) => max_columns <= expected_columns,
            None => true,
        },
    }
}

/// A file with a row of more than the leading columns.
pub open spec fn is_wide(info: InfoModel, expected_columns: nat) -> bool {
    info.max_columns matches Some(max_columns) && max_columns > expected_columns
}

/// Whether a file is converted under the selection.
pub open spec fn is_selected(
    info: InfoModel,
    selection_mode: SelectionMode,
    expected_columns: nat,
) -> bool {
    selection_mode == SelectionMode::All || is_to_do(info, expected_columns)
}

/// The files that are converted, in their order.
pub open spec fn selected(
    infos: Seq<InfoModel>,
    selection_mode: SelectionMode,
    expected_columns: nat,
) -> Seq<InfoModel> {
    infos.filter(|info: InfoModel| is_selected(info, selection_mode, expected_columns))
}

/// The files that are passed over, in their order.
pub open spec fn passed_over(
    infos: Seq<InfoModel>,
    selection_mode: SelectionMode,
    expected_columns: nat,
) -> Seq<InfoModel> {
    infos.filter(|info: InfoModel| !is_selected(info, selection_mode, expected_columns))
}

impl FileInfo {
    /// Puts a file together with what its inspection found.
    pub fn new(file: InputFile, stats: FileStats) -> (info: Self)
        ensures
            info.deep_view() == (InfoModel {
                file: file.deep_view(),
                row_count: stats.row_count,
                min_columns: stats.min_columns,
                max_columns: stats.max_columns,
                auto_processable: stats.auto_processable,
            }),
    {
        FileInfo {
            file,
            row_count: stats.row_count,
            min_columns: stats.min_columns,
            max_columns: stats.max_columns,
            auto_processable: stats.auto_processable,
        }
    }

    /// Whether the file is still to be converted.
    pub fn is_auto_processable(&self, expected_columns: usize) -> (result: bool)
        ensures
            result == is_to_do(self.deep_view(), expected_columns as nat),
            self.auto_processable matches Some(to_do) ==> result == to_do,
            self.auto_processable is None ==> (self.max_columns matches Some(max_columns) ==> result
                == (max_columns <= expected_columns)),
            self.auto_processable is None && self.max_columns is None ==> result,
    {
        match self.auto_processable {
            Some(to_do) => to_do,
            None => match self.max_columns {
                Some(max_columns) => max_columns <= expected_columns,
                None => true,
            },
        }
    }

    /// Whether the file has a row of more than the leading columns.
    pub fn has_extra_columns(&self, expected_columns: usize) -> (result: bool)
        ensures
            result == is_wide(self.deep_view(), expected_columns as nat),
            self.max_columns is None ==> !result,
            self.max_columns matches Some(max_columns) ==> result == (max_columns
                > expected_columns),
    {
        match self.max_columns {
            Some(max_columns) => max_columns > expected_columns,
            None => false,
        }
    }
}

/// The counts of an inspected file.
pub open spec fn stats_of(info: InfoModel) -> FileStats {
    FileStats {
        row_count: info.row_count,
        min_columns: info.min_columns,
        max_columns: info.max_columns,
        auto_processable: info.auto_processable,
    }
}

/// Looks at a file that holds `data`.
pub fn inspect_file(file: &InputFile, data: &[u8], options: InspectionOptions) -> (result: Result<
    FileInfo,
    InspectError,
>)
    ensures
        is_report(
            match result {
                Ok(info) => Ok(stats_of(info.deep_view())),
                Err(error) => Err(error),
            },
            csv_records(data@),
            options.selection_mode,
            options.auto_inspect_mode,
            options.expected_columns as nat,
            options.rsi_column_count as nat,
        ),
        result matches Ok(info) ==> info.deep_view().file == file.deep_view(),
        result matches Ok(info) ==> is_report(
            Ok(
                (FileStats {
                    row_count: info.row_count,
                    min_columns: info.min_columns,
                    max_columns: info.max_columns,
                    auto_processable: info.auto_processable,
                }),
            ),
            csv_records(data@),
            options.selection_mode,
            options.auto_inspect_mode,
            options.expected_columns as nat,
            options.rsi_column_count as nat,
        ),
{
    let stats = match analyze_file(
        data,
        options.selection_mode,
        options.auto_inspect_mode,
        options.expected_columns,
        options.rsi_column_count,
    ) {
        Ok(stats) => stats,
        Err(error) => {
            return Err(error);
        },
    };
    Ok(FileInfo::new(file.clone(), stats))
}

/// What the first row of a file tells of it, where that settles the matter: in
/// the mode that goes by first rows, a completed one. Whatever follows the row
/// does not matter then and need not be read.
pub fn inspect_first_row(file: &InputFile, row: &Vec<String>, options: InspectionOptions) -> (result:
    Option<FileInfo>)
    ensures
        result is Some <==> options.selection_mode == SelectionMode::Auto
            && options.auto_inspect_mode == AutoInspectMode::FirstRow && is_completed(
            row.deep_view(),
            options.expected_columns as nat,
            options.rsi_column_count as nat,
        ),
        result matches Some(info) ==> info.deep_view().file == file.deep_view() && forall|
            records: Seq<Record>,
        |
            records.len() > 0 && #[trigger] records[0] == Ok::<Seq<Seq<char>>, Seq<char>>(
                row.deep_view(),
            ) ==> is_report(
                Ok(stats_of(info.deep_view())),
                records,
                options.selection_mode,
                options.auto_inspect_mode,
                options.expected_columns as nat,
                options.rsi_column_count as nat,
            ),
        result is Some <==> options.selection_mode == SelectionMode::Auto
            && options.auto_inspect_mode == AutoInspectMode::FirstRow && !lacks_a_cell(
            row.deep_view(),
            options.expected_columns as nat,
            options.rsi_column_count as nat,
        ),
        result matches Some(info) ==> {
            &&& info.row_count is None
            &&& info.min_columns matches Some(width) && width == row@.len()
            &&& info.max_columns matches Some(width) && width == row@.len()
            &&& info.auto_processable == Some(false)
        },
{
    proof {
        lemma_completed_or_lacking(
            row.deep_view(),
            options.expected_columns as nat,
            options.rsi_column_count as nat,
        );
    }
    match (options.selection_mode, options.auto_inspect_mode) {
        (SelectionMode::Auto, AutoInspectMode::FirstRow) => {
            if !row_has_completed_appended_rsi_columns(
                row,
                options.expected_columns,
                options.rsi_column_count,
            ) {
                return None;
            }
            let columns = row.len();
            let stats = FileStats {
                row_count: None,
                min_columns: Some(columns),
                max_columns: Some(columns),
                auto_processable: Some(false),
            };
            Some(FileInfo::new(file.clone(), stats))
        },
        _ => None,
    }
}

/// Whether a file is converted under the selection.
pub fn should_process_file(
    file_info: &FileInfo,
    selection_mode: SelectionMode,
    expected_columns: usize,
) -> (result: bool)
    ensures
        result == is_selected(file_info.deep_view(), selection_mode, expected_columns as nat),
        selection_mode == SelectionMode::All ==> result,
        selection_mode == SelectionMode::Auto ==> (file_info.auto_processable matches Some(to_do)
            ==> result == to_do),
{
    match selection_mode {
        SelectionMode::Auto => file_info.is_auto_processable(expected_columns),
        SelectionMode::All => true,
    }
}

/// A filter over one item more.
pub(crate) proof fn lemma_filter_push<T>(items: Seq<T>, item: T, keep: spec_fn(T) -> bool)
    ensures
        items.push(item).filter(keep) == if keep(item) {
            items.filter(keep).push(item)
        } else {
            items.filter(keep)
        },
{
    reveal(Seq::filter);
    assert(items.push(item).drop_last() =~= items);
}

/// The files on one side of the selection, in their order: those that are
/// converted where `wanted` is true, and the others where it is false.
fn files_by_selection(
    file_info: &[FileInfo],
    selection_mode: SelectionMode,
    expected_columns: usize,
    wanted: bool,
) -> (files: Vec<FileInfo>)
    ensures
        files.deep_view() == file_info.deep_view().filter(
            |info: InfoModel|
                is_selected(info, selection_mode, expected_columns as nat) == wanted,
        ),
{
    let ghost all = file_info.deep_view();
    let ghost keep = |info: InfoModel|
        is_selected(info, selection_mode, expected_columns as nat) == wanted;
    let mut files: Vec<FileInfo> = Vec::new();
    let mut index: usize = 0;
    assert(all.take(0).filter(keep) =~= seq![]) by {
        reveal(Seq::filter);
    }
    assert(files.deep_view() =~= seq![]);
    while index < file_info.len()
        invariant
            all == file_info.deep_view(),
            keep == |info: InfoModel|
                is_selected(info, selection_mode, expected_columns as nat) == wanted,
            index <= file_info@.len(),
            files.deep_view() == all.take(index as int).filter(keep),
        decreases file_info.len() - index,
    {
        let info = &file_info[index];
        let ghost before = files.deep_view();
        proof {
            lemma_filter_push(all.take(index as int), info.deep_view(), keep);
            assert(all.take(index + 1) =~= all.take(index as int).push(info.deep_view()));
        }
        if should_process_file(info, selection_mode, expected_columns) == wanted {
            files.push(info.clone());
            assert(files.deep_view() =~= before.push(info.deep_view()));
        }
        index += 1;
    }
    assert(all.take(all.len() as int) =~= all);
    files
}

/// The files that are converted, in their order.
pub fn select_process_files(
    file_info: &[FileInfo],
    selection_mode: SelectionMode,
    expected_columns: usize,
) -> (files: Vec<FileInfo>)
    ensures
        files.deep_view() == selected(
            file_info.deep_view(),
            selection_mode,
            expected_columns as nat,
        ),
{
    assert((|info: InfoModel| is_selected(info, selection_mode, expected_columns as nat) == true)
        =~= (|info: InfoModel| is_selected(info, selection_mode, expected_columns as nat)));
    files_by_selection(file_info, selection_mode, expected_columns, true)
}

/// The files that are passed over, in their order.
pub fn skipped_files(
    file_info: &[FileInfo],
    selection_mode: SelectionMode,
    expected_columns: usize,
) -> (files: Vec<FileInfo>)
    ensures
        files.deep_view() == passed_over(
            file_info.deep_view(),
            selection_mode,
            expected_columns as nat,
        ),
{
    assert((|info: InfoModel| is_selected(info, selection_mode, expected_columns as nat) == false)
        =~= (|info: InfoModel| !is_selected(info, selection_mode, expected_columns as nat)));
    files_by_selection(file_info, selection_mode, expected_columns, false)
}

/// The number of rows of all files, where every file's rows were counted.
pub open spec fn total_rows(infos: Seq<InfoModel>) -> Option<nat>
    decreases infos.len(),
{
    if infos.len() == 0 {
        Some(0)
    } else {
        match (total_rows(infos.drop_last()), infos.last().row_count) {
            (Some(earlier), Some(rows)) => Some(earlier + rows as nat),
            _ => None,
        }
    }
}

/// The rows can be added up, file by file, as far as they were counted.
pub open spec fn rows_fit(infos: Seq<InfoModel>) -> bool {
    forall|i: int|
        0 <= i <= infos.len() ==> match #[trigger] total_rows(infos.take(i)) {
            Some(rows) => rows <= usize::MAX,
            None => true,
        }
}

/// `sum` is the number of rows of all files, where all were counted.
pub open spec fn is_total(sum: Option<usize>, infos: Seq<InfoModel>) -> bool {
    match total_rows(infos) {
        Some(rows) => sum matches Some(total) && total == rows,
        None => sum is None,
    }
}

/// Where one file's rows were not counted, the total of a longer list is not
/// known either.
proof fn lemma_total_stays_unknown(infos: Seq<InfoModel>, index: int)
    requires
        0 <= index < infos.len(),
        infos[index].row_count is None,
    ensures
        total_rows(infos) is None,
    decreases infos.len(),
{
    if index < infos.len() - 1 {
        lemma_total_stays_unknown(infos.drop_last(), index);
    }
}

/// The number of rows of all files, where every file's rows were counted.
pub fn sum_counted_rows(file_info: &[FileInfo]) -> (sum: Option<usize>)
    requires
        rows_fit(file_info.deep_view()),
    ensures
        is_total(sum, file_info.deep_view()),
        sum is None <==> exists|i: int|
            0 <= i < file_info@.len() && (#[trigger] file_info@[i]).row_count is None,
        sum matches Some(total) ==> total_rows(file_info.deep_view()) == Some(total as nat),
{
    let ghost all = file_info.deep_view();
    let mut total: usize = 0;
    let mut index: usize = 0;
    while index < file_info.len()
        invariant
            all == file_info.deep_view(),
            rows_fit(all),
            index <= file_info@.len(),
            total_rows(all.take(index as int)) == Some(total as nat),
            forall|i: int| 0 <= i < index ==> (#[trigger] file_info@[i]).row_count is Some,
        decreases file_info.len() - index,
    {
        match file_info[index].row_count {
            Some(rows) => {
                assert(all.take(index + 1).drop_last() =~= all.take(index as int));
                assert(total_rows(all.take(index + 1)) == Some((total + rows) as nat));
                total += rows;
            },
            None => {
                proof {
                    lemma_total_stays_unknown(all, index as int);
                    assert(file_info@[index as int].row_count is None);
                }
                return None;
            },
        }
        index += 1;
    }
    assert(all.take(all.len() as int) =~= all);
    Some(total)
}

/// Whether the rows can be added up.
pub fn rows_add_up(file_info: &[FileInfo]) -> (result: bool)
    ensures
        result == rows_fit(file_info.deep_view()),
        result == forall|i: int|
            0 <= i <= file_info@.len() ==> match #[trigger] total_rows(
                file_info.deep_view().take(i),
            ) {
                Some(rows) => rows <= usize::MAX,
                None => true,
            },
{
    let ghost all = file_info.deep_view();
    let mut total: usize = 0;
    let mut index: usize = 0;
    while index < file_info.len()
        invariant
            all == file_info.deep_view(),
            index <= file_info@.len(),
            total_rows(all.take(index as int)) == Some(total as nat),
            forall|i: int|
                0 <= i <= index ==> match #[trigger] total_rows(all.take(i)) {
                    Some(rows) => rows <= usize::MAX,
                    None => true,
                },
        decreases file_info.len() - index,
    {
        match file_info[index].row_count {
            Some(rows) => {
                assert(all.take(index + 1).drop_last() =~= all.take(index as int));
                assert(total_rows(all.take(index + 1)) == Some((total + rows) as nat));
                match total.checked_add(rows) {
                    Some(sum) => {
                        total = sum;
                    },
                    None => {
                        return false;
                    },
                }
            },
            None => {
                proof {
                    assert forall|i: int| index < i <= all.len() implies #[trigger] total_rows(
                        all.take(i),
                    ) is None by {
                        lemma_total_stays_unknown(all.take(i), index as int);
                    }
                }
                return true;
            },
        }
        index += 1;
    }
    true
}

/// How many of `count` things are worked on at a time: as many as there are
/// jobs, but no more than there are things, and at least one.
pub open spec fn at_a_time(count: nat, jobs: nat) -> nat {
    let wanted = if jobs < 1 {
        1
    } else {
        jobs
    };
    let present = if count < 1 {
        1
    } else {
        count
    };
    if wanted < present {
        wanted
    } else {
        present
    }
}

/// How many files are worked on at a time.
pub fn parallel_file_count(file_count: usize, requested_jobs: usize) -> (count: usize)
    ensures
        count == at_a_time(file_count as nat, requested_jobs as nat),
        count >= 1,
        requested_jobs >= 1 ==> count <= requested_jobs,
        file_count >= 1 ==> count <= file_count,
        count == 1 || count == requested_jobs || count == file_count,
        1 <= requested_jobs && 1 <= file_count ==> count == requested_jobs || count == file_count,
{
    let wanted = if requested_jobs < 1 {
        1
    } else {
        requested_jobs
    };
    let present = if file_count < 1 {
        1
    } else {
        file_count
    };
    if wanted < present {
        wanted
    } else {
        present
    }
}

/// Every file is either converted or passed over, and none is both: the two
/// lists together hold each file as often as it was listed.
pub proof fn law_selection_is_a_partition(
    infos: Seq<InfoModel>,
    selection_mode: SelectionMode,
    expected_columns: nat,
)
    ensures
        selected(infos, selection_mode, expected_columns).to_multiset().add(
            passed_over(infos, selection_mode, expected_columns).to_multiset(),
        ) == infos.to_multiset(),
        selection_mode == SelectionMode::All ==> selected(infos, selection_mode, expected_columns)
            == infos,
    decreases infos.len(),
{
    broadcast use vstd::multiset::group_multiset_axioms;

    let keep = |info: InfoModel| is_selected(info, selection_mode, expected_columns);
    let drop = |info: InfoModel| !is_selected(info, selection_mode, expected_columns);
    reveal(Seq::filter);
    if infos.len() > 0 {
        let front = infos.drop_last();
        let info = infos.last();
        law_selection_is_a_partition(front, selection_mode, expected_columns);
        lemma_filter_push(front, info, keep);
        lemma_filter_push(front, info, drop);
        assert(front.push(info) =~= infos);
        vstd::seq_lib::to_multiset_build(front, info);
        vstd::seq_lib::to_multiset_build(front.filter(keep), info);
        vstd::seq_lib::to_multiset_build(front.filter(drop), info);
        assert(infos.to_multiset() =~= infos.filter(keep).to_multiset().add(
            infos.filter(drop).to_multiset(),
        ));
    } else {
        infos.to_multiset_ensures();
        assert(infos.filter(keep) =~= infos);
        assert(infos.filter(drop) =~= infos);
        assert(infos.to_multiset().add(infos.to_multiset()) =~= infos.to_multiset());
    }
}

/// The files that were inspected.
pub open spec fn files_of(infos: Seq<InfoModel>) -> Seq<InputModel> {
    Seq::new(infos.len(), |i: int| infos[i].file)
}

/// What comes out of a filter stood among the items, and what followed follows.
proof fn lemma_filter_sources<T>(items: Seq<T>, keep: spec_fn(T) -> bool) -> (sources: Seq<int>)
    ensures
        sources.len() == items.filter(keep).len(),
        forall|i: int|
            0 <= i < sources.len() ==> 0 <= #[trigger] sources[i] < items.len()
                && items[sources[i]] == items.filter(keep)[i],
        forall|i: int, j: int|
            0 <= i < j < sources.len() ==> #[trigger] sources[i] < #[trigger] sources[j],
    decreases items.len(),
{
    reveal(Seq::filter);
    if items.len() == 0 {
        seq![]
    } else {
        let front = items.drop_last();
        let earlier = lemma_filter_sources(front, keep);
        assert(front.push(items.last()) =~= items);
        lemma_filter_push(front, items.last(), keep);
        if keep(items.last()) {
            earlier.push(items.len() - 1)
        } else {
            earlier
        }
    }
}

/// Files in order stay in order when some of them are passed over.
pub proof fn law_selection_keeps_the_order(
    infos: Seq<InfoModel>,
    selection_mode: SelectionMode,
    expected_columns: nat,
)
    requires
        is_sorted(files_of(infos)),
    ensures
        is_sorted(files_of(selected(infos, selection_mode, expected_columns))),
{
    let keep = |info: InfoModel| is_selected(info, selection_mode, expected_columns);
    let chosen = infos.filter(keep);
    let sources = lemma_filter_sources(infos, keep);
    assert forall|i: int, j: int| 0 <= i < j < chosen.len() implies !file_before(
        #[trigger] files_of(chosen)[j],
        #[trigger] files_of(chosen)[i],
    ) by {
        assert(sources[i] < sources[j]);
        assert(files_of(infos)[sources[i]] == chosen[i].file);
        assert(files_of(infos)[sources[j]] == chosen[j].file);
    }
}

/// The number of jobs is a maximum: never more are worked on at a time, never
/// more than there are, and always at least one.
pub proof fn law_jobs_are_a_maximum(count: nat, jobs: nat)
    ensures
        1 <= at_a_time(count, jobs),
        jobs >= 1 ==> at_a_time(count, jobs) <= jobs,
        count >= 1 ==> at_a_time(count, jobs) <= count,
        1 <= jobs <= count ==> at_a_time(count, jobs) == jobs,
        1 <= count <= jobs ==> at_a_time(count, jobs) == count,
        jobs == 0 || count == 0 ==> at_a_time(count, jobs) == 1,
{
}

/// How rows add up: those of no file are none, those of one file are its own,
/// and those of two lists, one behind the other, are the rows of both. Where one
/// of the files was not counted, the sum is not known.
pub proof fn law_rows_add_up(left: Seq<InfoModel>, right: Seq<InfoModel>)
    ensures
        left.len() == 0 ==> total_rows(left) == Some(0nat),
        left.len() == 1 ==> (total_rows(left) is None <==> left[0].row_count is None),
        left.len() == 1 ==> (left[0].row_count matches Some(rows) ==> total_rows(left) == Some(
            rows as nat,
        )),
        total_rows(left + right) is None <==> total_rows(left) is None || total_rows(right) is None,
        total_rows(left) is Some && total_rows(right) is Some ==> total_rows(left + right) == Some(
            (total_rows(left)->0 + total_rows(right)->0) as nat,
        ),
    decreases right.len(),
{
    if left.len() == 1 {
        reveal_with_fuel(total_rows, 2);
    }
    if right.len() == 0 {
        assert(left + right =~= left);
    } else {
        law_rows_add_up(left, right.drop_last());
        assert((left + right).drop_last() =~= left + right.drop_last());
    }
}

/// Rows that add up to a number that can be held can be added up on the way.
pub proof fn law_a_total_that_fits_can_be_added_up(infos: Seq<InfoModel>)
    ensures
        total_rows(infos) matches Some(rows) && rows <= usize::MAX ==> rows_fit(infos),
        rows_fit(infos) ==> (total_rows(infos) matches Some(rows) ==> rows <= usize::MAX),
{
    assert(infos.take(infos.len() as int) =~= infos);
    if total_rows(infos) matches Some(rows) && rows <= usize::MAX {
        assert forall|i: int| 0 <= i <= infos.len() implies match #[trigger] total_rows(
            infos.take(i),
        ) {
            Some(part) => part <= usize::MAX,
            None => true,
        } by {
            law_rows_add_up(infos.take(i), infos.skip(i));
            assert(infos.take(i) + infos.skip(i) =~= infos);
        }
    }
}

/// A filter leaves an item of the sequence exactly if the item passes it.
proof fn lemma_filter_decides<T>(items: Seq<T>, keep: spec_fn(T) -> bool, index: int)
    requires
        0 <= index < items.len(),
    ensures
        items.filter(keep).contains(items[index]) <==> keep(items[index]),
{
    broadcast use Seq::lemma_filter_pred, Seq::lemma_filter_contains;

}

/// Which files are converted, told of what was found out of them: all of them,
/// or under the automatic selection those that are still to be converted. Where
/// the inspection did not decide that, it is those without a row of more than
/// the leading columns.
pub proof fn law_the_selection_goes_by_the_inspection(
    infos: Seq<InfoModel>,
    expected_columns: nat,
    index: int,
)
    requires
        0 <= index < infos.len(),
    ensures
        selected(infos, SelectionMode::All, expected_columns) == infos,
        passed_over(infos, SelectionMode::All, expected_columns).len() == 0,
        infos[index].auto_processable matches Some(to_do) ==> {
            &&& to_do <==> selected(infos, SelectionMode::Auto, expected_columns).contains(
                infos[index],
            )
            &&& !to_do <==> passed_over(infos, SelectionMode::Auto, expected_columns).contains(
                infos[index],
            )
        },
        infos[index].auto_processable is None ==> {
            let fits = match infos[index].max_columns {
                Some(max_columns) => max_columns <= expected_columns,
                None => true,
            };
            &&& fits <==> selected(infos, SelectionMode::Auto, expected_columns).contains(
                infos[index],
            )
            &&& !fits <==> passed_over(infos, SelectionMode::Auto, expected_columns).contains(
                infos[index],
            )
        },
{
    law_selection_is_a_partition(infos, SelectionMode::All, expected_columns);
    let drop_all = |info: InfoModel| !is_selected(info, SelectionMode::All, expected_columns);
    lemma_filter_keeps_none(infos, drop_all);
    let keep = |info: InfoModel| is_selected(info, SelectionMode::Auto, expected_columns);
    let drop = |info: InfoModel| !is_selected(info, SelectionMode::Auto, expected_columns);
    lemma_filter_decides(infos, keep, index);
    lemma_filter_decides(infos, drop, index);
}

/// What is known of an inspected file is what a look at its table tells.
pub proof fn law_an_inspection_tells_what_a_look_tells(
    files: Seq<InputModel>,
    tables: Seq<Seq<u8>>,
    options: InspectionOptions,
    infos: Seq<InfoModel>,
    index: int,
)
    requires
        is_inspection(files, tables, options, infos),
        0 <= index < files.len(),
    ensures
        infos.len() == files.len(),
        infos[index].file == files[index],
        is_report(
            Ok(
                (FileStats {
                    row_count: infos[index].row_count,
                    min_columns: infos[index].min_columns,
                    max_columns: infos[index].max_columns,
                    auto_processable: infos[index].auto_processable,
                }),
            ),
            csv_records(tables[index]),
            options.selection_mode,
            options.auto_inspect_mode,
            options.expected_columns as nat,
            options.rsi_column_count as nat,
        ),
{
    assert(infos[index].file == files[index]);
}

/// Under the automatic selection a file of an inspection is converted exactly
/// if it has no row, or the row that the inspection goes by, its first or its
/// last, lacks one of the requested cells.
pub proof fn law_a_file_that_lacks_cells_is_selected(
    files: Seq<InputModel>,
    tables: Seq<Seq<u8>>,
    options: InspectionOptions,
    infos: Seq<InfoModel>,
    index: int,
)
    requires
        is_inspection(files, tables, options, infos),
        options.selection_mode == SelectionMode::Auto,
        0 <= index < files.len(),
    ensures
        ({
            let records = csv_records(tables[index]);
            let row = match options.auto_inspect_mode {
                AutoInspectMode::FirstRow => records[0]->Ok_0,
                AutoInspectMode::LastRow => records[records.len() - 1]->Ok_0,
            };
            let lacking = records.len() == 0 || lacks_a_cell(
                row,
                options.expected_columns as nat,
                options.rsi_column_count as nat,
            );
            &&& infos[index].file == files[index]
            &&& lacking <==> selected(
                infos,
                SelectionMode::Auto,
                options.expected_columns as nat,
            ).contains(infos[index])
            &&& !lacking <==> passed_over(
                infos,
                SelectionMode::Auto,
                options.expected_columns as nat,
            ).contains(infos[index])
        }),
{
    assert(infos[index].file == files[index]);
    law_a_look_goes_by_its_row(
        stats_of(infos[index]),
        csv_records(tables[index]),
        options.selection_mode,
        options.auto_inspect_mode,
        options.expected_columns as nat,
        options.rsi_column_count as nat,
    );
    law_the_selection_goes_by_the_inspection(infos, options.expected_columns as nat, index);
}

/// `infos` are the inspected `files`, in their order, with what their contents
/// `tables` tell.
pub open spec fn is_inspection(
    files: Seq<InputModel>,
    tables: Seq<Seq<u8>>,
    options: InspectionOptions,
    infos: Seq<InfoModel>,
) -> bool {
    &&& tables.len() == files.len()
    &&& infos.len() == files.len()
    &&& forall|i: int|
        #![trigger infos[i]]
        0 <= i < files.len() ==> infos[i].file == files[i] && is_report(
            Ok(stats_of(infos[i])),
            csv_records(tables[i]),
            options.selection_mode,
            options.auto_inspect_mode,
            options.expected_columns as nat,
            options.rsi_column_count as nat,
        )
}

/// What an inspection finds depends on the files, on what they hold and on how
/// they are looked at, and on nothing else: neither on the number of jobs, nor
/// on where the converted tables go, nor on whether a question is asked.
pub proof fn law_inspections_agree(
    files: Seq<InputModel>,
    tables: Seq<Seq<u8>>,
    options: InspectionOptions,
    infos: Seq<InfoModel>,
    other_options: InspectionOptions,
    other_infos: Seq<InfoModel>,
)
    requires
        is_inspection(files, tables, options, infos),
        is_inspection(files, tables, other_options, other_infos),
        other_options.selection_mode == options.selection_mode,
        other_options.auto_inspect_mode == options.auto_inspect_mode,
        other_options.expected_columns == options.expected_columns,
        other_options.rsi_column_count == options.rsi_column_count,
    ensures
        other_infos == infos,
{
    assert forall|i: int| 0 <= i < infos.len() implies #[trigger] infos[i] == other_infos[i] by {
        assert(other_infos[i].file == files[i]);
        law_reports_agree(
            Ok(stats_of(infos[i])),
            Ok(stats_of(other_infos[i])),
            csv_records(tables[i]),
            options.selection_mode,
            options.auto_inspect_mode,
            options.expected_columns as nat,
            options.rsi_column_count as nat,
        );
        assert(stats_of(infos[i]) == stats_of(other_infos[i]));
    }
    assert(infos =~= other_infos);
}

/// An inspection of all files exists only where each of them can be inspected:
/// one that cannot stops it.
pub proof fn law_an_inspection_needs_every_file(
    files: Seq<InputModel>,
    tables: Seq<Seq<u8>>,
    options: InspectionOptions,
    infos: Seq<InfoModel>,
    index: int,
    result: Result<FileStats, InspectError>,
)
    requires
        is_inspection(files, tables, options, infos),
        0 <= index < files.len(),
        is_report(
            result,
            csv_records(tables[index]),
            options.selection_mode,
            options.auto_inspect_mode,
            options.expected_columns as nat,
            options.rsi_column_count as nat,
        ),
    ensures
        result == Ok::<FileStats, InspectError>(stats_of(infos[index])),
{
    assert(infos[index].file == files[index]);
    law_reports_agree(
        result,
        Ok(stats_of(infos[index])),
        csv_records(tables[index]),
        options.selection_mode,
        options.auto_inspect_mode,
        options.expected_columns as nat,
        options.rsi_column_count as nat,
    );
}

}
