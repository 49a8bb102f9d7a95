//! In which batches files are inspected.
use vstd::prelude::*;

use crate::files::{FileInfo, InfoModel, InputFile, InputModel};
use crate::groups::{
    group_input_files_by_folder, input_folder, law_runs_cut_where_the_key_changes, runs,
};
use crate::inspect::is_report;
use crate::modes::{InspectionOptions, SelectionMode};
use crate::overview::{
    checking_line, checking_text, counting_line, counting_text, scan, scan_lines,
};
use crate::report::summary_text;
use crate::select::{
    at_a_time, is_inspection, law_jobs_are_a_maximum, parallel_file_count, stats_of,
};
use crate::table::csv_records;
use crate::text::decimal;

verus! {

/// Files that are inspected together.
pub struct Batch<'a> {
    /// The files.
    pub files: &'a [InputFile],
    /// How many of them are inspected at a time.
    pub parallel: usize,
    /// What is shown before they are inspected, if anything is.
    pub announcement: Option<String>,
}

/// The inspection of all files.
pub struct Schedule<'a> {
    /// What is shown at first.
    pub opening: Vec<String>,
    /// The batches, one after the other.
    pub batches: Vec<Batch<'a>>,
}

/// The batches: where rows are only looked at, all files together; where all
/// rows are counted, the files of one directory after those of another.
pub open spec fn batched(files: Seq<InputModel>, options: InspectionOptions) -> Seq<
    Seq<InputModel>,
> {
    match options.selection_mode {
        SelectionMode::Auto => seq![files],
        SelectionMode::All => runs(files, input_folder()),
    }
}

/// What is shown before anything is inspected.
pub open spec fn opening_lines(files: Seq<InputModel>, options: InspectionOptions) -> Seq<
    Seq<char>,
> {
    match options.selection_mode {
        SelectionMode::Auto => seq![
            checking_text(
                options.auto_inspect_mode,
                at_a_time(files.len(), options.jobs as nat),
            ),
        ],
        SelectionMode::All => scan(runs(files, input_folder()), options.jobs as nat),
    }
}

/// `batch` is the batch of `files`.
pub open spec fn is_batch(
    batch: Batch<'_>,
    files: Seq<InputModel>,
    options: InspectionOptions,
) -> bool {
    &&& batch.files.deep_view() == files
    &&& batch.parallel == at_a_time(files.len(), options.jobs as nat)
    &&& match options.selection_mode {
        SelectionMode::Auto => batch.announcement is None,
        SelectionMode::All => batch.announcement matches Some(line) && line@ == counting_text(
            files[0].folder,
            files.len(),
            options.jobs as nat,
        ),
    }
}

/// `schedule` is the inspection of `files`.
pub open spec fn is_schedule(
    schedule: Schedule<'_>,
    files: Seq<InputModel>,
    options: InspectionOptions,
) -> bool {
    &&& schedule.opening.deep_view() == opening_lines(files, options)
    &&& schedule.batches@.len() == batched(files, options).len()
    &&& forall|i: int|
        0 <= i < schedule.batches@.len() ==> is_batch(
            #[trigger] schedule.batches@[i],
            batched(files, options)[i],
            options,
        )
}

/// Plans the inspection of files.
pub fn schedule<'a>(files: &'a [InputFile], options: InspectionOptions) -> (result: Schedule<'a>)
    ensures
        is_schedule(result, files.deep_view(), options),
{
    let ghost all = files.deep_view();
    let mut batches: Vec<Batch<'a>> = Vec::new();
    match options.selection_mode {
        SelectionMode::Auto => {
            assert(files@.len() == files.len());
            let parallel = parallel_file_count(files.len(), options.jobs);
            let mut opening: Vec<String> = Vec::new();
            opening.push(checking_line(options.auto_inspect_mode, parallel));
            assert(opening.deep_view() =~= opening_lines(all, options));
            batches.push(Batch { files, parallel, announcement: None });
            Schedule { opening, batches }
        },
        SelectionMode::All => {
            let opening = scan_lines(files, options.jobs);
            let groups = group_input_files_by_folder(files);
            let ghost parts = runs(all, input_folder());
            proof {
                law_runs_cut_where_the_key_changes(all, input_folder());
            }
            let mut index: usize = 0;
            while index < groups.len()
                invariant
                    groups.deep_view() == parts,
                    options.selection_mode == SelectionMode::All,
                    parts == batched(all, options),
                    forall|i: int| 0 <= i < parts.len() ==> (#[trigger] parts[i]).len() > 0,
                    index <= groups@.len(),
                    batches@.len() == index,
                    forall|i: int|
                        0 <= i < index ==> is_batch(
                            #[trigger] batches@[i],
                            parts[i],
                            options,
                        ),
                decreases groups.len() - index,
            {
                let group = groups[index];
                assert(parts[index as int] == group.deep_view());
                assert(group@.len() == group.len());
                let parallel = parallel_file_count(group.len(), options.jobs);
                let line = counting_line(group, options.jobs);
                batches.push(Batch { files: group, parallel, announcement: Some(line) });
                index += 1;
            }
            Schedule { opening, batches }
        },
    }
}

/// The batches one after the other are the files, so that what was found in
/// them stands in the order of the files.
pub proof fn law_batches_keep_the_order(files: Seq<InputModel>, options: InspectionOptions)
    ensures
        batched(files, options).flatten() == files,
{
    match options.selection_mode {
        SelectionMode::Auto => {
            let empty = Seq::<Seq<InputModel>>::empty();
            empty.lemma_flatten_push(files);
            assert(empty.push(files) =~= seq![files]);
            assert(empty.flatten() + files =~= files);
        },
        SelectionMode::All => {
            law_runs_cut_where_the_key_changes(files, input_folder());
        },
    }
}

/// Puts together what the batches brought, batch after batch.
pub fn gather(parts: Vec<Vec<FileInfo>>) -> (infos: Vec<FileInfo>)
    ensures
        infos.deep_view() == parts.deep_view().flatten(),
{
    let ghost all = parts.deep_view();
    let mut infos: Vec<FileInfo> = Vec::new();
    assert(infos.deep_view() =~= all.take(0).flatten());
    for part in iter: parts.into_iter()
        invariant
            iter.seq() == parts@,
            all == parts.deep_view(),
            infos.deep_view() == all.take(iter.index()).flatten(),
    {
        let ghost before = infos.deep_view();
        let ghost added = part.deep_view();
        let ghost seen = all.take(iter.index());
        let mut rest = part;
        infos.append(&mut rest);
        proof {
            assert(infos.deep_view() =~= before + added);
            seen.lemma_flatten_push(added);
            assert(all.take(iter.index() + 1) =~= seen.push(added));
        }
    }
    assert(all.take(all.len() as int) =~= all);
    infos
}

/// What the batches bring, put together, is the inspection of all files in
/// their order, however the files were split.
pub proof fn law_batches_make_the_whole(
    batches: Seq<Seq<InputModel>>,
    tables: Seq<Seq<Seq<u8>>>,
    options: InspectionOptions,
    parts: Seq<Seq<InfoModel>>,
)
    requires
        tables.len() == batches.len(),
        parts.len() == batches.len(),
        forall|i: int|
            #![trigger parts[i]]
            0 <= i < batches.len() ==> is_inspection(batches[i], tables[i], options, parts[i]),
    ensures
        is_inspection(batches.flatten(), tables.flatten(), options, parts.flatten()),
    decreases batches.len(),
{
    if batches.len() > 0 {
        let front = batches.drop_last();
        let front_tables = tables.drop_last();
        let front_parts = parts.drop_last();
        assert forall|i: int| #![trigger front_parts[i]] 0 <= i < front.len() implies is_inspection(
            front[i],
            front_tables[i],
            options,
            front_parts[i],
        ) by {
            assert(front_parts[i] == parts[i]);
        }
        law_batches_make_the_whole(front, front_tables, options, front_parts);
        front.lemma_flatten_push(batches.last());
        front_tables.lemma_flatten_push(tables.last());
        front_parts.lemma_flatten_push(parts.last());
        assert(front.push(batches.last()) =~= batches);
        assert(front_tables.push(tables.last()) =~= tables);
        assert(front_parts.push(parts.last()) =~= parts);
        let earlier = front_parts.flatten();
        let infos = parts.flatten();
        let last = batches.len() - 1;
        assert(is_inspection(batches[last], tables[last], options, parts[last]));
        assert forall|i: int| #![trigger infos[i]] 0 <= i < infos.len() implies infos[i].file
            == batches.flatten()[i] && is_report(
            Ok(stats_of(infos[i])),
            csv_records(tables.flatten()[i]),
            options.selection_mode,
            options.auto_inspect_mode,
            options.expected_columns as nat,
            options.rsi_column_count as nat,
        ) by {
            if i < earlier.len() {
                assert(infos[i] == earlier[i]);
            } else {
                assert(infos[i] == parts[last][i - earlier.len()]);
            }
        }
    }
}

/// The whole inspection under a schedule: what the batches of the schedule
/// bring, put together, is the inspection of the files in their order.
pub proof fn law_a_schedule_inspects_every_file(
    files: Seq<InputModel>,
    tables: Seq<Seq<Seq<u8>>>,
    options: InspectionOptions,
    parts: Seq<Seq<InfoModel>>,
)
    requires
        tables.len() == batched(files, options).len(),
        parts.len() == batched(files, options).len(),
        forall|i: int|
            #![trigger parts[i]]
            0 <= i < parts.len() ==> is_inspection(
                batched(files, options)[i],
                tables[i],
                options,
                parts[i],
            ),
    ensures
        is_inspection(files, tables.flatten(), options, parts.flatten()),
{
    law_batches_keep_the_order(files, options);
    law_batches_make_the_whole(batched(files, options), tables, options, parts);
}

/// What a schedule is, told of what it does: every file stands in one batch, and
/// the batches one after the other are the files in their order. Under the
/// automatic selection there is one batch. Else a batch is of one directory, the
/// next one is of another, and each is announced. No more files are looked at a
/// time than there are jobs or files in the batch.
pub proof fn law_a_schedule_goes_by_directory(
    schedule: Schedule<'_>,
    files: Seq<InputModel>,
    options: InspectionOptions,
)
    requires
        is_schedule(schedule, files, options),
    ensures
        Seq::new(
            schedule.batches@.len(),
            |i: int| schedule.batches@[i].files.deep_view(),
        ).flatten() == files,
        options.selection_mode == SelectionMode::Auto ==> schedule.batches@.len() == 1
            && schedule.batches@[0].announcement is None && schedule.opening.deep_view() == seq![
            checking_text(options.auto_inspect_mode, schedule.batches@[0].parallel as nat),
        ],
        options.selection_mode == SelectionMode::All ==> schedule.opening.deep_view() == scan(
            Seq::new(schedule.batches@.len(), |i: int| schedule.batches@[i].files.deep_view()),
            options.jobs as nat,
        ),
        options.selection_mode == SelectionMode::All ==> {
            &&& forall|i: int|
                #![trigger schedule.batches@[i]]
                0 <= i < schedule.batches@.len() ==> {
                    let batch = schedule.batches@[i].files.deep_view();
                    &&& batch.len() > 0
                    &&& forall|j: int|
                        0 <= j < batch.len() ==> (#[trigger] batch[j]).group.parts
                            == batch[0].group.parts
                    &&& schedule.batches@[i].announcement matches Some(line)
                    &&& line@ == "\nCounting "@ + batch[0].folder + ": "@ + decimal(batch.len())
                        + " files with up to "@ + summary_text(
                        schedule.batches@[i].parallel as nat,
                        "file"@,
                    ) + " in parallel..."@
                }
            &&& forall|i: int|
                #![trigger schedule.batches@[i]]
                0 <= i < schedule.batches@.len() - 1
                    ==> schedule.batches@[i].files.deep_view()[0].group.parts
                    != schedule.batches@[i + 1].files.deep_view()[0].group.parts
        },
        forall|i: int|
            0 <= i < schedule.batches@.len() ==> {
                let batch = #[trigger] schedule.batches@[i];
                &&& batch.parallel >= 1
                &&& options.jobs >= 1 ==> batch.parallel <= options.jobs
                &&& batch.files.deep_view().len() >= 1 ==> batch.parallel
                    <= batch.files.deep_view().len()
                &&& 1 <= options.jobs <= batch.files.deep_view().len() ==> batch.parallel
                    == options.jobs
                &&& 1 <= batch.files.deep_view().len() <= options.jobs ==> batch.parallel
                    == batch.files.deep_view().len()
            },
{
    let batches = batched(files, options);
    let shown = Seq::new(
        schedule.batches@.len(),
        |i: int| schedule.batches@[i].files.deep_view(),
    );
    assert forall|i: int| 0 <= i < shown.len() implies #[trigger] shown[i] == batches[i] by {
        assert(is_batch(schedule.batches@[i], batches[i], options));
    }
    assert(shown =~= batches);
    law_batches_keep_the_order(files, options);
    if options.selection_mode == SelectionMode::Auto {
        assert(is_batch(schedule.batches@[0], batches[0], options));
    }
    assert forall|i: int| 0 <= i < schedule.batches@.len() implies {
        let batch = #[trigger] schedule.batches@[i];
        &&& batch.parallel >= 1
        &&& options.jobs >= 1 ==> batch.parallel <= options.jobs
        &&& batch.files.deep_view().len() >= 1 ==> batch.parallel <= batch.files.deep_view().len()
        &&& 1 <= options.jobs <= batch.files.deep_view().len() ==> batch.parallel == options.jobs
        &&& 1 <= batch.files.deep_view().len() <= options.jobs ==> batch.parallel
            == batch.files.deep_view().len()
    } by {
        assert(is_batch(schedule.batches@[i], batches[i], options));
        law_jobs_are_a_maximum(batches[i].len(), options.jobs as nat);
    }
    if options.selection_mode == SelectionMode::All {
        let key = input_folder();
        law_runs_cut_where_the_key_changes(files, key);
        assert forall|i: int| #![trigger schedule.batches@[i]] 0 <= i < schedule.batches@.len() implies {
            let batch = schedule.batches@[i].files.deep_view();
            &&& batch.len() > 0
            &&& forall|j: int|
                0 <= j < batch.len() ==> (#[trigger] batch[j]).group.parts == batch[0].group.parts
            &&& schedule.batches@[i].announcement matches Some(line)
            &&& line@ == "\nCounting "@ + batch[0].folder + ": "@ + decimal(batch.len())
                + " files with up to "@ + summary_text(
                schedule.batches@[i].parallel as nat,
                "file"@,
            ) + " in parallel..."@
        } by {
            assert(is_batch(schedule.batches@[i], batches[i], options));
            assert(batches[i].len() > 0);
            assert forall|j: int| 0 <= j < batches[i].len() implies (
            #[trigger] batches[i][j]).group.parts == batches[i][0].group.parts by {
                assert(key(batches[i][j]) == key(batches[i][0]));
            }
        }
        assert forall|i: int|
            #![trigger schedule.batches@[i]]
            0 <= i < schedule.batches@.len()
                - 1 implies schedule.batches@[i].files.deep_view()[0].group.parts
            != schedule.batches@[i + 1].files.deep_view()[0].group.parts by {
            assert(is_batch(schedule.batches@[i], batches[i], options));
            assert(is_batch(schedule.batches@[i + 1], batches[i + 1], options));
            assert(key(batches[i][0]) != key(batches[i + 1][0]));
        }
    }
}

}
