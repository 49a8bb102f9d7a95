//! What is pointed out before work starts.
use vstd::prelude::*;

use crate::files::{FileInfo, InfoModel};
use crate::groups::{group_file_info, info_folder, law_runs_cut_where_the_key_changes, runs};
use crate::modes::{AutoInspectMode, SelectionMode};
use crate::months::{all_on_scale, find_missing_months, is_on_scale, missing_months};
use crate::report::{
    auto_inspected_row_name, copied, inspected_row_text, plural, plural_text,
};
use crate::select::{is_to_do, is_wide, lemma_filter_push};
use crate::text::{decimal, decimal_text};

verus! {

/// How many files the inspection found converted already.
pub open spec fn skipped_count(infos: Seq<InfoModel>, expected_columns: nat) -> nat {
    infos.filter(|info: InfoModel| !is_to_do(info, expected_columns)).len()
}

/// How many files that are still to be converted have a row that is too wide.
pub open spec fn selected_extra_count(infos: Seq<InfoModel>, expected_columns: nat) -> nat {
    infos.filter(
        |info: InfoModel| is_to_do(info, expected_columns) && is_wide(info, expected_columns),
    ).len()
}

/// How many files have a row that is too wide.
pub open spec fn extra_count(infos: Seq<InfoModel>, expected_columns: nat) -> nat {
    infos.filter(|info: InfoModel| is_wide(info, expected_columns)).len()
}

/// That files are skipped.
pub open spec fn skipped_text(count: nat, auto_inspect_mode: AutoInspectMode) -> Seq<char> {
    "\nAuto mode: skipped "@ + decimal(count) + " file"@ + plural_text(count) + " whose "@
        + inspected_row_text(auto_inspect_mode)
        + " already has all requested RSI columns filled."@
}

/// That files lose columns, where files were selected.
pub open spec fn selected_extra_text(count: nat, expected_columns: nat) -> Seq<char> {
    "\nWARNING: processing "@ + decimal(count) + " selected file"@ + plural_text(count)
        + " with rows over "@ + decimal(expected_columns)
        + " columns; extra columns will be dropped before RSI values are appended."@
}

/// That files lose columns, where all files are converted.
pub open spec fn extra_text(count: nat, expected_columns: nat) -> Seq<char> {
    "\nWARNING: processing "@ + decimal(count) + " file"@ + plural_text(count)
        + " with more than "@ + decimal(expected_columns)
        + " columns; extra columns will be dropped before RSI values are appended."@
}

/// The line, where there is something to count.
pub open spec fn if_any(count: nat, line: Seq<char>) -> Seq<Seq<char>> {
    if count > 0 {
        seq![line]
    } else {
        seq![]
    }
}

/// The warnings about columns.
pub open spec fn column_warnings(
    infos: Seq<InfoModel>,
    selection_mode: SelectionMode,
    auto_inspect_mode: AutoInspectMode,
    expected_columns: nat,
) -> Seq<Seq<char>> {
    match selection_mode {
        SelectionMode::Auto => {
            let skipped = skipped_count(infos, expected_columns);
            let extra = selected_extra_count(infos, expected_columns);
            if_any(skipped, skipped_text(skipped, auto_inspect_mode)) + if_any(
                extra,
                selected_extra_text(extra, expected_columns),
            )
        },
        SelectionMode::All => {
            let extra = extra_count(infos, expected_columns);
            if_any(extra, extra_text(extra, expected_columns))
        },
    }
}

/// How many files are skipped, how many of the others are too wide, and how
/// many are too wide in all.
fn count_columns(file_info: &[FileInfo], expected_columns: usize) -> (counts: (usize, usize, usize))
    ensures
        counts.0 == skipped_count(file_info.deep_view(), expected_columns as nat),
        counts.1 == selected_extra_count(file_info.deep_view(), expected_columns as nat),
        counts.2 == extra_count(file_info.deep_view(), expected_columns as nat),
{
    let ghost all = file_info.deep_view();
    let ghost is_skipped = |info: InfoModel| !is_to_do(info, expected_columns as nat);
    let ghost is_selected_extra = |info: InfoModel|
        is_to_do(info, expected_columns as nat) && is_wide(info, expected_columns as nat);
    let ghost is_extra = |info: InfoModel| is_wide(info, expected_columns as nat);
    let mut skipped: usize = 0;
    let mut selected_extra: usize = 0;
    let mut extra: usize = 0;
    let mut index: usize = 0;
    proof {
        reveal(Seq::filter);
    }
    while index < file_info.len()
        invariant
            all == file_info.deep_view(),
            is_skipped == |info: InfoModel| !is_to_do(info, expected_columns as nat),
            is_selected_extra == |info: InfoModel|
                is_to_do(info, expected_columns as nat) && is_wide(info, expected_columns as nat),
            is_extra == |info: InfoModel| is_wide(info, expected_columns as nat),
            index <= file_info@.len(),
            skipped == all.take(index as int).filter(is_skipped).len(),
            selected_extra == all.take(index as int).filter(is_selected_extra).len(),
            extra == all.take(index as int).filter(is_extra).len(),
            skipped <= index,
            selected_extra <= index,
            extra <= index,
        decreases file_info.len() - index,
    {
        let info = &file_info[index];
        proof {
            let seen = all.take(index as int);
            lemma_filter_push(seen, info.deep_view(), is_skipped);
            lemma_filter_push(seen, info.deep_view(), is_selected_extra);
            lemma_filter_push(seen, info.deep_view(), is_extra);
            assert(all.take(index + 1) =~= seen.push(info.deep_view()));
        }
        let wide = info.has_extra_columns(expected_columns);
        if wide {
            extra += 1;
        }
        if !info.is_auto_processable(expected_columns) {
            skipped += 1;
        } else if wide {
            selected_extra += 1;
        }
        index += 1;
    }
    assert(all.take(index as int) =~= all);
    (skipped, selected_extra, extra)
}

/// The warnings about columns.
pub fn warn_about_extra_columns(
    file_info: &[FileInfo],
    selection_mode: SelectionMode,
    auto_inspect_mode: AutoInspectMode,
    expected_columns: usize,
) -> (lines: Vec<String>)
    ensures
        lines.deep_view() == column_warnings(
            file_info.deep_view(),
            selection_mode,
            auto_inspect_mode,
            expected_columns as nat,
        ),
{
    let (skipped, selected_extra, extra) = count_columns(file_info, expected_columns);
    let columns = decimal_text(expected_columns as u64);
    let mut lines: Vec<String> = Vec::new();
    match selection_mode {
        SelectionMode::Auto => {
            if skipped > 0 {
                let mut line = "\nAuto mode: skipped ".to_owned();
                let count = decimal_text(skipped as u64);
                line.append(count.as_str());
                line.append(" file");
                line.append(plural(skipped));
                line.append(" whose ");
                line.append(auto_inspected_row_name(auto_inspect_mode));
                line.append(" already has all requested RSI columns filled.");
                lines.push(line);
            }
            if selected_extra > 0 {
                let mut line = "\nWARNING: processing ".to_owned();
                let count = decimal_text(selected_extra as u64);
                line.append(count.as_str());
                line.append(" selected file");
                line.append(plural(selected_extra));
                line.append(" with rows over ");
                line.append(columns.as_str());
                line.append(
                    " columns; extra columns will be dropped before RSI values are appended.",
                );
                lines.push(line);
            }
        },
        SelectionMode::All => {
            if extra > 0 {
                let mut line = "\nWARNING: processing ".to_owned();
                let count = decimal_text(extra as u64);
                line.append(count.as_str());
                line.append(" file");
                line.append(plural(extra));
                line.append(" with more than ");
                line.append(columns.as_str());
                line.append(
                    " columns; extra columns will be dropped before RSI values are appended.",
                );
                lines.push(line);
            }
        },
    }
    lines
}

/// Texts one after the other, with a comma and a space between two.
pub open spec fn enumerated(texts: Seq<Seq<char>>) -> Seq<char>
    decreases texts.len(),
{
    if texts.len() == 0 {
        seq![]
    } else if texts.len() == 1 {
        texts[0]
    } else {
        enumerated(texts.drop_last()) + ", "@ + texts.last()
    }
}

/// Texts one after the other, with a comma and a space between two.
fn enumerate(texts: &Vec<String>) -> (text: String)
    ensures
        text@ == enumerated(texts.deep_view()),
{
    let ghost all = texts.deep_view();
    let mut text = String::new();
    let mut index: usize = 0;
    while index < texts.len()
        invariant
            all == texts.deep_view(),
            index <= texts@.len(),
            text@ == enumerated(all.take(index as int)),
        decreases texts.len() - index,
    {
        assert(all.take(index + 1).drop_last() =~= all.take(index as int));
        if index > 0 {
            text.append(", ");
        }
        let ghost before = text@;
        text.append(texts[index].as_str());
        assert(index == 0 ==> before =~= seq![]);
        assert(text@ =~= enumerated(all.take(index + 1)));
        index += 1;
    }
    assert(all.take(index as int) =~= all);
    text
}

/// The warning about one directory's missing months.
pub open spec fn gap_lines(run: Seq<InfoModel>) -> Seq<Seq<char>> {
    let missing = missing_months(run);
    if missing.len() == 0 {
        seq![]
    } else {
        seq![
            "\nWARNING: "@ + run[0].file.folder + " is missing "@ + decimal(missing.len())
                + " month"@ + plural_text(missing.len())
                + " between first and last file: "@ + enumerated(missing),
            "         Carryover will continue across the gap, but the missing month data is not being processed."@,
        ]
    }
}

/// The warnings about missing months, directory after directory.
pub open spec fn gap_warnings(groups: Seq<Seq<InfoModel>>) -> Seq<Seq<char>>
    decreases groups.len(),
{
    if groups.len() == 0 {
        seq![]
    } else {
        gap_warnings(groups.drop_last()) + gap_lines(groups.last())
    }
}

/// What holds of all items holds of the items of every run.
proof fn lemma_runs_keep<T>(
    items: Seq<T>,
    key: spec_fn(T) -> Seq<Seq<u8>>,
    holds: spec_fn(T) -> bool,
)
    requires
        forall|i: int| 0 <= i < items.len() ==> holds(#[trigger] items[i]),
    ensures
        forall|i: int, j: int|
            0 <= i < runs(items, key).len() && 0 <= j < runs(items, key)[i].len() ==> holds(
                #[trigger] runs(items, key)[i][j],
            ),
    decreases items.len(),
{
    if items.len() > 0 {
        let front = items.drop_last();
        assert forall|i: int| 0 <= i < front.len() implies holds(#[trigger] front[i]) by {
            assert(front[i] == items[i]);
        }
        lemma_runs_keep(front, key, holds);
        let earlier = runs(front, key);
        let groups = runs(items, key);
        assert(holds(items[items.len() - 1]));
        assert forall|i: int, j: int| 0 <= i < groups.len() && 0 <= j < groups[i].len() implies holds(
            #[trigger] groups[i][j],
        ) by {
            if i < earlier.len() && j < earlier[i].len() {
                assert(holds(earlier[i][j]));
            }
        }
    }
}

/// The warnings about missing months.
pub fn warn_about_missing_months(file_info: &[FileInfo]) -> (lines: Vec<String>)
    requires
        all_on_scale(file_info.deep_view()),
    ensures
        lines.deep_view() == gap_warnings(runs(file_info.deep_view(), info_folder())),
{
    let ghost all = file_info.deep_view();
    let groups = group_file_info(copied(file_info));
    let ghost parts = runs(all, info_folder());
    proof {
        law_runs_cut_where_the_key_changes(all, info_folder());
        lemma_runs_keep(
            all,
            info_folder(),
            |info: InfoModel| is_on_scale(info.file.year, info.file.month),
        );
        assert forall|i: int| 0 <= i < parts.len() implies all_on_scale(#[trigger] parts[i]) by {
            assert forall|j: int| 0 <= j < parts[i].len() implies is_on_scale(
                (#[trigger] parts[i][j]).file.year,
                parts[i][j].file.month,
            ) by {}
        }
    }
    let mut lines: Vec<String> = Vec::new();
    let mut index: usize = 0;
    assert(lines.deep_view() =~= gap_warnings(parts.take(0)));
    while index < groups.len()
        invariant
            groups.deep_view() == parts,
            forall|i: int| 0 <= i < parts.len() ==> all_on_scale(#[trigger] parts[i]),
            forall|i: int| 0 <= i < parts.len() ==> (#[trigger] parts[i]).len() > 0,
            index <= groups@.len(),
            lines.deep_view() == gap_warnings(parts.take(index as int)),
        decreases groups.len() - index,
    {
        let ghost before = lines.deep_view();
        let group = &groups[index];
        assert(parts[index as int] == group.deep_view());
        assert(parts.take(index + 1).drop_last() =~= parts.take(index as int));
        let missing = find_missing_months(group.as_slice());
        if missing.len() > 0 {
            let mut line = "\nWARNING: ".to_owned();
            line.append(group[0].file.folder.as_str());
            line.append(" is missing ");
            let count = decimal_text(missing.len() as u64);
            line.append(count.as_str());
            line.append(" month");
            line.append(plural(missing.len()));
            line.append(" between first and last file: ");
            let months = enumerate(&missing);
            line.append(months.as_str());
            lines.push(line);
            lines.push(
                "         Carryover will continue across the gap, but the missing month data is not being processed.".to_owned(),
            );
        }
        assert(lines.deep_view() =~= before + gap_lines(parts[index as int]));
        index += 1;
    }
    assert(parts.take(index as int) =~= parts);
    lines
}

/// What is counted: each file that is passed over, each file that is converted
/// and too wide, and each file that is too wide. One file more adds itself, where
/// it is such a file, and nothing else.
pub proof fn law_warnings_count_files(infos: Seq<InfoModel>, info: InfoModel, expected_columns: nat)
    ensures
        ({
            let to_do = match info.auto_processable {
                Some(decided) => decided,
                None => match info.max_columns {
                    Some(max_columns) => max_columns <= expected_columns,
                    None => true,
                },
            };
            let wide = match info.max_columns {
                Some(max_columns) => max_columns > expected_columns,
                None => false,
            };
            let one = |counts: bool|
                if counts {
                    1nat
                } else {
                    0nat
                };
            &&& skipped_count(seq![], expected_columns) == 0
            &&& selected_extra_count(seq![], expected_columns) == 0
            &&& extra_count(seq![], expected_columns) == 0
            &&& skipped_count(infos.push(info), expected_columns) == skipped_count(
                infos,
                expected_columns,
            ) + one(!to_do)
            &&& selected_extra_count(infos.push(info), expected_columns) == selected_extra_count(
                infos,
                expected_columns,
            ) + one(to_do && wide)
            &&& extra_count(infos.push(info), expected_columns) == extra_count(
                infos,
                expected_columns,
            ) + one(wide)
        }),
{
    reveal(Seq::filter);
    lemma_filter_push(infos, info, |other: InfoModel| !is_to_do(other, expected_columns));
    lemma_filter_push(
        infos,
        info,
        |other: InfoModel| is_to_do(other, expected_columns) && is_wide(other, expected_columns),
    );
    lemma_filter_push(infos, info, |other: InfoModel| is_wide(other, expected_columns));
}

/// What is pointed out about columns, word by word: under the automatic
/// selection how many files are passed over and how many of the others lose
/// columns, else how many files lose columns; nothing where there is none.
pub proof fn law_column_warnings_tell_the_counts(
    infos: Seq<InfoModel>,
    auto_inspect_mode: AutoInspectMode,
    expected_columns: nat,
)
    ensures
        ({
            let skipped = skipped_count(infos, expected_columns);
            let selected = selected_extra_count(infos, expected_columns);
            let extra = extra_count(infos, expected_columns);
            let ending = |count: nat|
                if count == 1 {
                    ""@
                } else {
                    "s"@
                };
            &&& column_warnings(infos, SelectionMode::All, auto_inspect_mode, expected_columns)
                == if extra == 0 {
                seq![]
            } else {
                seq![
                    "\nWARNING: processing "@ + decimal(extra) + " file"@ + ending(extra)
                        + " with more than "@ + decimal(expected_columns)
                        + " columns; extra columns will be dropped before RSI values are appended."@,
                ]
            }
            &&& column_warnings(infos, SelectionMode::Auto, auto_inspect_mode, expected_columns)
                == (if skipped == 0 {
                seq![]
            } else {
                seq![
                    "\nAuto mode: skipped "@ + decimal(skipped) + " file"@ + ending(skipped)
                        + " whose "@ + (match auto_inspect_mode {
                        AutoInspectMode::FirstRow => "first row"@,
                        AutoInspectMode::LastRow => "last row"@,
                    }) + " already has all requested RSI columns filled."@,
                ]
            }) + (if selected == 0 {
                seq![]
            } else {
                seq![
                    "\nWARNING: processing "@ + decimal(selected) + " selected file"@ + ending(
                        selected,
                    ) + " with rows over "@ + decimal(expected_columns)
                        + " columns; extra columns will be dropped before RSI values are appended."@,
                ]
            })
        }),
{
}

/// What is pointed out about missing months: directory after directory, how many
/// there are and which, and what that means; nothing of a directory without a
/// gap.
pub proof fn law_gap_warnings_tell_every_gap(
    groups: Seq<Seq<InfoModel>>,
    run: Seq<InfoModel>,
)
    ensures
        gap_warnings(seq![]) == Seq::<Seq<char>>::empty(),
        missing_months(run).len() == 0 ==> gap_warnings(groups.push(run)) == gap_warnings(groups),
        missing_months(run).len() > 0 ==> gap_warnings(groups.push(run)) == gap_warnings(groups)
            + seq![
            "\nWARNING: "@ + run[0].file.folder + " is missing "@ + decimal(
                missing_months(run).len(),
            ) + " month"@ + (if missing_months(run).len() == 1 {
                ""@
            } else {
                "s"@
            }) + " between first and last file: "@ + enumerated(missing_months(run)),
            "         Carryover will continue across the gap, but the missing month data is not being processed."@,
        ],
{
    assert(groups.push(run).drop_last() =~= groups);
    assert(gap_warnings(groups) + seq![] =~= gap_warnings(groups));
}

/// An enumeration puts a comma and a space between two texts.
pub proof fn law_an_enumeration_has_commas_between(texts: Seq<Seq<char>>, text: Seq<char>)
    ensures
        enumerated(seq![]) == Seq::<char>::empty(),
        enumerated(seq![text]) == text,
        texts.len() > 0 ==> enumerated(texts.push(text)) == enumerated(texts) + ", "@ + text,
{
    assert(texts.push(text).drop_last() =~= texts);
}

}
