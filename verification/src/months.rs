//! Months on one scale, and the months that a directory leaves out.
use std::collections::HashSet;

use vstd::prelude::*;

use crate::files::{FileInfo, InfoModel};
use crate::text::{decimal, decimal_text, digit, lemma_decimal_is_digits};

verus! {

/// The month's place on the scale of all months.
pub open spec fn index_of(year: int, month: int) -> int {
    year * 12 + (month - 1)
}

/// A month that has a place on the scale.
pub open spec fn is_on_scale(year: u32, month: u32) -> bool {
    1 <= month && index_of(year as int, month as int) <= u32::MAX
}

/// The place of the month that a file holds.
pub open spec fn month_of(info: InfoModel) -> int {
    index_of(info.file.year as int, info.file.month as int)
}

/// The months of all files have places on the scale.
pub open spec fn all_on_scale(infos: Seq<InfoModel>) -> bool {
    forall|i: int|
        0 <= i < infos.len() ==> is_on_scale(
            (#[trigger] infos[i]).file.year,
            infos[i].file.month,
        )
}

/// A place on the scale as year and month, the month with two digits.
pub open spec fn month_text(index: nat) -> Seq<char> {
    let month = index % 12 + 1;
    decimal(index / 12) + seq!['-', digit(month / 10), digit(month % 10)]
}

/// One of the files holds the month.
pub open spec fn is_present(infos: Seq<InfoModel>, index: int) -> bool {
    exists|i: int| 0 <= i < infos.len() && month_of(#[trigger] infos[i]) == index
}

/// The months from `start` to `end` that no file holds, in order.
pub open spec fn gaps(infos: Seq<InfoModel>, start: int, end: int) -> Seq<Seq<char>>
    decreases end - start + 1,
{
    if start > end {
        seq![]
    } else if is_present(infos, end) {
        gaps(infos, start, end - 1)
    } else {
        gaps(infos, start, end - 1).push(month_text(end as nat))
    }
}

/// The months between that of the first file and that of the last that no file
/// holds, in order.
pub open spec fn missing_months(infos: Seq<InfoModel>) -> Seq<Seq<char>> {
    if infos.len() == 0 {
        seq![]
    } else {
        gaps(infos, month_of(infos.first()), month_of(infos.last()))
    }
}

/// Whether the months of all files have places on the scale.
pub fn months_on_scale(file_info: &[FileInfo]) -> (result: bool)
    ensures
        result == all_on_scale(file_info.deep_view()),
        result == forall|i: int|
            0 <= i < file_info@.len() ==> (#[trigger] file_info@[i]).file.month >= 1
                && file_info@[i].file.year * 12 + file_info@[i].file.month - 1 <= u32::MAX,
{
    let ghost all = file_info.deep_view();
    let mut index: usize = 0;
    while index < file_info.len()
        invariant
            all == file_info.deep_view(),
            index <= file_info@.len(),
            forall|i: int|
                0 <= i < index ==> is_on_scale(
                    (#[trigger] all[i]).file.year,
                    all[i].file.month,
                ),
        decreases file_info.len() - index,
    {
        let file = &file_info[index].file;
        assert(all[index as int].file == file.deep_view());
        if file.month < 1 || file.year as u64 * 12 + (file.month as u64 - 1) > u32::MAX as u64 {
            assert(file_info@[index as int].file == *file);
            return false;
        }
        index += 1;
    }
    assert forall|i: int| 0 <= i < file_info@.len() implies (
    #[trigger] file_info@[i]).file.month >= 1 && file_info@[i].file.year * 12
        + file_info@[i].file.month - 1 <= u32::MAX by {
        assert(is_on_scale(all[i].file.year, all[i].file.month));
    }
    true
}

/// The month's place on the scale of all months.
pub fn month_index(year: u32, month: u32) -> (index: u32)
    requires
        is_on_scale(year, month),
    ensures
        index == index_of(year as int, month as int),
        index == year * 12 + month - 1,
{
    (year * 12) + (month - 1)
}

/// A place on the scale as year and month.
pub fn format_month_index(month_index: u32) -> (text: String)
    ensures
        text@ == month_text(month_index as nat),
{
    let year = month_index / 12;
    let month = (month_index % 12) + 1;
    let mut text = decimal_text(year as u64);
    text.push('-');
    if month < 10 {
        text.push('0');
    }
    let shown = decimal_text(month as u64);
    text.append(shown.as_str());
    proof {
        reveal_with_fuel(decimal, 2);
        assert(text@ =~= month_text(month_index as nat));
    }
    text
}

/// The months between that of the first file and that of the last that no file
/// holds.
pub fn find_missing_months(file_info: &[FileInfo]) -> (missing: Vec<String>)
    requires
        all_on_scale(file_info.deep_view()),
    ensures
        missing.deep_view() == missing_months(file_info.deep_view()),
{
    broadcast use vstd::std_specs::hash::group_hash_axioms;

    let ghost all = file_info.deep_view();
    let mut missing: Vec<String> = Vec::new();
    if file_info.len() == 0 {
        assert(missing.deep_view() =~= missing_months(all));
        return missing;
    }
    let mut present_months: HashSet<u32> = HashSet::new();
    let mut index: usize = 0;
    while index < file_info.len()
        invariant
            all == file_info.deep_view(),
            all_on_scale(all),
            index <= file_info@.len(),
            forall|month: u32| #[trigger]
                present_months@.contains(month) <==> is_present(all.take(index as int), month as int),
        decreases file_info.len() - index,
    {
        let ghost info = all[index as int];
        assert(is_on_scale(info.file.year, info.file.month));
        let month = month_index(file_info[index].file.year, file_info[index].file.month);
        present_months.insert(month);
        proof {
            let before = all.take(index as int);
            let after = all.take(index + 1);
            assert forall|other: u32| #[trigger]
                present_months@.contains(other) <==> is_present(after, other as int) by {
                if is_present(before, other as int) {
                    let i = choose|i: int|
                        0 <= i < before.len() && month_of(#[trigger] before[i]) == other;
                    assert(after[i] == before[i]);
                }
                if other == month {
                    assert(month_of(after[index as int]) == other);
                }
                if is_present(after, other as int) && other != month {
                    let i = choose|i: int|
                        0 <= i < after.len() && month_of(#[trigger] after[i]) == other;
                    assert(before[i] == after[i]);
                }
            }
        }
        index += 1;
    }
    assert(all.take(all.len() as int) =~= all);
    let first = &file_info[0].file;
    let last = &file_info[file_info.len() - 1].file;
    proof {
        assert(is_on_scale(all.first().file.year, all.first().file.month));
        assert(is_on_scale(all.last().file.year, all.last().file.month));
    }
    let start = month_index(first.year, first.month);
    let end = month_index(last.year, last.month);
    let mut month: u64 = start as u64;
    assert(missing.deep_view() =~= seq![]);
    while month <= end as u64
        invariant
            all == file_info.deep_view(),
            start <= month,
            month <= end + 1 || month == start,
            missing.deep_view() == gaps(all, start as int, month - 1),
            forall|other: u32| #[trigger]
                present_months@.contains(other) <==> is_present(all, other as int),
        decreases end + 1 - month,
    {
        let ghost before = missing.deep_view();
        if !present_months.contains(&(month as u32)) {
            let text = format_month_index(month as u32);
            missing.push(text);
            assert(missing.deep_view() =~= before.push(text@));
        }
        month += 1;
    }
    assert(start > end ==> gaps(all, start as int, start - 1) =~= gaps(
        all,
        start as int,
        end as int,
    ));
    missing
}

/// The scale has one place for each month of each year, and the place tells
/// both.
pub proof fn law_places_are_months(year: int, month: int)
    requires
        0 <= year,
        1 <= month <= 12,
    ensures
        index_of(year, month) / 12 == year,
        index_of(year, month) % 12 + 1 == month,
        month_text(index_of(year, month) as nat) == decimal(year as nat) + seq![
            '-',
            digit((month / 10) as nat),
            digit((month % 10) as nat),
        ],
{
}

/// Different months are written differently.
pub proof fn law_months_are_told_apart(left: nat, right: nat)
    requires
        month_text(left) == month_text(right),
    ensures
        left == right,
{
    let a = decimal(left / 12);
    let b = decimal(right / 12);
    let s = month_text(left);
    let n = s.len();
    assert(a =~= s.take(n - 3));
    assert(b =~= s.take(n - 3));
    lemma_decimal_is_digits(left / 12);
    lemma_decimal_is_digits(right / 12);
    assert(s[n - 2] == digit((left % 12 + 1) / 10) && s[n - 2] == digit((right % 12 + 1) / 10));
    assert(s[n - 1] == digit((left % 12 + 1) % 10) && s[n - 1] == digit((right % 12 + 1) % 10));
}

/// A month is reported missing exactly if it lies between the first file's
/// month and the last file's and no file holds it.
pub proof fn law_missing_months_are_the_gaps(infos: Seq<InfoModel>, month: nat)
    requires
        infos.len() > 0,
        all_on_scale(infos),
    ensures
        missing_months(infos).contains(month_text(month)) <==> {
            &&& month_of(infos.first()) <= month <= month_of(infos.last())
            &&& !is_present(infos, month as int)
        },
{
    assert(is_on_scale(infos[0].file.year, infos[0].file.month));
    lemma_gaps(infos, month_of(infos.first()), month_of(infos.last()), month);
}

proof fn lemma_gaps(infos: Seq<InfoModel>, start: int, end: int, month: nat)
    requires
        0 <= start,
    ensures
        gaps(infos, start, end).contains(month_text(month)) <==> {
            &&& start <= month <= end
            &&& !is_present(infos, month as int)
        },
    decreases end - start + 1,
{
    if start <= end {
        lemma_gaps(infos, start, end - 1, month);
        let earlier = gaps(infos, start, end - 1);
        if !is_present(infos, end) {
            let longer = earlier.push(month_text(end as nat));
            assert(longer[earlier.len() as int] == month_text(end as nat));
            if earlier.contains(month_text(month)) {
                let i = choose|i: int|
                    0 <= i < earlier.len() && earlier[i] == month_text(month);
                assert(longer[i] == month_text(month));
            }
            if longer.contains(month_text(month)) {
                let i = choose|i: int| 0 <= i < longer.len() && longer[i] == month_text(month);
                if i == earlier.len() {
                    law_months_are_told_apart(month, end as nat);
                } else {
                    assert(earlier[i] == month_text(month));
                }
            }
        }
    }
}

/// Nothing is reported missing exactly if every month between the first file's
/// and the last file's is there.
pub proof fn law_nothing_missing_means_no_gap(infos: Seq<InfoModel>)
    requires
        infos.len() > 0,
        all_on_scale(infos),
    ensures
        missing_months(infos).len() == 0 <==> forall|month: int|
            month_of(infos.first()) <= month <= month_of(infos.last()) ==> #[trigger] is_present(
                infos,
                month,
            ),
{
    let start = month_of(infos.first());
    let end = month_of(infos.last());
    assert(is_on_scale(infos[0].file.year, infos[0].file.month));
    if missing_months(infos).len() == 0 {
        assert forall|month: int| start <= month <= end implies #[trigger] is_present(
            infos,
            month,
        ) by {
            law_missing_months_are_the_gaps(infos, month as nat);
        }
    } else if forall|month: int| start <= month <= end ==> #[trigger] is_present(infos, month) {
        lemma_no_gaps(infos, start, end);
    }
}

proof fn lemma_no_gaps(infos: Seq<InfoModel>, start: int, end: int)
    requires
        forall|month: int| start <= month <= end ==> #[trigger] is_present(infos, month),
    ensures
        gaps(infos, start, end).len() == 0,
    decreases end - start + 1,
{
    if start <= end {
        assert(is_present(infos, end));
        lemma_no_gaps(infos, start, end - 1);
    }
}

/// Which months are reported missing, and how: each month between the first
/// file's and the last file's that no file holds, once, the earlier before the
/// later, as its year, a dash and its month in two digits.
pub proof fn law_missing_months_are_told_in_order(infos: Seq<InfoModel>) -> (months: Seq<nat>)
    requires
        all_on_scale(infos),
    ensures
        missing_months(infos).len() == months.len(),
        infos.len() == 0 ==> months.len() == 0,
        forall|i: int, j: int| 0 <= i < j < months.len() ==> #[trigger] months[i] < #[trigger] months[j],
        forall|i: int|
            #![trigger months[i]]
            0 <= i < months.len() ==> missing_months(infos)[i] == decimal(months[i] / 12) + seq![
                '-',
                digit((months[i] % 12 + 1) / 10),
                digit((months[i] % 12 + 1) % 10),
            ],
        infos.len() > 0 ==> forall|month: nat|
            #[trigger] months.contains(month) <==> {
                &&& infos[0].file.year * 12 + infos[0].file.month - 1 <= month
                &&& month <= infos[infos.len() - 1].file.year * 12 + infos[infos.len()
                    - 1].file.month - 1
                &&& forall|i: int|
                    0 <= i < infos.len() ==> (#[trigger] infos[i]).file.year * 12
                        + infos[i].file.month - 1 != month
            },
{
    if infos.len() == 0 {
        seq![]
    } else {
        assert(is_on_scale(infos[0].file.year, infos[0].file.month));
        lemma_gap_places(infos, month_of(infos.first()), month_of(infos.last()))
    }
}

proof fn lemma_gap_places(infos: Seq<InfoModel>, start: int, end: int) -> (months: Seq<nat>)
    requires
        0 <= start,
    ensures
        gaps(infos, start, end).len() == months.len(),
        forall|i: int, j: int| 0 <= i < j < months.len() ==> #[trigger] months[i] < #[trigger] months[j],
        forall|i: int|
            #![trigger months[i]]
            0 <= i < months.len() ==> gaps(infos, start, end)[i] == month_text(months[i]),
        forall|month: nat|
            #[trigger] months.contains(month) <==> {
                &&& start <= month <= end
                &&& forall|i: int|
                    0 <= i < infos.len() ==> (#[trigger] infos[i]).file.year * 12
                        + infos[i].file.month - 1 != month
            },
    decreases end - start + 1,
{
    if start > end {
        seq![]
    } else {
        let earlier = lemma_gap_places(infos, start, end - 1);
        assert forall|i: int| 0 <= i < earlier.len() implies #[trigger] earlier[i] <= end - 1 by {
            assert(earlier.contains(earlier[i]));
        }
        if is_present(infos, end) {
            let place = choose|i: int| 0 <= i < infos.len() && month_of(#[trigger] infos[i]) == end;
            assert(infos[place].file.year * 12 + infos[place].file.month - 1 == end);
            earlier
        } else {
            let months = earlier.push(end as nat);
            assert forall|i: int| 0 <= i < infos.len() implies (#[trigger] infos[i]).file.year * 12
                + infos[i].file.month - 1 != end by {
                assert(month_of(infos[i]) != end);
            }
            assert forall|month: nat| #[trigger] months.contains(month) <==> {
                &&& start <= month <= end
                &&& forall|i: int|
                    0 <= i < infos.len() ==> (#[trigger] infos[i]).file.year * 12
                        + infos[i].file.month - 1 != month
            } by {
                if earlier.contains(month) {
                    let i = choose|i: int| 0 <= i < earlier.len() && earlier[i] == month;
                    assert(months[i] == month);
                }
                if month == end {
                    assert(months[earlier.len() as int] == month);
                }
                if months.contains(month) && month != end {
                    let i = choose|i: int| 0 <= i < months.len() && months[i] == month;
                    assert(earlier[i] == month);
                }
            }
            months
        }
    }
}

}
