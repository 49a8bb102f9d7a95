//! Runs of files that stand in one directory.
use vstd::prelude::*;
use vstd::slice::slice_subrange;

use crate::files::{
    file_before, is_sorted, lemma_parts_order, parts_before, FileInfo, InfoModel, InputFile,
    InputModel,
};

verus! {

/// The items in runs of neighbours with the same key.
pub open spec fn runs<T>(items: Seq<T>, key: spec_fn(T) -> Seq<Seq<u8>>) -> Seq<Seq<T>>
    decreases items.len(),
{
    if items.len() == 0 {
        seq![]
    } else {
        let earlier = runs(items.drop_last(), key);
        if earlier.len() > 0 && key(earlier.last()[0]) == key(items.last()) {
            earlier.drop_last().push(earlier.last().push(items.last()))
        } else {
            earlier.push(seq![items.last()])
        }
    }
}

/// The directory of an inspected file.
pub open spec fn info_folder() -> spec_fn(InfoModel) -> Seq<Seq<u8>> {
    |info: InfoModel| info.file.group.parts
}

/// The directory of a file.
pub open spec fn input_folder() -> spec_fn(InputModel) -> Seq<Seq<u8>> {
    |file: InputModel| file.group.parts
}

/// What the runs are: cut at the places where the key changes, and put back
/// together they are the items.
pub proof fn law_runs_cut_where_the_key_changes<T>(
    items: Seq<T>,
    key: spec_fn(T) -> Seq<Seq<u8>>,
)
    ensures
        runs(items, key).flatten() == items,
        forall|i: int| 0 <= i < runs(items, key).len() ==> (#[trigger] runs(items, key)[i]).len() > 0,
        forall|i: int, j: int|
            0 <= i < runs(items, key).len() && 0 <= j < runs(items, key)[i].len() ==> key(
                #[trigger] runs(items, key)[i][j],
            ) == key(runs(items, key)[i][0]),
        forall|i: int|
            0 <= i < runs(items, key).len() - 1 ==> key((#[trigger] runs(items, key)[i])[0]) != key(
                runs(items, key)[i + 1][0],
            ),
    decreases items.len(),
{
    let groups = runs(items, key);
    if items.len() == 0 {
        assert(groups.flatten() =~= items);
    } else {
        law_runs_cut_where_the_key_changes(items.drop_last(), key);
        let earlier = runs(items.drop_last(), key);
        let item = items.last();
        if earlier.len() > 0 && key(earlier.last()[0]) == key(item) {
            let head = earlier.drop_last();
            let tail = earlier.last();
            assert(earlier =~= head.push(tail));
            head.lemma_flatten_push(tail);
            head.lemma_flatten_push(tail.push(item));
            assert(groups == head.push(tail.push(item)));
            assert(head.flatten() + tail == items.drop_last());
            assert(groups.flatten() =~= (head.flatten() + tail).push(item));
            assert(items =~= items.drop_last().push(item));
            assert forall|i: int, j: int|
                0 <= i < groups.len() && 0 <= j < groups[i].len() implies key(
                #[trigger] groups[i][j],
            ) == key(groups[i][0]) by {
                if i < head.len() {
                    assert(groups[i] == earlier[i]);
                    assert(key(earlier[i][j]) == key(earlier[i][0]));
                } else if j < tail.len() {
                    assert(key(earlier[i][j]) == key(earlier[i][0]));
                }
            }
            assert forall|i: int| 0 <= i < groups.len() - 1 implies key((#[trigger] groups[i])[0])
                != key(groups[i + 1][0]) by {
                assert(groups[i] == earlier[i]);
                assert(groups[i + 1][0] == earlier[i + 1][0]);
            }
        } else {
            earlier.lemma_flatten_push(seq![item]);
            assert(groups.flatten() =~= items.drop_last().push(item));
            assert(items =~= items.drop_last().push(item));
            assert forall|i: int, j: int|
                0 <= i < groups.len() && 0 <= j < groups[i].len() implies key(
                #[trigger] groups[i][j],
            ) == key(groups[i][0]) by {
                if i < earlier.len() {
                    assert(key(earlier[i][j]) == key(earlier[i][0]));
                }
            }
            assert forall|i: int| 0 <= i < groups.len() - 1 implies key((#[trigger] groups[i])[0])
                != key(groups[i + 1][0]) by {
                assert(groups[i] == earlier[i]);
                if i + 1 < earlier.len() {
                    assert(groups[i + 1] == earlier[i + 1]);
                }
            }
        }
    }
}

/// The files in runs of neighbours from one directory.
pub fn group_file_info(file_info: Vec<FileInfo>) -> (groups: Vec<Vec<FileInfo>>)
    ensures
        groups.deep_view() == runs(file_info.deep_view(), info_folder()),
{
    let ghost all = file_info.deep_view();
    let mut groups: Vec<Vec<FileInfo>> = Vec::new();
    let mut current: Vec<FileInfo> = Vec::new();
    for info in iter: file_info.into_iter()
        invariant
            iter.seq() == file_info@,
            all == file_info.deep_view(),
            iter.index() == 0 ==> current@.len() == 0 && groups@.len() == 0,
            iter.index() > 0 ==> current@.len() > 0 && runs(
                all.take(iter.index()),
                info_folder(),
            ) == groups.deep_view().push(current.deep_view()),
    {
        let ghost seen = all.take(iter.index());
        let ghost longer = all.take(iter.index() + 1);
        assert(longer.drop_last() =~= seen);
        assert(longer.last() == info.deep_view());
        let ghost earlier = groups.deep_view();
        let ghost run = current.deep_view();
        let ghost next = info.deep_view();
        assert(earlier.push(run).drop_last() =~= earlier);
        if current.len() > 0 && current[0].file.group.same(&info.file.group) {
            current.push(info);
            assert(current.deep_view() =~= run.push(next));
        } else {
            if current.len() > 0 {
                groups.push(current);
                assert(groups.deep_view() =~= earlier.push(run));
            }
            current = Vec::new();
            current.push(info);
            assert(current.deep_view() =~= seq![next]);
        }
        assert(seen.len() == 0 ==> groups.deep_view() =~= runs(seen, info_folder()));
        assert(runs(longer, info_folder()) =~= groups.deep_view().push(current.deep_view()));
    }
    assert(all.take(all.len() as int) =~= all);
    if current.len() > 0 {
        groups.push(current);
    }
    groups
}

/// The files in runs of neighbours from one directory, as parts of the slice.
pub fn group_input_files_by_folder<'a>(files: &'a [InputFile]) -> (groups: Vec<&'a [InputFile]>)
    ensures
        groups.deep_view() == runs(files.deep_view(), input_folder()),
{
    let ghost all = files.deep_view();
    let ghost key = input_folder();
    let mut groups: Vec<&'a [InputFile]> = Vec::new();
    let mut start: usize = 0;
    assert(groups.deep_view() =~= runs(all.take(0), key));
    while start < files.len()
        invariant
            all == files.deep_view(),
            key == input_folder(),
            start <= files@.len(),
            runs(all.take(start as int), key) == groups.deep_view(),
            start < files@.len() && groups@.len() > 0 ==> key(groups.deep_view().last()[0]) != key(
                all[start as int],
            ),
        decreases files.len() - start,
    {
        let ghost earlier = groups.deep_view();
        let mut end: usize = start + 1;
        assert(all.take(end as int).drop_last() =~= all.take(start as int));
        assert(all.subrange(start as int, end as int) =~= seq![all[start as int]]);
        while end < files.len() && files[end].group.same(&files[start].group)
            invariant
                all == files.deep_view(),
                key == input_folder(),
                start < end <= files@.len(),
                runs(all.take(end as int), key) == earlier.push(
                    all.subrange(start as int, end as int),
                ),
            decreases files.len() - end,
        {
            let ghost run = all.subrange(start as int, end as int);
            assert(all.take(end + 1).drop_last() =~= all.take(end as int));
            assert(run.push(all[end as int]) =~= all.subrange(start as int, end + 1));
            assert(earlier.push(run).drop_last() =~= earlier);
            end += 1;
        }
        let group = slice_subrange(files, start, end);
        assert(group.deep_view() =~= all.subrange(start as int, end as int));
        groups.push(group);
        assert(groups.deep_view() =~= earlier.push(all.subrange(start as int, end as int)));
        start = end;
    }
    assert(all.take(all.len() as int) =~= all);
    groups
}

/// The left file is of the same month as the right one or of an earlier month.
pub open spec fn is_no_later(left: InputModel, right: InputModel) -> bool {
    left.year < right.year || left.year == right.year && left.month <= right.month
}

/// Files in order: every directory is one run, no matter how many directories
/// there are, and within a run the months follow each other in time.
pub proof fn law_sorted_files_run_by_month<T>(
    items: Seq<T>,
    file: spec_fn(T) -> InputModel,
    key: spec_fn(T) -> Seq<Seq<u8>>,
)
    requires
        is_sorted(items.map_values(file)),
        forall|item: T| #[trigger] key(item) == file(item).group.parts,
    ensures
        forall|i: int, j: int|
            0 <= i < j < runs(items, key).len() ==> key((#[trigger] runs(items, key)[i])[0]) != key(
                (#[trigger] runs(items, key)[j])[0],
            ),
        forall|i: int, j: int, k: int|
            0 <= i < runs(items, key).len() && 0 <= j < k < runs(items, key)[i].len()
                ==> is_no_later(
                file(#[trigger] runs(items, key)[i][j]),
                file(#[trigger] runs(items, key)[i][k]),
            ),
{
    lemma_runs_of_sorted(items, file, key);
    let groups = runs(items, key);
    assert forall|i: int, j: int| 0 <= i < j < groups.len() implies key((#[trigger] groups[i])[0])
        != key((#[trigger] groups[j])[0]) by {
        assert(parts_before(key(groups[i][0]), key(groups[j][0])));
        lemma_parts_order(key(groups[i][0]), key(groups[i][0]), key(groups[i][0]));
    }
}

proof fn lemma_runs_of_sorted<T>(
    items: Seq<T>,
    file: spec_fn(T) -> InputModel,
    key: spec_fn(T) -> Seq<Seq<u8>>,
)
    requires
        is_sorted(items.map_values(file)),
        forall|item: T| #[trigger] key(item) == file(item).group.parts,
    ensures
        items.len() > 0 ==> {
            &&& runs(items, key).len() > 0
            &&& runs(items, key).last().len() > 0
            &&& key(runs(items, key).last()[0]) == key(items.last())
            &&& runs(items, key).last().last() == items.last()
        },
        forall|i: int, j: int|
            0 <= i < j < runs(items, key).len() ==> parts_before(
                key((#[trigger] runs(items, key)[i])[0]),
                key((#[trigger] runs(items, key)[j])[0]),
            ),
        forall|i: int, j: int, k: int|
            0 <= i < runs(items, key).len() && 0 <= j < k < runs(items, key)[i].len()
                ==> is_no_later(
                file(#[trigger] runs(items, key)[i][j]),
                file(#[trigger] runs(items, key)[i][k]),
            ),
    decreases items.len(),
{
    if items.len() > 0 {
        let front = items.drop_last();
        let item = items.last();
        let models = items.map_values(file);
        assert forall|i: int, j: int| 0 <= i < j < front.len() implies !file_before(
            #[trigger] front.map_values(file)[j],
            #[trigger] front.map_values(file)[i],
        ) by {
            assert(front.map_values(file)[i] == models[i]);
            assert(front.map_values(file)[j] == models[j]);
        }
        lemma_runs_of_sorted(front, file, key);
        let earlier = runs(front, key);
        let groups = runs(items, key);
        if front.len() > 0 {
            let previous = front.last();
            assert(models[items.len() - 2] == file(previous));
            assert(models[items.len() - 1] == file(item));
            assert(!file_before(file(item), file(previous)));
            if key(earlier.last()[0]) == key(item) {
                let run = earlier.last();
                assert(is_no_later(file(previous), file(item)));
                assert forall|i: int, j: int| 0 <= i < j < groups.len() implies parts_before(
                    key((#[trigger] groups[i])[0]),
                    key((#[trigger] groups[j])[0]),
                ) by {
                    assert(groups[i][0] == earlier[i][0]);
                    assert(groups[j][0] == earlier[j][0]);
                }
                assert forall|i: int, j: int, k: int|
                    0 <= i < groups.len() && 0 <= j < k < groups[i].len() implies is_no_later(
                    file(#[trigger] groups[i][j]),
                    file(#[trigger] groups[i][k]),
                ) by {
                    assert(groups[i][j] == earlier[i][j]);
                    if i < groups.len() - 1 || k < run.len() {
                        assert(groups[i][k] == earlier[i][k]);
                    } else {
                        assert(groups[i][k] == item);
                        if j < run.len() - 1 {
                            assert(is_no_later(file(earlier[i][j]), file(earlier[i][run.len() - 1])));
                        }
                    }
                }
            } else {
                lemma_parts_order(key(previous), key(item), key(item));
                assert(parts_before(key(previous), key(item)));
                assert forall|i: int, j: int| 0 <= i < j < groups.len() implies parts_before(
                    key((#[trigger] groups[i])[0]),
                    key((#[trigger] groups[j])[0]),
                ) by {
                    assert(groups[i] == earlier[i]);
                    if j < earlier.len() {
                        assert(groups[j] == earlier[j]);
                    } else if i < earlier.len() - 1 {
                        assert(parts_before(key(earlier[i][0]), key(earlier.last()[0])));
                        lemma_parts_order(key(earlier[i][0]), key(previous), key(item));
                    }
                }
                assert forall|i: int, j: int, k: int|
                    0 <= i < groups.len() && 0 <= j < k < groups[i].len() implies is_no_later(
                    file(#[trigger] groups[i][j]),
                    file(#[trigger] groups[i][k]),
                ) by {
                    assert(groups[i] == earlier[i]);
                    assert(is_no_later(file(earlier[i][j]), file(earlier[i][k])));
                }
            }
        } else {
            assert(earlier =~= seq![]);
        }
    }
}

}
