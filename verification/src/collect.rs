//! The input files among what directories hold.
use vstd::prelude::*;

use crate::files::{
    is_sorted, is_stable_rearrangement, sort_input_files, FsPath, InputFile, InputModel,
};
use crate::names::{
    law_a_name_names_one_month, month_named, names_month, parse_input_filename,
};

verus! {

/// What a directory holds, as far as it was read.
pub struct Listing {
    /// The directory.
    pub path: FsPath,
    /// The directory as it is shown to people.
    pub folder: String,
    /// What stands in it.
    pub entries: Vec<Entry>,
}

/// One thing that stands in a directory.
pub enum Entry {
    /// A file, and its position among all files that were read.
    File(FsPath, usize),
    /// A directory.
    Folder(Listing),
    /// Anything else.
    Other,
}

/// The input file that a file of the directory is, if its name is that of a
/// month of the table with the prefix and the interval.
pub open spec fn as_input(
    path: FsPath,
    source: usize,
    listing: Listing,
    prefix: Seq<char>,
    interval: Seq<char>,
) -> Option<InputModel> {
    match path.deep_view().name {
        Some(name) => match month_named(name, prefix, interval) {
            Some((year, month)) => Some(
                InputModel {
                    path: path.deep_view(),
                    group: listing.path.deep_view(),
                    folder: listing.folder@,
                    source,
                    year,
                    month,
                },
            ),
            None => None,
        },
        None => None,
    }
}

/// The input files of one table among the entries of a directory.
pub open spec fn listed(
    entries: Seq<Entry>,
    listing: Listing,
    prefix: Seq<char>,
    interval: Seq<char>,
) -> Seq<InputModel>
    decreases entries.len(),
{
    if entries.len() == 0 {
        seq![]
    } else {
        let earlier = listed(entries.drop_last(), listing, prefix, interval);
        match entries.last() {
            Entry::File(path, source) => match as_input(
                path,
                source,
                listing,
                prefix,
                interval,
            ) {
                Some(input) => earlier.push(input),
                None => earlier,
            },
            _ => earlier,
        }
    }
}

/// The input files in a directory and in the directories below it, where the
/// name of a directory is the prefix of the files in it.
pub open spec fn found(listing: Listing, interval: Seq<char>) -> Seq<InputModel>
    decreases listing,
{
    found_among(listing.entries@, listing, interval)
}

/// The input files among the first entries of a directory, and below them.
pub open spec fn found_among(entries: Seq<Entry>, listing: Listing, interval: Seq<char>) -> Seq<
    InputModel,
>
    decreases entries,
{
    if entries.len() == 0 {
        seq![]
    } else {
        let earlier = found_among(entries.drop_last(), listing, interval);
        match entries.last() {
            Entry::File(path, source) => match listing.path.deep_view().name {
                Some(prefix) => match as_input(path, source, listing, prefix, interval) {
                    Some(input) => earlier.push(input),
                    None => earlier,
                },
                None => earlier,
            },
            Entry::Folder(inner) => earlier + found(inner, interval),
            Entry::Other => earlier,
        }
    }
}

/// A file whose name is that of its month, in the table that `prefix` and
/// `interval` name.
pub open spec fn is_named_for_its_month(
    file: InputModel,
    prefix: Option<Seq<char>>,
    interval: Seq<char>,
) -> bool {
    match (file.path.name, prefix) {
        (Some(name), Some(start)) => names_month(name, start, interval, file.year, file.month),
        _ => false,
    }
}

proof fn lemma_listed(
    entries: Seq<Entry>,
    listing: Listing,
    prefix: Seq<char>,
    interval: Seq<char>,
    index: int,
)
    requires
        0 <= index < listed(entries, listing, prefix, interval).len(),
    ensures
        ({
            let file = listed(entries, listing, prefix, interval)[index];
            &&& is_named_for_its_month(file, Some(prefix), interval)
            &&& file.group == listing.path.deep_view()
        }),
    decreases entries.len(),
{
    if entries.len() > 0 {
        let earlier = listed(entries.drop_last(), listing, prefix, interval);
        if index < earlier.len() {
            lemma_listed(entries.drop_last(), listing, prefix, interval, index);
        }
    }
}

proof fn lemma_found_among(entries: Seq<Entry>, listing: Listing, interval: Seq<char>, index: int)
    requires
        0 <= index < found_among(entries, listing, interval).len(),
    ensures
        ({
            let file = found_among(entries, listing, interval)[index];
            is_named_for_its_month(file, file.group.name, interval)
        }),
    decreases entries,
{
    reveal_with_fuel(found, 2);
    reveal_with_fuel(found_among, 2);
    if entries.len() > 0 {
        let earlier = found_among(entries.drop_last(), listing, interval);
        if index < earlier.len() {
            lemma_found_among(entries.drop_last(), listing, interval, index);
        } else if let Entry::Folder(inner) = entries.last() {
            lemma_found_among(inner.entries@, inner, interval, index - earlier.len());
        }
    }
}

/// What holds of every file holds of every file of a rearrangement.
proof fn lemma_rearranged(
    before: Seq<InputModel>,
    after: Seq<InputModel>,
    index: int,
) -> (source: int)
    requires
        after.to_multiset() == before.to_multiset(),
        0 <= index < after.len(),
    ensures
        0 <= source < before.len(),
        before[source] == after[index],
{
    before.to_multiset_ensures();
    after.to_multiset_ensures();
    assert(after.contains(after[index]));
    assert(after.to_multiset().count(after[index]) > 0);
    assert(before.contains(after[index]));
    choose|source: int| 0 <= source < before.len() && before[source] == after[index]
}

/// The input file that a file of the directory is, if it is one.
fn to_input(path: &FsPath, source: usize, listing: &Listing, prefix: &str, interval: &str) -> (input:
    Option<InputFile>)
    ensures
        match as_input(*path, source, *listing, prefix@, interval@) {
            Some(model) => input matches Some(file) && file.deep_view() == model,
            None => input is None,
        },
{
    match &path.name {
        Some(name) => match parse_input_filename(name.as_str(), prefix, interval) {
            Some((year, month)) => Some(
                InputFile {
                    path: path.clone(),
                    group: listing.path.clone(),
                    folder: listing.folder.clone(),
                    source,
                    year,
                    month,
                },
            ),
            None => None,
        },
        None => None,
    }
}

/// The input files of one table in a directory, in order. What stands in the
/// directories below it does not count.
pub fn collect_input_files(listing: &Listing, prefix: &str, interval: &str) -> (files: Vec<
    InputFile,
>)
    ensures
        is_sorted(files.deep_view()),
        is_stable_rearrangement(
            listed(listing.entries@, *listing, prefix@, interval@),
            files.deep_view(),
        ),
        forall|i: int|
            0 <= i < files@.len() ==> is_named_for_its_month(
                #[trigger] files.deep_view()[i],
                Some(prefix@),
                interval@,
            ) && files.deep_view()[i].group == listing.path.deep_view(),
{
    let ghost entries = listing.entries@;
    let mut files: Vec<InputFile> = Vec::new();
    let mut index: usize = 0;
    assert(files.deep_view() =~= listed(entries.take(0), *listing, prefix@, interval@));
    while index < listing.entries.len()
        invariant
            entries == listing.entries@,
            index <= entries.len(),
            files.deep_view() == listed(
                entries.take(index as int),
                *listing,
                prefix@,
                interval@,
            ),
        decreases listing.entries.len() - index,
    {
        let ghost before = files.deep_view();
        assert(entries.take(index + 1).drop_last() =~= entries.take(index as int));
        if let Entry::File(path, source) = &listing.entries[index] {
            if let Some(file) = to_input(path, *source, listing, prefix, interval) {
                files.push(file);
                assert(files.deep_view() =~= before.push(file.deep_view()));
            }
        }
        index += 1;
    }
    assert(entries.take(index as int) =~= entries);
    let ghost unsorted = files.deep_view();
    sort_input_files(&mut files);
    proof {
        let sorted = files.deep_view();
        assert forall|i: int| 0 <= i < sorted.len() implies is_named_for_its_month(
            #[trigger] sorted[i],
            Some(prefix@),
            interval@,
        ) && sorted[i].group == listing.path.deep_view() by {
            let source = lemma_rearranged(unsorted, sorted, i);
            lemma_listed(entries, *listing, prefix@, interval@, source);
        }
    }
    files
}

/// Adds the input files in a directory and below it, as they are listed.
fn collect_all_input_files_into(listing: &Listing, interval: &str, files: &mut Vec<InputFile>)
    ensures
        final(files).deep_view() == old(files).deep_view() + found(*listing, interval@),
    decreases listing,
{
    let ghost entries = listing.entries@;
    let ghost start = files.deep_view();
    let mut index: usize = 0;
    assert(start + found_among(entries.take(0), *listing, interval@) =~= start);
    while index < listing.entries.len()
        invariant
            entries == listing.entries@,
            start == old(files).deep_view(),
            index <= entries.len(),
            files.deep_view() == start + found_among(
                entries.take(index as int),
                *listing,
                interval@,
            ),
        decreases listing.entries.len() - index,
    {
        let ghost before = files.deep_view();
        let ghost earlier = found_among(entries.take(index as int), *listing, interval@);
        assert(entries.take(index + 1).drop_last() =~= entries.take(index as int));
        match &listing.entries[index] {
            Entry::File(path, source) => {
                if let Some(prefix) = &listing.path.name {
                    if let Some(file) = to_input(
                        path,
                        *source,
                        listing,
                        prefix.as_str(),
                        interval,
                    ) {
                        files.push(file);
                        assert(files.deep_view() =~= before.push(file.deep_view()));
                        assert(files.deep_view() =~= start + earlier.push(file.deep_view()));
                    }
                }
            },
            Entry::Folder(inner) => {
                assert(decreases_to!(listing => listing.entries@[index as int]));
                collect_all_input_files_into(inner, interval, files);
                assert(files.deep_view() =~= start + (earlier + found(*inner, interval@)));
            },
            Entry::Other => {},
        }
        index += 1;
    }
    assert(entries.take(index as int) =~= entries);
}

/// The input files in a directory and in the directories below it, in order.
pub fn collect_all_input_files(listing: &Listing, interval: &str) -> (files: Vec<InputFile>)
    ensures
        is_sorted(files.deep_view()),
        is_stable_rearrangement(found(*listing, interval@), files.deep_view()),
        forall|i: int|
            0 <= i < files@.len() ==> is_named_for_its_month(
                #[trigger] files.deep_view()[i],
                files.deep_view()[i].group.name,
                interval@,
            ),
{
    let mut files: Vec<InputFile> = Vec::new();
    collect_all_input_files_into(listing, interval, &mut files);
    let ghost unsorted = files.deep_view();
    assert(unsorted =~= found(*listing, interval@));
    sort_input_files(&mut files);
    proof {
        let sorted = files.deep_view();
        assert forall|i: int| 0 <= i < sorted.len() implies is_named_for_its_month(
            #[trigger] sorted[i],
            sorted[i].group.name,
            interval@,
        ) by {
            let source = lemma_rearranged(unsorted, sorted, i);
            lemma_found_among(listing.entries@, *listing, interval@, source);
        }
    }
    files
}

/// A rearrangement holds what was there.
proof fn lemma_rearranged_holds(before: Seq<InputModel>, after: Seq<InputModel>, file: InputModel)
    requires
        after.to_multiset() == before.to_multiset(),
        before.contains(file),
    ensures
        after.contains(file),
{
    before.to_multiset_ensures();
    after.to_multiset_ensures();
    assert(before.to_multiset().count(file) > 0);
}

/// A file of the directory that names a month is listed.
proof fn lemma_listed_holds(
    entries: Seq<Entry>,
    listing: Listing,
    prefix: Seq<char>,
    interval: Seq<char>,
    index: int,
    name: Seq<char>,
    year: u32,
    month: u32,
)
    requires
        0 <= index < entries.len(),
        entries[index] matches Entry::File(path, _) && path.deep_view().name == Some(name),
        names_month(name, prefix, interval, year, month),
    ensures
        listed(entries, listing, prefix, interval).contains(
            InputModel {
                path: (entries[index]->File_0).deep_view(),
                group: listing.path.deep_view(),
                folder: listing.folder@,
                source: entries[index]->File_1,
                year,
                month,
            },
        ),
    decreases entries.len(),
{
    let file = InputModel {
        path: (entries[index]->File_0).deep_view(),
        group: listing.path.deep_view(),
        folder: listing.folder@,
        source: entries[index]->File_1,
        year,
        month,
    };
    let front = entries.drop_last();
    let earlier = listed(front, listing, prefix, interval);
    let all = listed(entries, listing, prefix, interval);
    if index < front.len() {
        lemma_listed_holds(front, listing, prefix, interval, index, name, year, month);
        let place = choose|place: int| 0 <= place < earlier.len() && earlier[place] == file;
        assert(all[place] == file);
    } else {
        let named = (year, month);
        assert(names_month(name, prefix, interval, named.0, named.1));
        let chosen = month_named(name, prefix, interval)->0;
        law_a_name_names_one_month(name, prefix, interval, named, chosen);
        assert(all[earlier.len() as int] == file);
    }
}

/// The search misses nothing: every file of the directory whose name names a
/// month of the table is among the files found, with that month.
pub proof fn law_every_month_is_found(
    listing: Listing,
    prefix: Seq<char>,
    interval: Seq<char>,
    files: Seq<InputModel>,
    index: int,
    name: Seq<char>,
    year: u32,
    month: u32,
)
    requires
        is_stable_rearrangement(listed(listing.entries@, listing, prefix, interval), files),
        0 <= index < listing.entries@.len(),
        listing.entries@[index] matches Entry::File(path, _) && path.deep_view().name == Some(name),
        names_month(name, prefix, interval, year, month),
    ensures
        files.contains(
            InputModel {
                path: (listing.entries@[index]->File_0).deep_view(),
                group: listing.path.deep_view(),
                folder: listing.folder@,
                source: listing.entries@[index]->File_1,
                year,
                month,
            },
        ),
{
    lemma_listed_holds(
        listing.entries@,
        listing,
        prefix,
        interval,
        index,
        name,
        year,
        month,
    );
    lemma_rearranged_holds(
        listed(listing.entries@, listing, prefix, interval),
        files,
        InputModel {
            path: (listing.entries@[index]->File_0).deep_view(),
            group: listing.path.deep_view(),
            folder: listing.folder@,
            source: listing.entries@[index]->File_1,
            year,
            month,
        },
    );
}

/// An entry that is a file whose name names a month of the table.
pub open spec fn is_month_entry(entry: Entry, prefix: Seq<char>, interval: Seq<char>) -> bool {
    entry matches Entry::File(path, _) && path.deep_view().name matches Some(name) && exists|
        year: u32,
        month: u32,
    | #[trigger]
        names_month(name, prefix, interval, year, month)
}

/// The search adds nothing: each file found is a file of the directory, its name
/// names its month, and there are as many of them as the directory has such
/// files.
pub proof fn law_only_months_are_found(
    listing: Listing,
    prefix: Seq<char>,
    interval: Seq<char>,
    files: Seq<InputModel>,
)
    requires
        is_stable_rearrangement(listed(listing.entries@, listing, prefix, interval), files),
    ensures
        files.len() == listing.entries@.filter(
            |entry: Entry| is_month_entry(entry, prefix, interval),
        ).len(),
        forall|i: int|
            0 <= i < files.len() ==> exists|index: int|
                {
                    &&& 0 <= index < listing.entries@.len()
                    &&& #[trigger] listing.entries@[index] matches Entry::File(path, source)
                    &&& (#[trigger] files[i]).path == path.deep_view()
                    &&& files[i].source == source
                    &&& files[i].group == listing.path.deep_view()
                    &&& files[i].folder == listing.folder@
                    &&& path.deep_view().name matches Some(name)
                    &&& names_month(name, prefix, interval, files[i].year, files[i].month)
                },
{
    let entries = listing.entries@;
    let unsorted = listed(entries, listing, prefix, interval);
    unsorted.to_multiset_ensures();
    files.to_multiset_ensures();
    lemma_listed_count(entries, listing, prefix, interval);
    assert forall|i: int| 0 <= i < files.len() implies exists|index: int|
        {
            &&& 0 <= index < entries.len()
            &&& #[trigger] entries[index] matches Entry::File(path, source)
            &&& (#[trigger] files[i]).path == path.deep_view()
            &&& files[i].source == source
            &&& files[i].group == listing.path.deep_view()
            &&& files[i].folder == listing.folder@
            &&& path.deep_view().name matches Some(name)
            &&& names_month(name, prefix, interval, files[i].year, files[i].month)
        } by {
        let source = lemma_rearranged(unsorted, files, i);
        let index = lemma_listed_entry(entries, listing, prefix, interval, source);
        assert(entries[index] is File);
    }
}

/// The entry that a listed file is.
proof fn lemma_listed_entry(
    entries: Seq<Entry>,
    listing: Listing,
    prefix: Seq<char>,
    interval: Seq<char>,
    place: int,
) -> (index: int)
    requires
        0 <= place < listed(entries, listing, prefix, interval).len(),
    ensures
        0 <= index < entries.len(),
        ({
            let file = listed(entries, listing, prefix, interval)[place];
            &&& entries[index] matches Entry::File(path, source)
            &&& file.path == path.deep_view()
            &&& file.source == source
            &&& file.group == listing.path.deep_view()
            &&& file.folder == listing.folder@
            &&& path.deep_view().name matches Some(name)
            &&& names_month(name, prefix, interval, file.year, file.month)
        }),
    decreases entries.len(),
{
    let front = entries.drop_last();
    let earlier = listed(front, listing, prefix, interval);
    if place < earlier.len() {
        lemma_listed_entry(front, listing, prefix, interval, place)
    } else {
        entries.len() - 1
    }
}

/// As many files are listed as entries name a month.
proof fn lemma_listed_count(
    entries: Seq<Entry>,
    listing: Listing,
    prefix: Seq<char>,
    interval: Seq<char>,
)
    ensures
        listed(entries, listing, prefix, interval).len() == entries.filter(
            |entry: Entry| is_month_entry(entry, prefix, interval),
        ).len(),
    decreases entries.len(),
{
    let keep = |entry: Entry| is_month_entry(entry, prefix, interval);
    reveal(Seq::filter);
    if entries.len() > 0 {
        lemma_listed_count(entries.drop_last(), listing, prefix, interval);
        if let Entry::File(path, source) = entries.last() {
            if let Some(name) = path.deep_view().name {
                if is_month_entry(entries.last(), prefix, interval) {
                    let (year, month) = choose|year: u32, month: u32| #[trigger]
                        names_month(name, prefix, interval, year, month);
                    let named = (year, month);
                    assert(names_month(name, prefix, interval, named.0, named.1));
                } else if month_named(name, prefix, interval) is Some {
                    let named = month_named(name, prefix, interval)->0;
                    assert(names_month(name, prefix, interval, named.0, named.1));
                }
            }
        }
    }
}

/// `folder` is the directory `listing` or stands somewhere below it.
pub open spec fn reaches(listing: Listing, folder: Listing) -> bool
    decreases listing,
{
    listing == folder || reaches_among(listing.entries@, folder)
}

/// `folder` is one of the entries or stands somewhere below one.
pub open spec fn reaches_among(entries: Seq<Entry>, folder: Listing) -> bool
    decreases entries,
{
    entries.len() > 0 && {
        ||| reaches_among(entries.drop_last(), folder)
        ||| (entries.last() matches Entry::Folder(inner) && reaches(inner, folder))
    }
}

/// A file of a directory below that names a month is found.
proof fn lemma_found_holds(
    entries: Seq<Entry>,
    listing: Listing,
    interval: Seq<char>,
    folder: Listing,
    file: InputModel,
)
    requires
        reaches_among(entries, folder),
        found_among(folder.entries@, folder, interval).contains(file),
    ensures
        found_among(entries, listing, interval).contains(file),
    decreases entries,
{
    reveal_with_fuel(found, 2);
    reveal_with_fuel(found_among, 2);
    reveal_with_fuel(reaches, 2);
    reveal_with_fuel(reaches_among, 2);
    let front = entries.drop_last();
    let earlier = found_among(front, listing, interval);
    let all = found_among(entries, listing, interval);
    if reaches_among(front, folder) {
        lemma_found_holds(front, listing, interval, folder, file);
        let place = choose|place: int| 0 <= place < earlier.len() && earlier[place] == file;
        assert(all[place] == file);
    } else {
        let inner = entries.last()->Folder_0;
        let inside = found_among(inner.entries@, inner, interval);
        if inner != folder {
            assert(decreases_to!(entries => entries[entries.len() - 1]));
            lemma_found_holds(inner.entries@, inner, interval, folder, file);
        }
        let place = choose|place: int| 0 <= place < inside.len() && inside[place] == file;
        assert(all == earlier + inside);
        assert(all[earlier.len() + place] == file);
    }
}

/// A file of the directory itself that names a month is found.
proof fn lemma_found_here(
    entries: Seq<Entry>,
    listing: Listing,
    interval: Seq<char>,
    index: int,
    prefix: Seq<char>,
    name: Seq<char>,
    year: u32,
    month: u32,
)
    requires
        0 <= index < entries.len(),
        listing.path.deep_view().name == Some(prefix),
        entries[index] matches Entry::File(path, _) && path.deep_view().name == Some(name),
        names_month(name, prefix, interval, year, month),
    ensures
        found_among(entries, listing, interval).contains(
            InputModel {
                path: (entries[index]->File_0).deep_view(),
                group: listing.path.deep_view(),
                folder: listing.folder@,
                source: entries[index]->File_1,
                year,
                month,
            },
        ),
    decreases entries.len(),
{
    reveal_with_fuel(found_among, 2);
    let file = InputModel {
        path: (entries[index]->File_0).deep_view(),
        group: listing.path.deep_view(),
        folder: listing.folder@,
        source: entries[index]->File_1,
        year,
        month,
    };
    let front = entries.drop_last();
    let earlier = found_among(front, listing, interval);
    let all = found_among(entries, listing, interval);
    if index < front.len() {
        lemma_found_here(front, listing, interval, index, prefix, name, year, month);
        let place = choose|place: int| 0 <= place < earlier.len() && earlier[place] == file;
        assert(all[place] == file);
    } else {
        let named = (year, month);
        assert(names_month(name, prefix, interval, named.0, named.1));
        let chosen = month_named(name, prefix, interval)->0;
        law_a_name_names_one_month(name, prefix, interval, named, chosen);
        assert(all[earlier.len() as int] == file);
    }
}

/// The search below a directory misses nothing: in the directory and in each
/// one below it, every file whose name names a month, with the name of its
/// directory as the prefix, is among the files found, with that month and that
/// directory.
pub proof fn law_every_month_below_is_found(
    listing: Listing,
    interval: Seq<char>,
    files: Seq<InputModel>,
    folder: Listing,
    index: int,
    prefix: Seq<char>,
    name: Seq<char>,
    year: u32,
    month: u32,
)
    requires
        is_stable_rearrangement(found(listing, interval), files),
        reaches(listing, folder),
        folder.path.deep_view().name == Some(prefix),
        0 <= index < folder.entries@.len(),
        folder.entries@[index] matches Entry::File(path, _) && path.deep_view().name == Some(name),
        names_month(name, prefix, interval, year, month),
    ensures
        files.contains(
            InputModel {
                path: (folder.entries@[index]->File_0).deep_view(),
                group: folder.path.deep_view(),
                folder: folder.folder@,
                source: folder.entries@[index]->File_1,
                year,
                month,
            },
        ),
{
    let file = InputModel {
        path: (folder.entries@[index]->File_0).deep_view(),
        group: folder.path.deep_view(),
        folder: folder.folder@,
        source: folder.entries@[index]->File_1,
        year,
        month,
    };
    reveal_with_fuel(found, 2);
    reveal_with_fuel(reaches, 2);
    lemma_found_here(
        folder.entries@,
        folder,
        interval,
        index,
        prefix,
        name,
        year,
        month,
    );
    if listing != folder {
        lemma_found_holds(listing.entries@, listing, interval, folder, file);
    }
    lemma_rearranged_holds(found(listing, interval), files, file);
}

/// `file` is the entry at `index` of a directory: a file whose name names its
/// month, with the name of the directory as the prefix.
pub open spec fn is_found_in(
    file: InputModel,
    folder: Listing,
    entries: Seq<Entry>,
    index: int,
    interval: Seq<char>,
) -> bool {
    &&& 0 <= index < entries.len()
    &&& entries[index] matches Entry::File(path, source)
    &&& file.path == path.deep_view()
    &&& file.source == source
    &&& file.group == folder.path.deep_view()
    &&& file.folder == folder.folder@
    &&& path.deep_view().name matches Some(name)
    &&& folder.path.deep_view().name matches Some(prefix)
    &&& names_month(name, prefix, interval, file.year, file.month)
}

/// Where a file that was found stands: in the directory itself, or in one below.
proof fn lemma_found_entry(
    entries: Seq<Entry>,
    listing: Listing,
    interval: Seq<char>,
    place: int,
) -> (home: (bool, Listing, int))
    requires
        0 <= place < found_among(entries, listing, interval).len(),
    ensures
        ({
            let file = found_among(entries, listing, interval)[place];
            let (is_here, folder, index) = home;
            if is_here {
                is_found_in(file, listing, entries, index, interval)
            } else {
                &&& reaches_among(entries, folder)
                &&& is_found_in(file, folder, folder.entries@, index, interval)
            }
        }),
    decreases entries,
{
    reveal_with_fuel(found, 2);
    reveal_with_fuel(found_among, 2);
    reveal_with_fuel(reaches, 2);
    reveal_with_fuel(reaches_among, 2);
    let front = entries.drop_last();
    let earlier = found_among(front, listing, interval);
    if place < earlier.len() {
        lemma_found_entry(front, listing, interval, place)
    } else {
        match entries.last() {
            Entry::Folder(inner) => {
                assert(decreases_to!(entries => entries[entries.len() - 1]));
                let (is_here, folder, index) = lemma_found_entry(
                    inner.entries@,
                    inner,
                    interval,
                    place - earlier.len(),
                );
                if is_here {
                    (false, inner, index)
                } else {
                    (false, folder, index)
                }
            },
            _ => (true, listing, entries.len() - 1),
        }
    }
}

/// The search below a directory adds nothing: each file found stands in the
/// directory or in one below it, and its name names its month, with the name of
/// its directory as the prefix.
pub proof fn law_only_months_below_are_found(
    listing: Listing,
    interval: Seq<char>,
    files: Seq<InputModel>,
    place: int,
)
    requires
        is_stable_rearrangement(found(listing, interval), files),
        0 <= place < files.len(),
    ensures
        exists|folder: Listing, index: int|
            reaches(listing, folder) && #[trigger] is_found_in(
                files[place],
                folder,
                folder.entries@,
                index,
                interval,
            ),
{
    reveal_with_fuel(found, 2);
    reveal_with_fuel(reaches, 2);
    let source = lemma_rearranged(found(listing, interval), files, place);
    let (is_here, folder, index) = lemma_found_entry(
        listing.entries@,
        listing,
        interval,
        source,
    );
    if is_here {
        assert(is_found_in(files[place], listing, listing.entries@, index, interval));
    } else {
        assert(is_found_in(files[place], folder, folder.entries@, index, interval));
    }
}

/// How many files in a directory and below it name a month, with the name of
/// their directory as the prefix.
pub open spec fn months_below(listing: Listing, interval: Seq<char>) -> nat
    decreases listing,
{
    months_among(listing.entries@, listing.path.deep_view().name, interval)
}

/// How many of the entries of a directory, and of what stands below them, name a
/// month.
pub open spec fn months_among(
    entries: Seq<Entry>,
    prefix: Option<Seq<char>>,
    interval: Seq<char>,
) -> nat
    decreases entries,
{
    if entries.len() == 0 {
        0
    } else {
        months_among(entries.drop_last(), prefix, interval) + match entries.last() {
            Entry::File(_, _) => if prefix matches Some(start) && is_month_entry(
                entries.last(),
                start,
                interval,
            ) {
                1
            } else {
                0
            },
            Entry::Folder(inner) => months_below(inner, interval),
            Entry::Other => 0,
        }
    }
}

proof fn lemma_found_count(entries: Seq<Entry>, listing: Listing, interval: Seq<char>)
    ensures
        found_among(entries, listing, interval).len() == months_among(
            entries,
            listing.path.deep_view().name,
            interval,
        ),
    decreases entries,
{
    reveal_with_fuel(found, 2);
    reveal_with_fuel(found_among, 2);
    reveal_with_fuel(months_below, 2);
    reveal_with_fuel(months_among, 2);
    if entries.len() > 0 {
        lemma_found_count(entries.drop_last(), listing, interval);
        match entries.last() {
            Entry::Folder(inner) => {
                assert(decreases_to!(entries => entries[entries.len() - 1]));
                lemma_found_count(inner.entries@, inner, interval);
            },
            Entry::File(path, source) => {
                if let (Some(prefix), Some(name)) = (
                    listing.path.deep_view().name,
                    path.deep_view().name,
                ) {
                    if is_month_entry(entries.last(), prefix, interval) {
                        let (year, month) = choose|year: u32, month: u32| #[trigger]
                            names_month(name, prefix, interval, year, month);
                        let named = (year, month);
                        assert(names_month(name, prefix, interval, named.0, named.1));
                    } else if month_named(name, prefix, interval) is Some {
                        let named = month_named(name, prefix, interval)->0;
                        assert(names_month(name, prefix, interval, named.0, named.1));
                    }
                }
            },
            Entry::Other => {},
        }
    }
}

/// The search below a directory finds each file once: as many files as name a
/// month there.
pub proof fn law_each_month_below_is_found_once(
    listing: Listing,
    interval: Seq<char>,
    files: Seq<InputModel>,
)
    requires
        is_stable_rearrangement(found(listing, interval), files),
    ensures
        files.len() == months_below(listing, interval),
{
    reveal_with_fuel(found, 2);
    reveal_with_fuel(months_below, 2);
    found(listing, interval).to_multiset_ensures();
    files.to_multiset_ensures();
    lemma_found_count(listing.entries@, listing, interval);
}

}
