//! Input files: where they stand, which month they hold, in which order and in
//! which groups they are taken.
use vstd::prelude::*;

verus! {

/// A path, as far as the order of files and their names depend on it.
#[derive(Debug)]
pub struct FsPath {
    /// The bytes of each component, outermost first.
    pub parts: Vec<Vec<u8>>,
    /// The name of the file or directory at the end of the path, where there
    /// is one and it is text.
    pub name: Option<String>,
    /// That name without its extension, where there is one and it is text.
    pub stem: Option<String>,
}

/// What an [`FsPath`] holds.
#[verifier::ext_equal]
pub struct PathModel {
    /// The bytes of each component, outermost first.
    pub parts: Seq<Seq<u8>>,
    /// The name at the end of the path.
    pub name: Option<Seq<char>>,
    /// That name without its extension.
    pub stem: Option<Seq<char>>,
}

impl DeepView for FsPath {
    type V = PathModel;

    open spec fn deep_view(&self) -> PathModel {
        PathModel {
            parts: self.parts.deep_view(),
            name: self.name.deep_view(),
            stem: self.stem.deep_view(),
        }
    }
}

/// One monthly file.
#[derive(Debug)]
pub struct InputFile {
    /// The file.
    pub path: FsPath,
    /// The directory it stands in.
    pub group: FsPath,
    /// The directory as it is shown to people.
    pub folder: String,
    /// The position of the file in the listing that it was found in.
    pub source: usize,
    /// The year in the file's name.
    pub year: u32,
    /// The month in the file's name, from 1 to 12.
    pub month: u32,
}

/// What an [`InputFile`] holds.
#[verifier::ext_equal]
pub struct InputModel {
    /// The file.
    pub path: PathModel,
    /// The directory it stands in.
    pub group: PathModel,
    /// The directory as it is shown to people.
    pub folder: Seq<char>,
    /// The position of the file in the listing that it was found in.
    pub source: usize,
    /// The year in the file's name.
    pub year: u32,
    /// The month in the file's name.
    pub month: u32,
}

impl DeepView for InputFile {
    type V = InputModel;

    open spec fn deep_view(&self) -> InputModel {
        InputModel {
            path: self.path.deep_view(),
            group: self.group.deep_view(),
            folder: self.folder@,
            source: self.source,
            year: self.year,
            month: self.month,
        }
    }
}

/// An input file and what an inspection found in it.
#[derive(Debug)]
pub struct FileInfo {
    /// The file.
    pub file: InputFile,
    /// How many rows it has, where they were counted.
    pub row_count: Option<usize>,
    /// How many fields its narrowest row has, where it has a row.
    pub min_columns: Option<usize>,
    /// How many fields its widest row has, where it has a row.
    pub max_columns: Option<usize>,
    /// Whether it is still to be converted, where an inspection decided that.
    pub auto_processable: Option<bool>,
}

/// What a [`FileInfo`] holds.
#[verifier::ext_equal]
pub struct InfoModel {
    /// The file.
    pub file: InputModel,
    /// How many rows it has.
    pub row_count: Option<usize>,
    /// How many fields its narrowest row has.
    pub min_columns: Option<usize>,
    /// How many fields its widest row has.
    pub max_columns: Option<usize>,
    /// Whether it is still to be converted.
    pub auto_processable: Option<bool>,
}

impl DeepView for FileInfo {
    type V = InfoModel;

    open spec fn deep_view(&self) -> InfoModel {
        InfoModel {
            file: self.file.deep_view(),
            row_count: self.row_count,
            min_columns: self.min_columns,
            max_columns: self.max_columns,
            auto_processable: self.auto_processable,
        }
    }
}

impl Clone for FsPath {
    fn clone(&self) -> (copy: Self)
        ensures
            copy.deep_view() == self.deep_view(),
    {
        let parts = self.parts.clone();
        assert(parts.deep_view() =~= self.parts.deep_view()) by {
            assert forall|i: int| 0 <= i < parts@.len() implies (#[trigger] parts@[i]).deep_view()
                =~= self.parts@[i].deep_view() by {}
        }
        FsPath { parts, name: self.name.clone(), stem: self.stem.clone() }
    }
}

impl Clone for InputFile {
    fn clone(&self) -> (copy: Self)
        ensures
            copy.deep_view() == self.deep_view(),
    {
        InputFile {
            path: self.path.clone(),
            group: self.group.clone(),
            folder: self.folder.clone(),
            source: self.source,
            year: self.year,
            month: self.month,
        }
    }
}

impl Clone for FileInfo {
    fn clone(&self) -> (copy: Self)
        ensures
            copy.deep_view() == self.deep_view(),
    {
        FileInfo {
            file: self.file.clone(),
            row_count: self.row_count,
            min_columns: self.min_columns,
            max_columns: self.max_columns,
            auto_processable: self.auto_processable,
        }
    }
}

/// What contracts say of a path, a file and an inspected file is said of their
/// own fields, each as it stands.
pub proof fn law_models_hold_every_field(path: FsPath, file: InputFile, info: FileInfo, index: int)
    ensures
        path.deep_view().parts.len() == path.parts@.len(),
        0 <= index < path.parts@.len() ==> path.deep_view().parts[index] == path.parts@[index]@,
        path.deep_view().name is Some <==> path.name is Some,
        path.name matches Some(name) ==> path.deep_view().name == Some(name@),
        path.deep_view().stem is Some <==> path.stem is Some,
        path.stem matches Some(stem) ==> path.deep_view().stem == Some(stem@),
        file.deep_view().path == file.path.deep_view(),
        file.deep_view().group == file.group.deep_view(),
        file.deep_view().folder == file.folder@,
        file.deep_view().source == file.source,
        file.deep_view().year == file.year,
        file.deep_view().month == file.month,
        info.deep_view().file == info.file.deep_view(),
        info.deep_view().row_count == info.row_count,
        info.deep_view().min_columns == info.min_columns,
        info.deep_view().max_columns == info.max_columns,
        info.deep_view().auto_processable == info.auto_processable,
{
    if 0 <= index < path.parts@.len() {
        assert(path.deep_view().parts[index] =~= path.parts@[index]@);
    }
}

/// Bytes in dictionary order, strictly.
pub open spec fn bytes_before(left: Seq<u8>, right: Seq<u8>) -> bool
    decreases left.len(),
{
    if right.len() == 0 {
        false
    } else if left.len() == 0 {
        true
    } else if left[0] != right[0] {
        left[0] < right[0]
    } else {
        bytes_before(left.drop_first(), right.drop_first())
    }
}

/// The rank of a component: the root, the directory itself and its parent come
/// before everything that has a name.
pub open spec fn rank(part: Seq<u8>) -> nat {
    if part == seq![47u8] {
        0
    } else if part == seq![46u8] {
        1
    } else if part == seq![46u8, 46u8] {
        2
    } else {
        3
    }
}

/// Components by rank, and names in dictionary order, strictly.
pub open spec fn part_before(left: Seq<u8>, right: Seq<u8>) -> bool {
    if rank(left) != rank(right) {
        rank(left) < rank(right)
    } else {
        bytes_before(left, right)
    }
}

/// Paths component by component, strictly.
pub open spec fn parts_before(left: Seq<Seq<u8>>, right: Seq<Seq<u8>>) -> bool
    decreases left.len(),
{
    if right.len() == 0 {
        false
    } else if left.len() == 0 {
        true
    } else if left[0] != right[0] {
        part_before(left[0], right[0])
    } else {
        parts_before(left.drop_first(), right.drop_first())
    }
}

/// By directory, then by year, then by month, then by path; strictly.
pub open spec fn file_before(left: InputModel, right: InputModel) -> bool {
    if left.group.parts != right.group.parts {
        parts_before(left.group.parts, right.group.parts)
    } else if left.year != right.year {
        left.year < right.year
    } else if left.month != right.month {
        left.month < right.month
    } else {
        parts_before(left.path.parts, right.path.parts)
    }
}

/// Files none of which comes before an earlier one.
pub open spec fn is_sorted(files: Seq<InputModel>) -> bool {
    forall|i: int, j: int|
        0 <= i < j < files.len() ==> !file_before(#[trigger] files[j], #[trigger] files[i])
}

/// The files between which the order does not decide.
pub open spec fn same_place(left: InputModel, right: InputModel) -> bool {
    &&& left.group.parts == right.group.parts
    &&& left.year == right.year
    &&& left.month == right.month
    &&& left.path.parts == right.path.parts
}

proof fn lemma_bytes_order(a: Seq<u8>, b: Seq<u8>, c: Seq<u8>)
    ensures
        !bytes_before(a, a),
        bytes_before(a, b) ==> !bytes_before(b, a),
        a != b ==> bytes_before(a, b) || bytes_before(b, a),
        bytes_before(a, b) && bytes_before(b, c) ==> bytes_before(a, c),
    decreases a.len() + b.len() + c.len(),
{
    if a.len() > 0 {
        lemma_bytes_order(a.drop_first(), if b.len() > 0 {
            b.drop_first()
        } else {
            b
        }, if c.len() > 0 {
            c.drop_first()
        } else {
            c
        });
    }
    if a.len() > 0 && b.len() > 0 {
        if a[0] == b[0] && a.drop_first() == b.drop_first() {
            assert(a =~= seq![a[0]] + a.drop_first());
            assert(b =~= seq![b[0]] + b.drop_first());
        }
    } else if a.len() == 0 && b.len() == 0 {
        assert(a =~= b);
    }
}

pub(crate) proof fn lemma_parts_order(a: Seq<Seq<u8>>, b: Seq<Seq<u8>>, c: Seq<Seq<u8>>)
    ensures
        !parts_before(a, a),
        parts_before(a, b) ==> !parts_before(b, a),
        a != b ==> parts_before(a, b) || parts_before(b, a),
        parts_before(a, b) && parts_before(b, c) ==> parts_before(a, c),
    decreases a.len() + b.len() + c.len(),
{
    if a.len() > 0 {
        lemma_parts_order(a.drop_first(), if b.len() > 0 {
            b.drop_first()
        } else {
            b
        }, if c.len() > 0 {
            c.drop_first()
        } else {
            c
        });
    }
    if a.len() > 0 && b.len() > 0 {
        if c.len() > 0 {
            lemma_bytes_order(a[0], b[0], c[0]);
        } else {
            lemma_bytes_order(a[0], b[0], b[0]);
        }
        if a[0] == b[0] && a.drop_first() == b.drop_first() {
            assert(a =~= seq![a[0]] + a.drop_first());
            assert(b =~= seq![b[0]] + b.drop_first());
        }
    } else if a.len() == 0 && b.len() == 0 {
        assert(a =~= b);
    }
}

/// The order of files is a strict order that decides between any two files of
/// different places.
pub proof fn law_file_order(a: InputModel, b: InputModel, c: InputModel)
    ensures
        !file_before(a, a),
        file_before(a, b) ==> !file_before(b, a),
        file_before(a, b) && file_before(b, c) ==> file_before(a, c),
        !file_before(a, b) && !file_before(b, a) <==> same_place(a, b),
{
    lemma_parts_order(a.group.parts, b.group.parts, c.group.parts);
    lemma_parts_order(a.path.parts, b.path.parts, c.path.parts);
}

/// Bytes are ordered by the first place in which they differ, and what goes on
/// comes behind what ends.
pub proof fn law_bytes_are_ordered_by_their_first_difference(
    common: Seq<u8>,
    left: u8,
    left_rest: Seq<u8>,
    right: u8,
    right_rest: Seq<u8>,
)
    ensures
        left < right ==> bytes_before(
            common + seq![left] + left_rest,
            common + seq![right] + right_rest,
        ),
        left < right ==> !bytes_before(
            common + seq![right] + right_rest,
            common + seq![left] + left_rest,
        ),
        bytes_before(common, common + seq![left] + left_rest),
        !bytes_before(common + seq![left] + left_rest, common),
        !bytes_before(common, common),
    decreases common.len(),
{
    let a = common + seq![left] + left_rest;
    let b = common + seq![right] + right_rest;
    if common.len() > 0 {
        let shorter = common.drop_first();
        law_bytes_are_ordered_by_their_first_difference(
            shorter,
            left,
            left_rest,
            right,
            right_rest,
        );
        assert(a.drop_first() =~= shorter + seq![left] + left_rest);
        assert(b.drop_first() =~= shorter + seq![right] + right_rest);
    }
}

/// The components of a path are ordered as names are, byte by byte; the root
/// comes before the directory itself, that before its parent, and that before
/// all names.
pub proof fn law_components_are_ordered_as_names(left: Seq<u8>, right: Seq<u8>)
    ensures
        ({
            let root = seq![47u8];
            let here = seq![46u8];
            let parent = seq![46u8, 46u8];
            let is_name = |part: Seq<u8>| part != root && part != here && part != parent;
            &&& part_before(root, here) && part_before(root, parent) && part_before(here, parent)
            &&& !part_before(here, root) && !part_before(parent, root) && !part_before(parent, here)
            &&& is_name(right) ==> {
                &&& part_before(root, right) && part_before(here, right)
                &&& part_before(parent, right)
                &&& !part_before(right, root) && !part_before(right, here)
                &&& !part_before(right, parent)
            }
            &&& is_name(left) && is_name(right) ==> part_before(left, right) == bytes_before(
                left,
                right,
            )
        }),
{
    let here = seq![46u8];
    let parent = seq![46u8, 46u8];
    let root = seq![47u8];
    assert(here.len() != parent.len());
    assert(root[0] != here[0]);
    assert(root.len() != parent.len());
}

/// Paths are ordered by the first component in which they differ, and what
/// stands below a directory comes behind it.
pub proof fn law_paths_are_ordered_by_their_first_difference(
    common: Seq<Seq<u8>>,
    left: Seq<u8>,
    left_rest: Seq<Seq<u8>>,
    right: Seq<u8>,
    right_rest: Seq<Seq<u8>>,
)
    ensures
        left != right ==> parts_before(
            common + seq![left] + left_rest,
            common + seq![right] + right_rest,
        ) == part_before(left, right),
        parts_before(common, common + seq![left] + left_rest),
        !parts_before(common + seq![left] + left_rest, common),
        !parts_before(common, common),
    decreases common.len(),
{
    let a = common + seq![left] + left_rest;
    let b = common + seq![right] + right_rest;
    if common.len() > 0 {
        let shorter = common.drop_first();
        law_paths_are_ordered_by_their_first_difference(
            shorter,
            left,
            left_rest,
            right,
            right_rest,
        );
        assert(a.drop_first() =~= shorter + seq![left] + left_rest);
        assert(b.drop_first() =~= shorter + seq![right] + right_rest);
    }
}

/// In which order files that were put in order stand: the files of one directory
/// by year, then by month, then by path, and files of different directories by
/// the paths of those.
pub proof fn law_files_stand_by_directory_and_month(files: Seq<InputModel>, i: int, j: int)
    requires
        is_sorted(files),
        0 <= i < j < files.len(),
    ensures
        files[i].group.parts != files[j].group.parts ==> parts_before(
            files[i].group.parts,
            files[j].group.parts,
        ),
        files[i].group.parts == files[j].group.parts ==> {
            ||| files[i].year < files[j].year
            ||| files[i].year == files[j].year && files[i].month < files[j].month
            ||| files[i].year == files[j].year && files[i].month == files[j].month
                && !parts_before(files[j].path.parts, files[i].path.parts)
        },
{
    assert(!file_before(files[j], files[i]));
    lemma_parts_order(files[i].group.parts, files[j].group.parts, files[i].group.parts);
}

/// A rearrangement holds each file as often as it was there, and files of the
/// same directory, month and path follow each other as they did.
pub proof fn law_a_rearrangement_keeps_every_file(
    before: Seq<InputModel>,
    after: Seq<InputModel>,
    file: InputModel,
)
    requires
        is_stable_rearrangement(before, after),
    ensures
        after.len() == before.len(),
        after.to_multiset().count(file) == before.to_multiset().count(file),
        before.contains(file) <==> after.contains(file),
        after.filter(
            |other: InputModel|
                {
                    &&& other.group.parts == file.group.parts
                    &&& other.year == file.year
                    &&& other.month == file.month
                    &&& other.path.parts == file.path.parts
                },
        ) == before.filter(
            |other: InputModel|
                {
                    &&& other.group.parts == file.group.parts
                    &&& other.year == file.year
                    &&& other.month == file.month
                    &&& other.path.parts == file.path.parts
                },
        ),
{
    before.to_multiset_ensures();
    after.to_multiset_ensures();
    assert(before.contains(file) <==> before.to_multiset().count(file) > 0);
    assert(after.contains(file) <==> after.to_multiset().count(file) > 0);
    assert(at_place(after, file) == at_place(before, file));
    assert((|other: InputModel| same_place(other, file)) =~= (|other: InputModel|
        {
            &&& other.group.parts == file.group.parts
            &&& other.year == file.year
            &&& other.month == file.month
            &&& other.path.parts == file.path.parts
        }));
}

/// Whether `left` comes before `right` in dictionary order.
fn bytes_come_before(left: &Vec<u8>, right: &Vec<u8>) -> (result: bool)
    ensures
        result == bytes_before(left.deep_view(), right.deep_view()),
{
    let ghost a = left.deep_view();
    let ghost b = right.deep_view();
    let mut index: usize = 0;
    assert(a.skip(0) =~= a);
    assert(b.skip(0) =~= b);
    while index < left.len() && index < right.len()
        invariant
            a == left.deep_view(),
            b == right.deep_view(),
            index <= a.len(),
            index <= b.len(),
            bytes_before(a, b) == bytes_before(a.skip(index as int), b.skip(index as int)),
        decreases left.len() - index,
    {
        assert(a.skip(index as int)[0] == left@[index as int]);
        assert(b.skip(index as int)[0] == right@[index as int]);
        if left[index] != right[index] {
            return left[index] < right[index];
        }
        assert(a.skip(index as int).drop_first() =~= a.skip(index + 1));
        assert(b.skip(index as int).drop_first() =~= b.skip(index + 1));
        index += 1;
    }
    index < right.len()
}

/// Whether the bytes are the same.
fn same_bytes(left: &Vec<u8>, right: &Vec<u8>) -> (result: bool)
    ensures
        result == (left.deep_view() == right.deep_view()),
{
    if left.len() != right.len() {
        assert(left.deep_view().len() != right.deep_view().len());
        return false;
    }
    let mut index: usize = 0;
    while index < left.len()
        invariant
            index <= left@.len(),
            left@.len() == right@.len(),
            forall|i: int| 0 <= i < index ==> left@[i] == right@[i],
        decreases left.len() - index,
    {
        if left[index] != right[index] {
            assert(left.deep_view()[index as int] != right.deep_view()[index as int]);
            return false;
        }
        index += 1;
    }
    assert(left.deep_view() =~= right.deep_view());
    true
}

/// The rank of a component.
fn rank_of(part: &Vec<u8>) -> (result: u8)
    ensures
        result == rank(part.deep_view()),
{
    assert(part.deep_view() =~= part@);
    if part.len() == 1 && part[0] == 47 {
        assert(part@ =~= seq![47u8]);
        0
    } else if part.len() == 1 && part[0] == 46 {
        assert(part@ =~= seq![46u8]);
        1
    } else if part.len() == 2 && part[0] == 46 && part[1] == 46 {
        assert(part@ =~= seq![46u8, 46u8]);
        2
    } else {
        3
    }
}

/// Whether the component `left` comes before `right`.
fn part_comes_before(left: &Vec<u8>, right: &Vec<u8>) -> (result: bool)
    ensures
        result == part_before(left.deep_view(), right.deep_view()),
{
    let left_rank = rank_of(left);
    let right_rank = rank_of(right);
    if left_rank != right_rank {
        left_rank < right_rank
    } else {
        bytes_come_before(left, right)
    }
}

impl FsPath {
    /// Whether the two paths have the same components.
    pub fn same(&self, other: &FsPath) -> (result: bool)
        ensures
            result == (self.deep_view().parts == other.deep_view().parts),
    {
        let left = &self.parts;
        let right = &other.parts;
        if left.len() != right.len() {
            assert(left.deep_view().len() != right.deep_view().len());
            return false;
        }
        let mut index: usize = 0;
        while index < left.len()
            invariant
                *left == self.parts,
                *right == other.parts,
                index <= left@.len(),
                left@.len() == right@.len(),
                forall|i: int|
                    0 <= i < index ==> left.deep_view()[i] == #[trigger] right.deep_view()[i],
            decreases left.len() - index,
        {
            if !same_bytes(&left[index], &right[index]) {
                assert(left.deep_view()[index as int] != right.deep_view()[index as int]);
                return false;
            }
            index += 1;
        }
        assert(left.deep_view() =~= right.deep_view());
        true
    }

    /// Whether this path comes before the other, component by component.
    pub fn comes_before(&self, other: &FsPath) -> (result: bool)
        ensures
            result == parts_before(self.deep_view().parts, other.deep_view().parts),
    {
        let left = &self.parts;
        let right = &other.parts;
        let ghost a = left.deep_view();
        let ghost b = right.deep_view();
        let mut index: usize = 0;
        assert(a.skip(0) =~= a);
        assert(b.skip(0) =~= b);
        while index < left.len() && index < right.len()
            invariant
                *left == self.parts,
                *right == other.parts,
                a == left.deep_view(),
                b == right.deep_view(),
                index <= a.len(),
                index <= b.len(),
                parts_before(a, b) == parts_before(a.skip(index as int), b.skip(index as int)),
            decreases left.len() - index,
        {
            assert(a.skip(index as int)[0] == left@[index as int].deep_view());
            assert(b.skip(index as int)[0] == right@[index as int].deep_view());
            if !same_bytes(&left[index], &right[index]) {
                return part_comes_before(&left[index], &right[index]);
            }
            assert(a.skip(index as int).drop_first() =~= a.skip(index + 1));
            assert(b.skip(index as int).drop_first() =~= b.skip(index + 1));
            index += 1;
        }
        index < right.len()
    }
}

/// Whether the left file comes before the right one.
pub fn comes_before(left: &InputFile, right: &InputFile) -> (result: bool)
    ensures
        result == file_before(left.deep_view(), right.deep_view()),
{
    if !left.group.same(&right.group) {
        left.group.comes_before(&right.group)
    } else if left.year != right.year {
        left.year < right.year
    } else if left.month != right.month {
        left.month < right.month
    } else {
        left.path.comes_before(&right.path)
    }
}

/// The files that stand at one place of the order, as they follow each other.
pub open spec fn at_place(files: Seq<InputModel>, place: InputModel) -> Seq<InputModel> {
    files.filter(|file: InputModel| same_place(file, place))
}

/// `after` holds the files of `before`, and files of one place follow each
/// other as they did.
pub open spec fn is_stable_rearrangement(before: Seq<InputModel>, after: Seq<InputModel>) -> bool {
    &&& after.to_multiset() == before.to_multiset()
    &&& forall|place: InputModel| #[trigger] at_place(after, place) == at_place(before, place)
}

/// Moving a file ahead of files that it comes before.
proof fn lemma_move_ahead(
    front: Seq<InputModel>,
    passed: Seq<InputModel>,
    moved: InputModel,
    back: Seq<InputModel>,
)
    requires
        forall|i: int| 0 <= i < passed.len() ==> file_before(moved, #[trigger] passed[i]),
    ensures
        is_stable_rearrangement(
            front + passed + seq![moved] + back,
            front + seq![moved] + passed + back,
        ),
{
    let before = front + passed + seq![moved] + back;
    let after = front + seq![moved] + passed + back;
    let one = seq![moved];
    vstd::seq_lib::lemma_multiset_commutative(front, passed);
    vstd::seq_lib::lemma_multiset_commutative(front + passed, one);
    vstd::seq_lib::lemma_multiset_commutative(front + passed + one, back);
    vstd::seq_lib::lemma_multiset_commutative(front, one);
    vstd::seq_lib::lemma_multiset_commutative(front + one, passed);
    vstd::seq_lib::lemma_multiset_commutative(front + one + passed, back);
    assert(after.to_multiset() =~= before.to_multiset());
    assert forall|place: InputModel| #[trigger] at_place(after, place) == at_place(
        before,
        place,
    ) by {
        let keep = |file: InputModel| same_place(file, place);
        Seq::filter_distributes_over_add(front, passed, keep);
        Seq::filter_distributes_over_add(front + passed, one, keep);
        Seq::filter_distributes_over_add(front + passed + one, back, keep);
        Seq::filter_distributes_over_add(front, one, keep);
        Seq::filter_distributes_over_add(front + one, passed, keep);
        Seq::filter_distributes_over_add(front + one + passed, back, keep);
        if keep(moved) {
            assert forall|i: int| 0 <= i < passed.len() implies !keep(#[trigger] passed[i]) by {
                law_file_order(moved, passed[i], moved);
            }
            lemma_filter_keeps_none(passed, keep);
        } else {
            lemma_filter_keeps_none(one, keep);
        }
        assert(at_place(after, place) =~= at_place(before, place));
    }
}

/// A filter that no item passes leaves nothing.
pub(crate) proof fn lemma_filter_keeps_none<T>(items: Seq<T>, keep: spec_fn(T) -> bool)
    requires
        forall|i: int| 0 <= i < items.len() ==> !keep(#[trigger] items[i]),
    ensures
        items.filter(keep) == Seq::<T>::empty(),
    decreases items.len(),
{
    reveal(Seq::filter);
    if items.len() > 0 {
        lemma_filter_keeps_none(items.drop_last(), keep);
    }
}

/// Puts files in order: by directory, then by month, then by path.
pub fn sort_input_files(files: &mut Vec<InputFile>)
    ensures
        is_sorted(final(files).deep_view()),
        is_stable_rearrangement(old(files).deep_view(), final(files).deep_view()),
{
    let mut done: usize = 0;
    while done < files.len()
        invariant
            done <= files@.len(),
            is_sorted(files.deep_view().take(done as int)),
            is_stable_rearrangement(old(files).deep_view(), files.deep_view()),
        decreases files.len() - done,
    {
        let ghost before = files.deep_view();
        let ghost moved = before[done as int];
        let mut place = done;
        while place > 0 && comes_before(&files[done], &files[place - 1])
            invariant
                before == files.deep_view(),
                moved == before[done as int],
                place <= done < files@.len(),
                forall|i: int| place <= i < done ==> file_before(moved, #[trigger] before[i]),
            decreases place,
        {
            place -= 1;
        }
        let file = files.remove(done);
        files.insert(place, file);
        proof {
            let after = files.deep_view();
            let front = before.take(place as int);
            let passed = before.subrange(place as int, done as int);
            let back = before.skip(done + 1);
            assert(before =~= front + passed + seq![moved] + back);
            assert(after =~= front + seq![moved] + passed + back);
            lemma_move_ahead(front, passed, moved, back);
            assert forall|place: InputModel| #[trigger] at_place(after, place) == at_place(
                old(files).deep_view(),
                place,
            ) by {
                assert(at_place(before, place) == at_place(old(files).deep_view(), place));
            }
            let sorted = after.take(done + 1);
            assert forall|i: int, j: int| 0 <= i < j < sorted.len() implies !file_before(
                #[trigger] sorted[j],
                #[trigger] sorted[i],
            ) by {
                let old_sorted = before.take(done as int);
                if j < place {
                    assert(sorted[i] == old_sorted[i] && sorted[j] == old_sorted[j]);
                } else if j == place {
                    assert(sorted[j] == moved);
                    assert(sorted[i] == old_sorted[i]);
                    assert(!file_before(moved, before[place - 1]));
                    if i < place - 1 {
                        assert(!file_before(old_sorted[place - 1], old_sorted[i]));
                        law_file_order(moved, before[i], before[place - 1]);
                        law_file_order(before[i], before[place - 1], moved);
                        law_file_order(before[place - 1], before[i], moved);
                    }
                } else {
                    assert(sorted[j] == old_sorted[j - 1]);
                    if i < place {
                        assert(sorted[i] == old_sorted[i]);
                    } else if i == place {
                        assert(file_before(moved, before[j - 1]));
                        law_file_order(moved, before[j - 1], moved);
                    } else {
                        assert(sorted[i] == old_sorted[i - 1]);
                    }
                }
            }
        }
        done += 1;
    }
    assert(files.deep_view().take(done as int) =~= files.deep_view());
}

}
