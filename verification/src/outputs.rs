//! Where a converted table goes.
use vstd::prelude::*;
use vstd::slice::slice_to_vec;
use vstd::utf8::{encode_utf8, encode_utf8_decode_utf8};

use crate::files::{FsPath, PathModel};
use crate::modes::OutputMode;
use crate::names::{csv_ending, lemma_inputs_end_in_a_digit, names_month};
use crate::text::{
    all_digits, chars_of, decimal, decimal_text, is_digit, lemma_decimal_is_digits,
};

verus! {

/// Why a path has no place to write to.
#[derive(Clone, Copy, Debug, PartialEq, Eq, Structural)]
pub enum PathError {
    /// There is no name to make the name of a copy from.
    NoOutputName,
    /// There is no name to make the name of a temporary file from.
    InvalidOutputPath,
}

/// The place of the last dot, or -1.
pub open spec fn last_dot(name: Seq<char>) -> int
    decreases name.len(),
{
    if name.len() == 0 {
        -1
    } else if name.last() == '.' {
        name.len() - 1
    } else {
        last_dot(name.drop_last())
    }
}

/// A name without its extension: what stands before the last dot, unless that
/// is nothing.
pub open spec fn stem(name: Seq<char>) -> Seq<char> {
    if last_dot(name) > 0 {
        name.take(last_dot(name))
    } else {
        name
    }
}

/// The name of the copy that stands beside a file whose name without its
/// extension is `stem`.
pub open spec fn copy_name(stem: Seq<char>) -> Seq<char> {
    stem + ".rsi.csv"@
}

/// The name of the file that is written first and then moved into place.
pub open spec fn temp_name(name: Seq<char>, token: Seq<char>) -> Seq<char> {
    "."@ + name + ".tmp-"@ + token
}

/// What tells the temporary files of all processes apart.
pub open spec fn token(process: nat, count: nat) -> Seq<char> {
    decimal(process) + seq!['-'] + decimal(count)
}

/// The path with another name at its end.
pub open spec fn renamed(path: PathModel, name: Seq<char>) -> PathModel {
    let folder = if path.parts.len() > 0 {
        path.parts.drop_last()
    } else {
        path.parts
    };
    PathModel { parts: folder.push(encode_utf8(name)), name: Some(name), stem: Some(stem(name)) }
}

/// A name without its extension.
pub fn file_stem(name: &str) -> (result: String)
    ensures
        result@ == stem(name@),
{
    let characters = chars_of(name);
    let mut end = characters.len();
    assert(name@.take(end as int) =~= name@);
    while end > 0 && characters[end - 1] != '.'
        invariant
            characters@ == name@,
            end <= characters@.len(),
            last_dot(name@) == last_dot(name@.take(end as int)),
        decreases end,
    {
        assert(name@.take(end as int).drop_last() =~= name@.take(end - 1));
        end -= 1;
    }
    if end <= 1 {
        return name.to_owned();
    }
    let mut result = String::new();
    let mut index: usize = 0;
    while index < end - 1
        invariant
            characters@ == name@,
            index < end <= characters@.len(),
            result@ == name@.take(index as int),
        decreases end - index,
    {
        result.push(characters[index]);
        assert(result@ =~= name@.take(index + 1));
        index += 1;
    }
    result
}

impl FsPath {
    /// The path with another name at its end.
    pub fn with_file_name(&self, name: String) -> (path: FsPath)
        ensures
            path.deep_view() == renamed(self.deep_view(), name@),
    {
        let mut parts = self.clone().parts;
        let ghost before = parts.deep_view();
        parts.pop();
        let ghost folder = parts.deep_view();
        let bytes = slice_to_vec(name.as_str().as_bytes());
        parts.push(bytes);
        proof {
            assert(before =~= self.parts.deep_view());
            assert(before.len() > 0 ==> folder =~= before.drop_last());
            assert(before.len() == 0 ==> folder =~= before);
            assert(bytes.deep_view() =~= encode_utf8(name@));
            assert(parts.deep_view() =~= folder.push(encode_utf8(name@)));
        }
        let stem = file_stem(name.as_str());
        FsPath { parts, name: Some(name), stem: Some(stem) }
    }
}

/// The file that a converted table ends up in.
pub fn build_output_path(input_path: &FsPath, mode: OutputMode) -> (result: Result<
    FsPath,
    PathError,
>)
    ensures
        match (mode, input_path.deep_view().stem) {
            (OutputMode::Overwrite, _) => result matches Ok(path) && path.deep_view()
                == input_path.deep_view(),
            (OutputMode::Copy, Some(stem)) => result matches Ok(path) && path.deep_view()
                == renamed(input_path.deep_view(), copy_name(stem)),
            (OutputMode::Copy, None) => result == Err::<FsPath, PathError>(
                PathError::NoOutputName,
            ),
        },
        result matches Ok(path) ==> (mode == OutputMode::Copy ==> {
            &&& input_path.deep_view().stem matches Some(stem)
            &&& path.deep_view().name == Some(stem + ".rsi.csv"@)
            &&& path.deep_view().parts.drop_last() == if input_path.parts@.len() > 0 {
                input_path.deep_view().parts.drop_last()
            } else {
                seq![]
            }
            &&& path.deep_view().parts.last() == encode_utf8(stem + ".rsi.csv"@)
            &&& path.deep_view().parts.len() > 0
        }),
{
    match mode {
        OutputMode::Overwrite => Ok(input_path.clone()),
        OutputMode::Copy => match &input_path.stem {
            Some(stem) => {
                let mut output = stem.clone();
                output.append(".rsi.csv");
                let path = input_path.with_file_name(output);
                proof {
                    law_a_renamed_path_stands_beside(input_path.deep_view(), output@);
                }
                Ok(path)
            },
            None => Err(PathError::NoOutputName),
        },
    }
}

/// The file beside the output file that is written first.
pub fn temp_output_path(output_path: &FsPath, unique_token: &str) -> (result: Result<
    FsPath,
    PathError,
>)
    ensures
        match output_path.deep_view().name {
            Some(name) => result matches Ok(path) && path.deep_view() == renamed(
                output_path.deep_view(),
                temp_name(name, unique_token@),
            ),
            None => result == Err::<FsPath, PathError>(PathError::InvalidOutputPath),
        },
        result matches Ok(path) ==> {
            &&& output_path.deep_view().name matches Some(name)
            &&& path.deep_view().name == Some("."@ + name + ".tmp-"@ + unique_token@)
            &&& path.deep_view().parts.drop_last() == if output_path.parts@.len() > 0 {
                output_path.deep_view().parts.drop_last()
            } else {
                seq![]
            }
            &&& path.deep_view().parts.last() == encode_utf8(
                "."@ + name + ".tmp-"@ + unique_token@,
            )
            &&& path.deep_view().parts.len() > 0
        },
{
    match &output_path.name {
        Some(name) => {
            let mut output = ".".to_owned();
            output.append(name.as_str());
            output.append(".tmp-");
            output.append(unique_token);
            let path = output_path.with_file_name(output);
            proof {
                law_a_renamed_path_stands_beside(output_path.deep_view(), output@);
            }
            Ok(path)
        },
        None => Err(PathError::InvalidOutputPath),
    }
}

/// A token from the number of the process and a count within it.
pub fn unique_token(process: u32, count: u64) -> (text: String)
    ensures
        text@ == token(process as nat, count as nat),
        text@ == decimal(process as nat) + seq!['-'] + decimal(count as nat),
{
    let mut text = decimal_text(process as u64);
    text.push('-');
    let shown = decimal_text(count);
    text.append(shown.as_str());
    assert(text@ =~= token(process as nat, count as nat));
    text
}

impl PathError {
    /// What went wrong with the path that is shown as `path`.
    pub fn message(&self, path: &str) -> (text: String)
        ensures
            text@ == match self {
                PathError::NoOutputName => "failed to derive output name for "@,
                PathError::InvalidOutputPath => "invalid output path "@,
            } + path@,
    {
        let mut text = match self {
            PathError::NoOutputName => "failed to derive output name for ".to_owned(),
            PathError::InvalidOutputPath => "invalid output path ".to_owned(),
        };
        text.append(path);
        text
    }
}

/// A renamed path ends in the new name and stands in the same directory.
pub proof fn law_a_renamed_path_stands_beside(path: PathModel, name: Seq<char>)
    ensures
        renamed(path, name).name == Some(name),
        renamed(path, name).parts.len() > 0,
        renamed(path, name).parts.last() == encode_utf8(name),
        renamed(path, name).parts.drop_last() == if path.parts.len() > 0 {
            path.parts.drop_last()
        } else {
            seq![]
        },
{
    assert(renamed(path, name).parts.drop_last() =~= if path.parts.len() > 0 {
        path.parts.drop_last()
    } else {
        seq![]
    });
}

/// The stem of a name is what stands before its last dot. A name without a dot,
/// or with none but the one it begins with, is its own stem.
pub proof fn law_a_stem_ends_before_the_last_dot(front: Seq<char>, back: Seq<char>)
    requires
        forall|i: int| 0 <= i < back.len() ==> #[trigger] back[i] != '.',
    ensures
        stem(back) == back,
        front.len() > 0 ==> stem(front + seq!['.'] + back) == front,
        front.len() == 0 ==> stem(front + seq!['.'] + back) == front + seq!['.'] + back,
{
    let name = front + seq!['.'] + back;
    lemma_last_dot(front, back);
    lemma_no_dot(back);
    assert(front.len() > 0 ==> name.take(front.len() as int) =~= front);
}

proof fn lemma_last_dot(front: Seq<char>, back: Seq<char>)
    requires
        forall|i: int| 0 <= i < back.len() ==> #[trigger] back[i] != '.',
    ensures
        last_dot(front + seq!['.'] + back) == front.len(),
    decreases back.len(),
{
    let name = front + seq!['.'] + back;
    if back.len() > 0 {
        let shorter = back.drop_last();
        assert forall|i: int| 0 <= i < shorter.len() implies #[trigger] shorter[i] != '.' by {
            assert(shorter[i] == back[i]);
        }
        lemma_last_dot(front, shorter);
        assert(name.last() == back[back.len() - 1]);
        assert(name.drop_last() =~= front + seq!['.'] + shorter);
    } else {
        assert(name.last() == '.');
    }
}

proof fn lemma_no_dot(text: Seq<char>)
    requires
        forall|i: int| 0 <= i < text.len() ==> #[trigger] text[i] != '.',
    ensures
        last_dot(text) == -1,
    decreases text.len(),
{
    if text.len() > 0 {
        let shorter = text.drop_last();
        assert forall|i: int| 0 <= i < shorter.len() implies #[trigger] shorter[i] != '.' by {
            assert(shorter[i] == text[i]);
        }
        lemma_no_dot(shorter);
        assert(text[text.len() - 1] != '.');
    }
}

/// A copy leaves every input as it is: for an input named as months are, the
/// copy is another file of the same directory, and no input of any table.
pub proof fn law_a_copy_is_no_original(
    path: PathModel,
    name: Seq<char>,
    prefix: Seq<char>,
    interval: Seq<char>,
    year: u32,
    month: u32,
    original: PathModel,
    original_name: Seq<char>,
    original_year: u32,
    original_month: u32,
)
    requires
        path.parts.len() > 0,
        names_month(name, prefix, interval, year, month),
        original.parts.len() > 0,
        original.parts.last() == encode_utf8(original_name),
        names_month(original_name, prefix, interval, original_year, original_month),
    ensures
        renamed(path, stem(name) + ".rsi.csv"@).parts != original.parts,
        renamed(path, stem(name) + ".rsi.csv"@).parts.drop_last() == path.parts.drop_last(),
        stem(name) + seq!['.', 'c', 's', 'v'] == name,
{
    let copy = stem(name) + ".rsi.csv"@;
    law_a_renamed_path_stands_beside(path, copy);
    law_copies_are_no_inputs(stem(name), prefix, interval, original_year, original_month);
    assert(copy == copy_name(stem(name)));
    encode_utf8_decode_utf8(copy);
    encode_utf8_decode_utf8(original_name);
    lemma_inputs_end_in_a_digit(name, prefix, interval, year, month);
    lemma_stem_of_input(name);
    assert(name =~= stem(name) + csv_ending());
}

/// A copy is never taken for an input, whatever file it is a copy of and
/// whatever table is looked for.
pub proof fn law_copies_are_no_inputs(
    stem: Seq<char>,
    prefix: Seq<char>,
    interval: Seq<char>,
    year: u32,
    month: u32,
)
    ensures
        !names_month(copy_name(stem), prefix, interval, year, month),
{
    reveal_strlit(".rsi.csv");
    if names_month(copy_name(stem), prefix, interval, year, month) {
        lemma_inputs_end_in_a_digit(copy_name(stem), prefix, interval, year, month);
        assert(copy_name(stem)[copy_name(stem).len() - 5] == 'i');
    }
}

/// A temporary file is never taken for an input.
pub proof fn law_temporary_files_are_no_inputs(
    name: Seq<char>,
    process: nat,
    count: nat,
    prefix: Seq<char>,
    interval: Seq<char>,
    year: u32,
    month: u32,
)
    ensures
        !names_month(temp_name(name, token(process, count)), prefix, interval, year, month),
{
    let file_name = temp_name(name, token(process, count));
    if names_month(file_name, prefix, interval, year, month) {
        lemma_inputs_end_in_a_digit(file_name, prefix, interval, year, month);
        lemma_decimal_is_digits(count);
        assert(file_name.last() == decimal(count).last());
        assert(is_digit(decimal(count)[decimal(count).len() - 1]));
        assert(file_name.skip(file_name.len() - 4).last() == csv_ending().last());
    }
}

/// The stem of a name that ends as tables do is the name without that ending.
proof fn lemma_stem_of_input(name: Seq<char>)
    requires
        name.len() > 4,
        name.skip(name.len() - 4) == csv_ending(),
    ensures
        stem(name) == name.take(name.len() - 4),
{
    let n = name.len();
    let ending = name.skip(n - 4);
    assert(ending[0] == '.' && ending[1] == 'c' && ending[2] == 's' && ending[3] == 'v');
    reveal_with_fuel(last_dot, 5);
    let a = name.drop_last();
    let b = a.drop_last();
    let c = b.drop_last();
    assert(a.last() == ending[2] && b.last() == ending[1] && c.last() == ending[0]);
    assert(last_dot(name) == n - 4);
}

/// Two inputs never share a copy.
pub proof fn law_copies_are_told_apart(
    left: Seq<char>,
    right: Seq<char>,
    prefix: Seq<char>,
    interval: Seq<char>,
    left_month: (u32, u32),
    right_month: (u32, u32),
)
    requires
        names_month(left, prefix, interval, left_month.0, left_month.1),
        names_month(right, prefix, interval, right_month.0, right_month.1),
        copy_name(stem(left)) == copy_name(stem(right)),
    ensures
        left == right,
{
    lemma_inputs_end_in_a_digit(left, prefix, interval, left_month.0, left_month.1);
    lemma_inputs_end_in_a_digit(right, prefix, interval, right_month.0, right_month.1);
    lemma_stem_of_input(left);
    lemma_stem_of_input(right);
    let ending = ".rsi.csv"@.len();
    let copy = copy_name(stem(left));
    assert(stem(left) =~= copy.take(copy.len() - ending));
    assert(stem(right) =~= copy.take(copy.len() - ending));
    assert(left =~= stem(left) + csv_ending());
    assert(right =~= stem(right) + csv_ending());
}

/// What follows the last dash, where that is digits, and what stands before it.
proof fn lemma_last_dash(
    left: Seq<char>,
    left_digits: Seq<char>,
    right: Seq<char>,
    right_digits: Seq<char>,
)
    requires
        all_digits(left_digits),
        all_digits(right_digits),
        left + seq!['-'] + left_digits == right + seq!['-'] + right_digits,
    ensures
        left == right,
        left_digits == right_digits,
{
    let text = left + seq!['-'] + left_digits;
    let other = right + seq!['-'] + right_digits;
    if left.len() < right.len() {
        let place = right.len() - left.len() - 1;
        assert(text.len() == other.len());
        assert(other[right.len() as int] == '-');
        assert(text[right.len() as int] == left_digits[place]);
        assert(is_digit(left_digits[place]));
    } else if right.len() < left.len() {
        let place = left.len() - right.len() - 1;
        assert(text.len() == other.len());
        assert(text[left.len() as int] == '-');
        assert(other[left.len() as int] == right_digits[place]);
        assert(is_digit(right_digits[place]));
    }
    assert(left =~= text.take(left.len() as int));
    assert(right =~= text.take(right.len() as int));
    assert(left_digits =~= text.skip((left.len() + 1) as int));
    assert(right_digits =~= text.skip((right.len() + 1) as int));
}

/// No two processes and no two counts share a token.
pub proof fn law_tokens_are_told_apart(
    left_process: nat,
    left_count: nat,
    right_process: nat,
    right_count: nat,
)
    requires
        token(left_process, left_count) == token(right_process, right_count),
    ensures
        left_process == right_process,
        left_count == right_count,
{
    lemma_decimal_is_digits(left_process);
    lemma_decimal_is_digits(right_process);
    lemma_decimal_is_digits(left_count);
    lemma_decimal_is_digits(right_count);
    lemma_last_dash(
        decimal(left_process),
        decimal(left_count),
        decimal(right_process),
        decimal(right_count),
    );
}

/// No two temporary files share a name: the name tells the process, the count
/// and the file that is written.
pub proof fn law_temporary_names_are_told_apart(
    left: Seq<char>,
    left_process: nat,
    left_count: nat,
    right: Seq<char>,
    right_process: nat,
    right_count: nat,
)
    requires
        temp_name(left, token(left_process, left_count)) == temp_name(
            right,
            token(right_process, right_count),
        ),
    ensures
        left == right,
        left_process == right_process,
        left_count == right_count,
{
    reveal_strlit(".");
    reveal_strlit(".tmp-");
    lemma_decimal_is_digits(left_process);
    lemma_decimal_is_digits(right_process);
    lemma_decimal_is_digits(left_count);
    lemma_decimal_is_digits(right_count);
    let middle = seq!['.', 't', 'm', 'p'];
    let left_front = "."@ + left + middle;
    let right_front = "."@ + right + middle;
    let left_start = left_front + seq!['-'] + decimal(left_process);
    let right_start = right_front + seq!['-'] + decimal(right_process);
    assert(temp_name(left, token(left_process, left_count)) =~= left_start + seq!['-'] + decimal(
        left_count,
    ));
    assert(temp_name(right, token(right_process, right_count)) =~= right_start + seq!['-']
        + decimal(right_count));
    lemma_last_dash(left_start, decimal(left_count), right_start, decimal(right_count));
    lemma_last_dash(left_front, decimal(left_process), right_front, decimal(right_process));
    assert(left =~= left_front.subrange(1, left_front.len() - 4));
    assert(right =~= right_front.subrange(1, right_front.len() - 4));
}

/// Two temporary files of one process with different counts have different
/// paths, whichever files they are written for.
pub proof fn law_temporary_paths_are_told_apart(
    left: PathModel,
    left_name: Seq<char>,
    left_count: nat,
    right: PathModel,
    right_name: Seq<char>,
    right_count: nat,
    process: nat,
)
    requires
        left_count != right_count,
    ensures
        renamed(left, temp_name(left_name, token(process, left_count))).parts != renamed(
            right,
            temp_name(right_name, token(process, right_count)),
        ).parts,
{
    let left_temp = temp_name(left_name, token(process, left_count));
    let right_temp = temp_name(right_name, token(process, right_count));
    if renamed(left, left_temp).parts == renamed(right, right_temp).parts {
        assert(renamed(left, left_temp).parts.last() == encode_utf8(left_temp));
        assert(renamed(right, right_temp).parts.last() == encode_utf8(right_temp));
        encode_utf8_decode_utf8(left_temp);
        encode_utf8_decode_utf8(right_temp);
        law_temporary_names_are_told_apart(
            left_name,
            process,
            left_count,
            right_name,
            process,
            right_count,
        );
    }
}

/// A temporary file stands in the directory of the file that it is written
/// for, is another file, and is not named as tables are.
pub proof fn law_temporary_files_stand_beside(
    path: PathModel,
    name: Seq<char>,
    process: nat,
    count: nat,
)
    requires
        path.parts.len() > 0,
        path.parts.last() == encode_utf8(name),
    ensures
        ({
            let temporary = renamed(path, temp_name(name, token(process, count)));
            &&& temporary.parts.drop_last() == path.parts.drop_last()
            &&& temporary.parts != path.parts
            &&& !csv_ending().is_suffix_of(temp_name(name, token(process, count)))
        }),
{
    let temp = temp_name(name, token(process, count));
    let temporary = renamed(path, temp);
    reveal_strlit(".");
    assert(temp.len() > name.len());
    assert(temporary.parts.drop_last() =~= path.parts.drop_last());
    assert(temporary.parts.last() == encode_utf8(temp));
    encode_utf8_decode_utf8(temp);
    encode_utf8_decode_utf8(name);
    lemma_decimal_is_digits(count);
    assert(temp.last() == decimal(count).last());
    assert(is_digit(decimal(count)[decimal(count).len() - 1]));
    if csv_ending().is_suffix_of(temp) {
        assert(temp.last() == csv_ending().last());
    }
}

}
