//! The names of monthly files: `<prefix>-<interval>-<year>-<month>.csv`.
use vstd::prelude::*;
use vstd::slice::slice_subrange;

use crate::text::{
    all_digits, chars_of, decimal, digit, digits_value, is_digit, law_decimal_is_read_back,
    parse_u32, parsed,
};

verus! {

/// The ending of every input file.
pub open spec fn csv_ending() -> Seq<char> {
    seq!['.', 'c', 's', 'v']
}

/// The part of a name that all months of one table share.
pub open spec fn name_stem(prefix: Seq<char>, interval: Seq<char>) -> Seq<char> {
    prefix + seq!['-'] + interval + seq!['-']
}

/// The name of a monthly file, from the text of its year and of its month.
pub open spec fn month_file_name(
    prefix: Seq<char>,
    interval: Seq<char>,
    year: Seq<char>,
    month: Seq<char>,
) -> Seq<char> {
    name_stem(prefix, interval) + year + seq!['-'] + month + csv_ending()
}

/// The file name names that month of that table.
pub open spec fn names_month(
    file_name: Seq<char>,
    prefix: Seq<char>,
    interval: Seq<char>,
    year: u32,
    month: u32,
) -> bool {
    &&& 1 <= month <= 12
    &&& exists|year_text: Seq<char>, month_text: Seq<char>|
        {
            &&& file_name == #[trigger] month_file_name(prefix, interval, year_text, month_text)
            &&& parsed(year_text) == Some(year)
            &&& parsed(month_text) == Some(month)
        }
}

/// The year and the month that the file name names, if it names one.
pub open spec fn month_named(
    file_name: Seq<char>,
    prefix: Seq<char>,
    interval: Seq<char>,
) -> Option<(u32, u32)> {
    if exists|named: (u32, u32)| #[trigger]
        names_month(file_name, prefix, interval, named.0, named.1) {
        Some(
            choose|named: (u32, u32)| #[trigger]
                names_month(file_name, prefix, interval, named.0, named.1),
        )
    } else {
        None
    }
}

/// Whether `text` begins with `start`.
pub(crate) fn begins_with(text: &[char], start: &[char]) -> (result: bool)
    ensures
        result == start@.is_prefix_of(text@),
{
    if start.len() > text.len() {
        return false;
    }
    let mut index: usize = 0;
    while index < start.len()
        invariant
            index <= start.len() <= text.len(),
            forall|i: int| 0 <= i < index ==> start@[i] == text@[i],
        decreases start.len() - index,
    {
        if start[index] != text[index] {
            assert(text@.take(start@.len() as int)[index as int] == text@[index as int]);
            return false;
        }
        index += 1;
    }
    assert(start@ =~= text@.take(start@.len() as int));
    true
}

/// A text that spells a number holds no dash.
proof fn lemma_numbers_hold_no_dash(text: Seq<char>)
    requires
        parsed(text) is Some,
    ensures
        forall|i: int| 0 <= i < text.len() ==> #[trigger] text[i] != '-',
{
    assert forall|i: int| 0 <= i < text.len() implies #[trigger] text[i] != '-' by {
        if text[0] == '+' {
            if i > 0 {
                assert(text.skip(1)[i - 1] == text[i]);
                assert(is_digit(text.skip(1)[i - 1]));
            }
        } else {
            assert(is_digit(text[i]));
        }
    }
}

/// Where the parts of a monthly file name stand in it.
proof fn lemma_name_parts(
    prefix: Seq<char>,
    interval: Seq<char>,
    year: Seq<char>,
    month: Seq<char>,
)
    ensures
        ({
            let name = month_file_name(prefix, interval, year, month);
            let start = name_stem(prefix, interval).len() as int;
            let end = name.len() - 4;
            &&& end == start + year.len() + 1 + month.len()
            &&& name.skip(end) == csv_ending()
            &&& name.take(start) == name_stem(prefix, interval)
            &&& name.subrange(start, start + year.len()) == year
            &&& name[start + year.len()] == '-'
            &&& name.subrange(start + year.len() + 1, end) == month
        }),
{
    let name = month_file_name(prefix, interval, year, month);
    let start = name_stem(prefix, interval).len() as int;
    let end = name.len() - 4;
    assert(name.skip(end) =~= csv_ending());
    assert(name.take(start) =~= name_stem(prefix, interval));
    assert(name.subrange(start, start + year.len()) =~= year);
    assert(name.subrange(start + year.len() + 1, end) =~= month);
}

/// The year and the month that a file name names, if it names one of the table
/// with that prefix and interval.
pub fn parse_input_filename(file_name: &str, prefix: &str, interval: &str) -> (named: Option<
    (u32, u32),
>)
    ensures
        named == month_named(file_name@, prefix@, interval@),
        match named {
            Some((year, month)) => names_month(file_name@, prefix@, interval@, year, month),
            None => forall|year: u32, month: u32|
                !names_month(file_name@, prefix@, interval@, year, month),
        },
{
    let name = chars_of(file_name);
    let mut stem = chars_of(prefix);
    stem.push('-');
    let mut rest = chars_of(interval);
    stem.append(&mut rest);
    stem.push('-');
    assert(stem@ =~= name_stem(prefix@, interval@));
    let ghost start = stem@.len() as int;
    let ghost ending = name@.skip(name@.len() - 4);
    let length = name.len();
    proof {
        assert forall|year: u32, month: u32| #[trigger]
            names_month(file_name@, prefix@, interval@, year, month) implies {
            &&& length >= 4
            &&& ending == csv_ending()
            &&& stem@.len() < length - 4
            &&& stem@.is_prefix_of(name@)
        } by {
            let (year_text, month_text) = choose|year_text: Seq<char>, month_text: Seq<char>|
                {
                    &&& file_name@ == #[trigger] month_file_name(
                        prefix@,
                        interval@,
                        year_text,
                        month_text,
                    )
                    &&& parsed(year_text) == Some(year)
                    &&& parsed(month_text) == Some(month)
                };
            lemma_name_parts(prefix@, interval@, year_text, month_text);
        }
    }
    if length < 4 {
        return None;
    }
    let end = length - 4;
    if name[end] != '.' || name[end + 1] != 'c' || name[end + 2] != 's' || name[end + 3] != 'v' {
        assert(ending[0] == name@[end as int] && ending[1] == name@[end + 1] && ending[2]
            == name@[end + 2] && ending[3] == name@[end + 3]);
        return None;
    }
    assert(ending =~= csv_ending());
    if stem.len() >= end || !begins_with(name.as_slice(), stem.as_slice()) {
        return None;
    }
    let mut dash = stem.len();
    while dash < end && name[dash] != '-'
        invariant
            stem@.len() == start,
            start <= dash <= end,
            end == name@.len() - 4,
            forall|i: int| start <= i < dash ==> name@[i] != '-',
        decreases end - dash,
    {
        dash += 1;
    }
    let ghost year_text = name@.subrange(start, dash as int);
    let ghost month_text = name@.subrange(dash + 1, end as int);
    proof {
        assert forall|year: u32, month: u32| #[trigger]
            names_month(file_name@, prefix@, interval@, year, month) implies {
            &&& dash < end
            &&& parsed(year_text) == Some(year)
            &&& parsed(month_text) == Some(month)
            &&& 1 <= month <= 12
        } by {
            let (shown_year, shown_month) = choose|shown_year: Seq<char>, shown_month: Seq<char>|
                {
                    &&& file_name@ == #[trigger] month_file_name(
                        prefix@,
                        interval@,
                        shown_year,
                        shown_month,
                    )
                    &&& parsed(shown_year) == Some(year)
                    &&& parsed(shown_month) == Some(month)
                };
            lemma_name_parts(prefix@, interval@, shown_year, shown_month);
            lemma_numbers_hold_no_dash(shown_year);
            let split = start + shown_year.len();
            if dash < split {
                assert(name@.subrange(start, split)[dash - start] == name@[dash as int]);
            }
            assert(dash == split);
        }
    }
    if dash == end {
        return None;
    }
    let year = match parse_u32(slice_subrange(name.as_slice(), stem.len(), dash)) {
        Some(year) => year,
        None => {
            return None;
        },
    };
    let month = match parse_u32(slice_subrange(name.as_slice(), dash + 1, end)) {
        Some(month) => month,
        None => {
            return None;
        },
    };
    if month < 1 || month > 12 {
        return None;
    }
    proof {
        assert(name@.take(start) =~= stem@);
        assert(name@ =~= month_file_name(prefix@, interval@, year_text, month_text)) by {
            assert(name@ =~= name@.take(start) + year_text + seq!['-'] + month_text + name@.skip(
                end as int,
            ));
        }
        assert(names_month(file_name@, prefix@, interval@, year, month));
        let named = (year, month);
        assert(names_month(file_name@, prefix@, interval@, named.0, named.1));
        let chosen = month_named(file_name@, prefix@, interval@)->0;
        law_a_name_names_one_month(file_name@, prefix@, interval@, named, chosen);
    }
    Some((year, month))
}

/// A file name names at most one month.
pub proof fn law_a_name_names_one_month(
    file_name: Seq<char>,
    prefix: Seq<char>,
    interval: Seq<char>,
    left: (u32, u32),
    right: (u32, u32),
)
    requires
        names_month(file_name, prefix, interval, left.0, left.1),
        names_month(file_name, prefix, interval, right.0, right.1),
    ensures
        left == right,
{
    let (left_year, left_month) = choose|year_text: Seq<char>, month_text: Seq<char>|
        {
            &&& file_name == #[trigger] month_file_name(prefix, interval, year_text, month_text)
            &&& parsed(year_text) == Some(left.0)
            &&& parsed(month_text) == Some(left.1)
        };
    let (right_year, right_month) = choose|year_text: Seq<char>, month_text: Seq<char>|
        {
            &&& file_name == #[trigger] month_file_name(prefix, interval, year_text, month_text)
            &&& parsed(year_text) == Some(right.0)
            &&& parsed(month_text) == Some(right.1)
        };
    lemma_name_parts(prefix, interval, left_year, left_month);
    lemma_name_parts(prefix, interval, right_year, right_month);
    lemma_numbers_hold_no_dash(left_year);
    lemma_numbers_hold_no_dash(right_year);
    let start = name_stem(prefix, interval).len() as int;
    if left_year.len() < right_year.len() {
        assert(right_year[left_year.len() as int] == file_name[start + left_year.len()]);
    } else if right_year.len() < left_year.len() {
        assert(left_year[right_year.len() as int] == file_name[start + right_year.len()]);
    }
    assert(left_year.len() == right_year.len());
}

/// The name made of a year in decimal and a month with two digits names that
/// month.
pub proof fn law_plain_names_are_inputs(
    prefix: Seq<char>,
    interval: Seq<char>,
    year: u32,
    month: u32,
)
    requires
        1 <= month <= 12,
    ensures
        names_month(
            month_file_name(
                prefix,
                interval,
                decimal(year as nat),
                seq![digit((month / 10) as nat), digit((month % 10) as nat)],
            ),
            prefix,
            interval,
            year,
            month,
        ),
{
    let text = seq![digit((month / 10) as nat), digit((month % 10) as nat)];
    law_decimal_is_read_back(year);
    reveal_with_fuel(digits_value, 3);
    assert(text.drop_last() =~= seq![text[0]]);
    assert(text.drop_last().drop_last() =~= seq![]);
    assert(digits_value(text) == month);
    assert(all_digits(text));
}

/// A name that is that of a month ends in a digit and the ending of tables.
pub(crate) proof fn lemma_inputs_end_in_a_digit(
    file_name: Seq<char>,
    prefix: Seq<char>,
    interval: Seq<char>,
    year: u32,
    month: u32,
)
    requires
        names_month(file_name, prefix, interval, year, month),
    ensures
        file_name.len() > 6,
        file_name.skip(file_name.len() - 4) == csv_ending(),
        is_digit(file_name[file_name.len() - 5]),
{
    let (year_text, month_text) = choose|year_text: Seq<char>, month_text: Seq<char>|
        {
            &&& file_name == #[trigger] month_file_name(prefix, interval, year_text, month_text)
            &&& parsed(year_text) == Some(year)
            &&& parsed(month_text) == Some(month)
        };
    lemma_name_parts(prefix, interval, year_text, month_text);
    let end = file_name.len() - 4;
    assert(month_text.last() == file_name[end - 1]);
    if month_text[0] == '+' {
        assert(month_text.skip(1).last() == month_text.last());
        assert(is_digit(month_text.skip(1)[month_text.len() - 2]));
    } else {
        assert(is_digit(month_text[month_text.len() - 1]));
    }
}

/// What the name of a monthly file is: the prefix, the interval, a number for
/// the year and a number from 1 to 12 for the month, with a dash between two of
/// them, and `.csv` at the end.
pub proof fn law_names_of_months(
    prefix: Seq<char>,
    interval: Seq<char>,
    year_text: Seq<char>,
    month_text: Seq<char>,
)
    ensures
        ({
            let name = prefix + seq!['-'] + interval + seq!['-'] + year_text + seq!['-']
                + month_text + seq!['.', 'c', 's', 'v'];
            match (parsed(year_text), parsed(month_text)) {
                (Some(year), Some(month)) => {
                    &&& 1 <= month <= 12 ==> month_named(name, prefix, interval) == Some(
                        (year, month),
                    )
                    &&& month < 1 || month > 12 ==> month_named(name, prefix, interval) is None
                },
                _ => true,
            }
        }),
{
    let name = prefix + seq!['-'] + interval + seq!['-'] + year_text + seq!['-'] + month_text + seq![
        '.',
        'c',
        's',
        'v',
    ];
    assert(name =~= month_file_name(prefix, interval, year_text, month_text));
    if parsed(year_text) is Some && parsed(month_text) is Some {
        let named = (parsed(year_text)->0, parsed(month_text)->0);
        if 1 <= named.1 <= 12 {
            assert(names_month(name, prefix, interval, named.0, named.1));
            let chosen = month_named(name, prefix, interval)->0;
            law_a_name_names_one_month(name, prefix, interval, named, chosen);
        } else if month_named(name, prefix, interval) is Some {
            let chosen = month_named(name, prefix, interval)->0;
            assert(names_month(name, prefix, interval, chosen.0, chosen.1));
            lemma_name_is_read_one_way(
                name,
                prefix,
                interval,
                year_text,
                month_text,
                chosen.0,
                chosen.1,
            );
        }
    }
}

/// A name whose year spells a number can be taken apart in one way.
proof fn lemma_name_is_read_one_way(
    name: Seq<char>,
    prefix: Seq<char>,
    interval: Seq<char>,
    year_text: Seq<char>,
    month_text: Seq<char>,
    year: u32,
    month: u32,
)
    requires
        name == month_file_name(prefix, interval, year_text, month_text),
        parsed(year_text) is Some,
        names_month(name, prefix, interval, year, month),
    ensures
        parsed(year_text) == Some(year),
        parsed(month_text) == Some(month),
{
    let (other_year, other_month) = choose|other_year: Seq<char>, other_month: Seq<char>|
        {
            &&& name == #[trigger] month_file_name(prefix, interval, other_year, other_month)
            &&& parsed(other_year) == Some(year)
            &&& parsed(other_month) == Some(month)
        };
    lemma_name_parts(prefix, interval, year_text, month_text);
    lemma_name_parts(prefix, interval, other_year, other_month);
    lemma_numbers_hold_no_dash(year_text);
    lemma_numbers_hold_no_dash(other_year);
    let start = name_stem(prefix, interval).len() as int;
    if year_text.len() < other_year.len() {
        assert(other_year[year_text.len() as int] == name[start + year_text.len()]);
    } else if other_year.len() < year_text.len() {
        assert(year_text[other_year.len() as int] == name[start + other_year.len()]);
    }
    assert(year_text.len() == other_year.len());
}

/// A name that names a month is made of the prefix, the interval, the year, the
/// month and the ending, and each of the two numbers spells what is told of it.
pub proof fn law_a_named_month_stands_in_the_name(
    name: Seq<char>,
    prefix: Seq<char>,
    interval: Seq<char>,
) -> (parts: (Seq<char>, Seq<char>))
    requires
        month_named(name, prefix, interval) is Some,
    ensures
        name == prefix + seq!['-'] + interval + seq!['-'] + parts.0 + seq!['-'] + parts.1 + seq![
            '.',
            'c',
            's',
            'v',
        ],
        parsed(parts.0) == Some((month_named(name, prefix, interval)->0).0),
        parsed(parts.1) == Some((month_named(name, prefix, interval)->0).1),
        1 <= (month_named(name, prefix, interval)->0).1 <= 12,
{
    let (year, month) = month_named(name, prefix, interval)->0;
    assert(names_month(name, prefix, interval, year, month));
    let (year_text, month_text) = choose|year_text: Seq<char>, month_text: Seq<char>|
        {
            &&& name == #[trigger] month_file_name(prefix, interval, year_text, month_text)
            &&& parsed(year_text) == Some(year)
            &&& parsed(month_text) == Some(month)
        };
    assert(name =~= prefix + seq!['-'] + interval + seq!['-'] + year_text + seq!['-'] + month_text
        + seq!['.', 'c', 's', 'v']);
    (year_text, month_text)
}

}
