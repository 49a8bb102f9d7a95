//! Text: digits, numbers in decimal, white space.
use vstd::prelude::*;

verus! {

/// `String::push`. Appends one character.
pub assume_specification[ String::push ](text: &mut String, character: char)
    ensures
        final(text)@ == old(text)@.push(character),
;

/// The digit for a value below ten.
pub open spec fn digit(value: nat) -> char {
    ('0' as nat + value) as char
}

/// Whether the character is one of `0` to `9`.
pub open spec fn is_digit(character: char) -> bool {
    '0' <= character <= '9'
}

/// A number in decimal, without leading zeros.
pub open spec fn decimal(number: nat) -> Seq<char>
    decreases number,
{
    if number < 10 {
        seq![digit(number)]
    } else {
        decimal(number / 10).push(digit(number % 10))
    }
}

/// The number that a run of digits spells.
pub open spec fn digits_value(digits: Seq<char>) -> nat
    decreases digits.len(),
{
    if digits.len() == 0 {
        0
    } else {
        digits_value(digits.drop_last()) * 10 + (digits.last() as nat - '0' as nat) as nat
    }
}

/// Whether every character is a digit.
pub open spec fn all_digits(text: Seq<char>) -> bool {
    forall|i: int| 0 <= i < text.len() ==> is_digit(#[trigger] text[i])
}

/// The number that a text spells: digits, at least one, behind a `+` or
/// nothing, with a value that a `u32` holds.
pub open spec fn parsed(text: Seq<char>) -> Option<u32> {
    let digits = if text.len() > 0 && text[0] == '+' {
        text.skip(1)
    } else {
        text
    };
    if digits.len() > 0 && all_digits(digits) && digits_value(digits) <= u32::MAX {
        Some(digits_value(digits) as u32)
    } else {
        None
    }
}

/// The characters of a text.
pub fn chars_of(text: &str) -> (characters: Vec<char>)
    ensures
        characters@ == text@,
{
    let mut characters: Vec<char> = Vec::new();
    for character in iter: text.chars()
        invariant
            characters@ == text@.take(iter.index()),
            iter.seq() == text@,
    {
        characters.push(character);
    }
    characters
}

/// The digit for a value below ten.
fn digit_char(value: u8) -> (character: char)
    requires
        value < 10,
    ensures
        character == digit(value as nat),
{
    (48 + value) as char
}

/// A number in decimal.
pub fn decimal_text(number: u64) -> (text: String)
    ensures
        text@ == decimal(number as nat),
    decreases number,
{
    let mut text = if number < 10 {
        String::new()
    } else {
        decimal_text(number / 10)
    };
    text.push(digit_char((number % 10) as u8));
    text
}

/// A longer run of digits spells no smaller number.
proof fn lemma_digits_value_grows(digits: Seq<char>, shorter: int)
    requires
        0 <= shorter <= digits.len(),
        all_digits(digits),
    ensures
        digits_value(digits.take(shorter)) <= digits_value(digits),
    decreases digits.len() - shorter,
{
    if shorter == digits.len() {
        assert(digits.take(shorter) =~= digits);
    } else {
        lemma_digits_value_grows(digits, shorter + 1);
        assert(digits.take(shorter + 1).drop_last() =~= digits.take(shorter));
    }
}

/// The number that `characters` spells, if it spells one.
pub fn parse_u32(characters: &[char]) -> (number: Option<u32>)
    ensures
        number == parsed(characters@),
{
    let start: usize = if characters.len() > 0 && characters[0] == '+' {
        1
    } else {
        0
    };
    let ghost digits = characters@.skip(start as int);
    assert(start == 0 ==> digits =~= characters@);
    if start == characters.len() {
        return None;
    }
    let mut value: u64 = 0;
    let mut index: usize = start;
    while index < characters.len()
        invariant
            start <= index <= characters.len(),
            digits == characters@.skip(start as int),
            all_digits(digits.take(index - start)),
            value == digits_value(digits.take(index - start)),
            value <= u32::MAX,
            start < characters.len(),
            digits == if characters@.len() > 0 && characters@[0] == '+' {
                characters@.skip(1)
            } else {
                characters@
            },
        decreases characters.len() - index,
    {
        let character = characters[index];
        assert(character == digits[index - start]);
        if character < '0' || character > '9' {
            return None;
        }
        let ghost shown = digits.take(index - start + 1);
        assert(shown.drop_last() =~= digits.take(index - start));
        value = value * 10 + (character as u64 - '0' as u64);
        if value > u32::MAX as u64 {
            proof {
                if all_digits(digits) {
                    lemma_digits_value_grows(digits, index - start + 1);
                }
            }
            return None;
        }
        assert forall|i: int| 0 <= i < shown.len() implies is_digit(#[trigger] shown[i]) by {
            if i < index - start {
                assert(shown[i] == digits.take(index - start)[i]);
            }
        }
        index += 1;
    }
    assert(digits.take(index - start) =~= digits);
    Some(value as u32)
}

/// What a number shows is read back as that number.
pub proof fn law_decimal_is_read_back(number: u32)
    ensures
        parsed(decimal(number as nat)) == Some(number),
{
    lemma_decimal_is_digits(number as nat);
}

/// How a text spells a number: a digit alone spells itself, a digit behind a
/// number makes ten times the number and the digit, as far as 32 bits hold it, a
/// `+` in front changes nothing, and nothing else spells a number.
pub proof fn law_numbers_are_read_digit_by_digit(text: Seq<char>, character: char)
    ensures
        parsed(seq![]) is None,
        '0' <= character <= '9' ==> parsed(seq![character]) == Some(
            (character as u32 - '0' as u32) as u32,
        ),
        '0' <= character <= '9' && parsed(text) is Some ==> parsed(text.push(character)) == if (
        parsed(text)->0) * 10 + (character as u32 - '0' as u32) <= u32::MAX {
            Some(((parsed(text)->0) * 10 + (character as u32 - '0' as u32)) as u32)
        } else {
            None
        },
        !('0' <= character <= '9') ==> parsed(text.push(character)) is None,
        text.len() > 1 && parsed(text) is Some ==> text.len() == 2 && text[0] == '+' || parsed(
            text.drop_last(),
        ) is Some,
        parsed(text) is Some ==> text.len() > 0 && '0' <= text.last() <= '9',
        text.len() > 0 && text[0] != '+' ==> parsed(seq!['+'] + text) == parsed(text),
        text.len() > 0 && text[0] == '+' ==> parsed(seq!['+'] + text) is None,
{
    reveal_with_fuel(digits_value, 2);
    let longer = text.push(character);
    let signed = text.len() > 0 && text[0] == '+';
    let digits = if signed {
        text.skip(1)
    } else {
        text
    };
    let more = if longer[0] == '+' {
        longer.skip(1)
    } else {
        longer
    };
    if text.len() > 0 {
        assert(more =~= digits.push(character));
        assert(more.drop_last() =~= digits);
        if all_digits(digits) && '0' <= character <= '9' {
            assert(all_digits(more));
        }
        if all_digits(more) {
            assert(is_digit(more[more.len() - 1]));
        }
    } else {
        assert(seq![character].drop_last() =~= seq![]);
        assert(longer =~= seq![character]);
        if character != '+' && all_digits(longer) {
            assert(is_digit(longer[0]));
        }
    }
    if parsed(text) is Some {
        assert(is_digit(digits[digits.len() - 1]));
        assert(digits.last() == text.last());
        let shorter = text.drop_last();
        if digits.len() > 1 {
            let fewer = digits.drop_last();
            assert(signed ==> shorter.skip(1) =~= fewer);
            assert(!signed ==> shorter =~= fewer);
            assert forall|i: int| 0 <= i < fewer.len() implies is_digit(#[trigger] fewer[i]) by {
                assert(fewer[i] == digits[i]);
            }
            assert(shorter[0] == text[0]);
        }
    }
    let marked = seq!['+'] + text;
    assert(marked.skip(1) =~= text);
    if signed && all_digits(text) {
        assert(is_digit(text[0]));
    }
}

/// What counts as white space: these characters and no others.
pub proof fn law_white_space(character: char)
    ensures
        is_white_space(character) <==> seq![
            0x9int,
            0xa,
            0xb,
            0xc,
            0xd,
            0x20,
            0x85,
            0xa0,
            0x1680,
            0x2000,
            0x2001,
            0x2002,
            0x2003,
            0x2004,
            0x2005,
            0x2006,
            0x2007,
            0x2008,
            0x2009,
            0x200a,
            0x2028,
            0x2029,
            0x202f,
            0x205f,
            0x3000,
        ].contains(character as int),
{
    let points = seq![
        0x9int,
        0xa,
        0xb,
        0xc,
        0xd,
        0x20,
        0x85,
        0xa0,
        0x1680,
        0x2000,
        0x2001,
        0x2002,
        0x2003,
        0x2004,
        0x2005,
        0x2006,
        0x2007,
        0x2008,
        0x2009,
        0x200a,
        0x2028,
        0x2029,
        0x202f,
        0x205f,
        0x3000,
    ];
    let point = character as int;
    if is_white_space(character) {
        let place = if point <= 0xd {
            point - 0x9
        } else if point == 0x20 {
            5
        } else if point == 0x85 {
            6
        } else if point == 0xa0 {
            7
        } else if point == 0x1680 {
            8
        } else if point <= 0x200a {
            9 + (point - 0x2000)
        } else if point == 0x2028 {
            20
        } else if point == 0x2029 {
            21
        } else if point == 0x202f {
            22
        } else if point == 0x205f {
            23
        } else {
            24
        };
        assert(points[place] == point);
    }
}

/// An answer agrees exactly if it is a `Y` or a `y` with nothing but white space
/// before and behind it.
pub proof fn law_only_a_lone_y_agrees(before: Seq<char>, letter: char, behind: Seq<char>)
    requires
        forall|i: int| 0 <= i < before.len() ==> is_white_space(#[trigger] before[i]),
        forall|i: int| 0 <= i < behind.len() ==> is_white_space(#[trigger] behind[i]),
    ensures
        letter == 'Y' || letter == 'y' ==> agrees(before + seq![letter] + behind),
        letter != 'Y' && letter != 'y' ==> !agrees(before + seq![letter] + behind),
        !agrees(before),
{
    let answer = before + seq![letter] + behind;
    let place = before.len() as int;
    assert(answer[place] == letter);
    assert(answer.take(place) =~= before);
    assert(answer.skip(place + 1) =~= behind);
    assert forall|i: int| 0 <= i < answer.len() && i != place implies is_white_space(
        #[trigger] answer[i],
    ) by {
        if i < place {
            assert(answer[i] == before[i]);
        } else {
            assert(answer[i] == behind[i - place - 1]);
        }
    }
}

/// An answer with two characters that are no white space does not agree.
pub proof fn law_a_longer_answer_does_not_agree(answer: Seq<char>, i: int, j: int)
    requires
        0 <= i < j < answer.len(),
        !is_white_space(answer[i]),
        !is_white_space(answer[j]),
    ensures
        !agrees(answer),
{
    if agrees(answer) {
        let place = choose|place: int|
            {
                &&& 0 <= place < answer.len()
                &&& #[trigger] answer[place] == 'Y' || answer[place] == 'y'
                &&& is_blank(answer.take(place))
                &&& is_blank(answer.skip(place + 1))
            };
        if i < place {
            assert(answer.take(place)[i] == answer[i]);
        } else {
            assert(answer.skip(place + 1)[j - place - 1] == answer[j]);
        }
    }
}

/// How a number is shown: by its digits, most significant first, without a
/// leading zero.
pub proof fn law_decimal_is_written_digit_by_digit(number: nat, unit: nat)
    requires
        unit < 10,
    ensures
        decimal(unit) == seq![('0' as nat + unit) as char],
        number > 0 ==> decimal(number * 10 + unit) == decimal(number).push(
            ('0' as nat + unit) as char,
        ),
{
    let longer = number * 10 + unit;
    assert(longer / 10 == number);
    assert(longer % 10 == unit);
}

/// Where the commas stand in a grouped number: behind every third digit from the
/// end, and nowhere else.
pub proof fn law_every_fourth_place_is_a_comma(digits: Seq<char>, back: int)
    requires
        all_digits(digits),
        0 <= back < grouped(digits).len(),
    ensures
        grouped(digits)[grouped(digits).len() - 1 - back] == ',' <==> back % 4 == 3,
    decreases digits.len(),
{
    let text = grouped(digits);
    if digits.len() <= 3 {
        assert(is_digit(digits[digits.len() - 1 - back]));
    } else {
        let front = digits.take(digits.len() - 3);
        let tail = digits.skip(digits.len() - 3);
        if back < 3 {
            assert(text[text.len() - 1 - back] == tail[2 - back]);
            assert(is_digit(digits[digits.len() - 1 - back]));
        } else if back > 3 {
            law_every_fourth_place_is_a_comma(front, back - 4);
            assert(text[text.len() - 1 - back] == grouped(front)[grouped(front).len() - 1 - (back
                - 4)]);
        }
    }
}

/// A number in decimal is a run of digits that spells it.
pub(crate) proof fn lemma_decimal_is_digits(number: nat)
    ensures
        decimal(number).len() > 0,
        all_digits(decimal(number)),
        digits_value(decimal(number)) == number,
    decreases number,
{
    if number < 10 {
        assert(decimal(number).drop_last() =~= seq![]);
        reveal_with_fuel(digits_value, 2);
    } else {
        lemma_decimal_is_digits(number / 10);
        assert(decimal(number).drop_last() =~= decimal(number / 10));
    }
}

/// A run of digits with a comma before every third digit from the end.
pub open spec fn grouped(digits: Seq<char>) -> Seq<char>
    decreases digits.len(),
{
    if digits.len() <= 3 {
        digits
    } else {
        grouped(digits.take(digits.len() - 3)) + seq![','] + digits.skip(digits.len() - 3)
    }
}

/// The decimal form of a number that takes more than three digits.
proof fn lemma_decimal_by_thousands(number: nat)
    requires
        number >= 1000,
    ensures
        decimal(number) == decimal(number / 1000) + seq![
            digit(number / 100 % 10),
            digit(number / 10 % 10),
            digit(number % 10),
        ],
{
    assert(number / 10 / 10 == number / 100);
    assert(number / 10 / 10 / 10 == number / 1000);
    assert(decimal(number) == decimal(number / 10).push(digit(number % 10)));
    assert(decimal(number / 10) == decimal(number / 10 / 10).push(digit(number / 10 % 10)));
    assert(decimal(number / 10 / 10) == decimal(number / 10 / 10 / 10).push(
        digit(number / 10 / 10 % 10),
    ));
    assert(decimal(number) =~= decimal(number / 1000) + seq![
        digit(number / 100 % 10),
        digit(number / 10 % 10),
        digit(number % 10),
    ]);
}

/// A number below a thousand takes at most three digits.
proof fn lemma_decimal_is_short(number: nat)
    requires
        number < 1000,
    ensures
        decimal(number).len() <= 3,
{
    reveal_with_fuel(decimal, 3);
}

/// A number in decimal, with its digits in groups of three.
pub fn format_with_commas(number: usize) -> (text: String)
    ensures
        text@ == grouped(decimal(number as nat)),
    decreases number,
{
    if number < 1000 {
        proof {
            lemma_decimal_is_short(number as nat);
        }
        return decimal_text(number as u64);
    }
    let mut text = format_with_commas(number / 1000);
    text.push(',');
    text.push(digit_char((number / 100 % 10) as u8));
    text.push(digit_char((number / 10 % 10) as u8));
    text.push(digit_char((number % 10) as u8));
    proof {
        let digits = decimal(number as nat);
        let front = decimal((number / 1000) as nat);
        let back = seq![
            digit((number / 100 % 10) as nat),
            digit((number / 10 % 10) as nat),
            digit((number % 10) as nat),
        ];
        lemma_decimal_by_thousands(number as nat);
        lemma_decimal_is_digits((number / 1000) as nat);
        assert(digits == front + back);
        assert(digits.take(digits.len() - 3) =~= front);
        assert(digits.skip(digits.len() - 3) =~= back);
        assert(text@ =~= grouped(front) + seq![','] + back);
    }
    text
}

/// Grouping adds commas and nothing else: without them the digits stand as
/// they were.
pub proof fn law_grouping_only_adds_commas(digits: Seq<char>)
    requires
        all_digits(digits),
    ensures
        grouped(digits).filter(|character: char| character != ',') == digits,
        digits.len() > 0 ==> grouped(digits).len() > 0 && grouped(digits)[0] == digits[0],
    decreases digits.len(),
{
    let keep = |character: char| character != ',';
    if digits.len() <= 3 {
        lemma_filter_keeps_all(digits, keep);
    } else {
        let front = digits.take(digits.len() - 3);
        let back = digits.skip(digits.len() - 3);
        law_grouping_only_adds_commas(front);
        lemma_filter_keeps_all(back, keep);
        Seq::filter_distributes_over_add(grouped(front), seq![','], keep);
        Seq::filter_distributes_over_add(grouped(front) + seq![','], back, keep);
        assert(seq![','].filter(keep) =~= seq![]) by {
            reveal_with_fuel(Seq::filter, 2);
            assert(seq![','].drop_last() =~= seq![]);
        }
        assert(front + back =~= digits);
    }
}

/// A filter that every item passes leaves the sequence as it is.
pub(crate) proof fn lemma_filter_keeps_all<T>(items: Seq<T>, keep: spec_fn(T) -> bool)
    requires
        forall|i: int| 0 <= i < items.len() ==> keep(#[trigger] items[i]),
    ensures
        items.filter(keep) == items,
    decreases items.len(),
{
    reveal(Seq::filter);
    if items.len() > 0 {
        lemma_filter_keeps_all(items.drop_last(), keep);
        assert(items.drop_last().push(items.last()) =~= items);
    }
}

/// The characters that count as white space.
pub open spec fn is_white_space(character: char) -> bool {
    ||| '\u{9}' <= character <= '\u{d}'
    ||| character == '\u{20}'
    ||| character == '\u{85}'
    ||| character == '\u{a0}'
    ||| character == '\u{1680}'
    ||| '\u{2000}' <= character <= '\u{200a}'
    ||| character == '\u{2028}'
    ||| character == '\u{2029}'
    ||| character == '\u{202f}'
    ||| character == '\u{205f}'
    ||| character == '\u{3000}'
}

/// A text with nothing in it but white space.
pub open spec fn is_blank(text: Seq<char>) -> bool {
    forall|i: int| 0 <= i < text.len() ==> is_white_space(#[trigger] text[i])
}

/// Whether the character counts as white space.
fn white_space(character: char) -> (white: bool)
    ensures
        white == is_white_space(character),
{
    ('\u{9}' <= character && character <= '\u{d}') || character == '\u{20}' || character
        == '\u{85}' || character == '\u{a0}' || character == '\u{1680}' || ('\u{2000}' <= character
        && character <= '\u{200a}') || character == '\u{2028}' || character == '\u{2029}'
        || character == '\u{202f}' || character == '\u{205f}' || character == '\u{3000}'
}

/// Whether a text holds nothing but white space.
pub fn blank(text: &str) -> (result: bool)
    ensures
        result == is_blank(text@),
{
    for character in iter: text.chars()
        invariant
            iter.seq() == text@,
            forall|i: int| 0 <= i < iter.index() ==> is_white_space(#[trigger] text@[i]),
    {
        if !white_space(character) {
            return false;
        }
    }
    true
}

/// An answer that agrees: a lone `Y`, large or small, in any white space.
pub open spec fn agrees(answer: Seq<char>) -> bool {
    exists|i: int|
        {
            &&& 0 <= i < answer.len()
            &&& #[trigger] answer[i] == 'Y' || answer[i] == 'y'
            &&& is_blank(answer.take(i))
            &&& is_blank(answer.skip(i + 1))
        }
}

/// Whether the answer to a prompt agrees.
pub fn is_confirmation(answer: &str) -> (agreed: bool)
    ensures
        agreed == agrees(answer@),
{
    let characters = chars_of(answer);
    let mut start: usize = 0;
    while start < characters.len() && white_space(characters[start])
        invariant
            start <= characters.len(),
            characters@ == answer@,
            forall|i: int| 0 <= i < start ==> is_white_space(#[trigger] answer@[i]),
        decreases characters.len() - start,
    {
        start += 1;
    }
    if start == characters.len() {
        proof {
            assert forall|i: int| 0 <= i < answer@.len() implies #[trigger] answer@[i] != 'Y'
                && answer@[i] != 'y' by {
                assert(is_white_space(answer@[i]));
            }
        }
        return false;
    }
    let letter = characters[start];
    let mut index: usize = start + 1;
    while index < characters.len() && white_space(characters[index])
        invariant
            start < index <= characters.len(),
            characters@ == answer@,
            forall|i: int| start < i < index ==> is_white_space(#[trigger] answer@[i]),
        decreases characters.len() - index,
    {
        index += 1;
    }
    let agreed = (letter == 'Y' || letter == 'y') && index == characters.len();
    proof {
        if agreed {
            assert(answer@[start as int] == letter);
            assert(is_blank(answer@.take(start as int)));
            assert(is_blank(answer@.skip(start + 1)));
        } else if agrees(answer@) {
            let i = choose|i: int|
                {
                    &&& 0 <= i < answer@.len()
                    &&& #[trigger] answer@[i] == 'Y' || answer@[i] == 'y'
                    &&& is_blank(answer@.take(i))
                    &&& is_blank(answer@.skip(i + 1))
                };
            if i < start {
                assert(is_white_space(answer@[i]));
            } else if i > start {
                assert(answer@.take(i)[start as int] == letter);
            } else {
                assert(answer@.skip(i + 1)[index - i - 1] == answer@[index as int]);
            }
        }
    }
    agreed
}

}
