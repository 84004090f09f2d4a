//! The texts that stand for floating-point numbers, as the standard library reads them: an optional
//! sign, and either one of the words for infinity and not-a-number or decimal digits with an
//! optional point and an optional exponent.

use crate::text;
use vstd::prelude::*;

verus! {

pub open spec fn is_sign(c: char) -> bool {
    c == '+' || c == '-'
}

pub open spec fn is_point(c: char) -> bool {
    c == '.'
}

pub open spec fn is_exponent_mark(c: char) -> bool {
    c == 'e' || c == 'E'
}

/// Picks out the point.
pub open spec fn points() -> spec_fn(char) -> bool {
    |c: char| is_point(c)
}

/// Picks out the letter before an exponent.
pub open spec fn exponent_marks() -> spec_fn(char) -> bool {
    |c: char| is_exponent_mark(c)
}

/// A text without the sign it begins with, if it does.
pub open spec fn without_sign(text: Seq<char>) -> Seq<char> {
    if text.len() > 0 && is_sign(text[0]) {
        text.drop_first()
    } else {
        text
    }
}

/// Whether every character is a decimal digit.
pub open spec fn all_digits(text: Seq<char>) -> bool {
    forall|i: int| 0 <= i < text.len() ==> text::is_digit(#[trigger] text[i])
}

/// Digits with at most one point, and at least one digit.
pub open spec fn is_mantissa(text: Seq<char>) -> bool {
    let point = text::first_where(text, points()) as int;
    if point == text.len() {
        text.len() > 0 && all_digits(text)
    } else {
        &&& text.len() > 1
        &&& all_digits(text.take(point))
        &&& all_digits(text.skip(point + 1))
    }
}

/// An optional sign and at least one digit.
pub open spec fn is_exponent(text: Seq<char>) -> bool {
    without_sign(text).len() > 0 && all_digits(without_sign(text))
}

/// Digits with an optional point and an optional exponent.
pub open spec fn is_number(text: Seq<char>) -> bool {
    let mark = text::first_where(text, exponent_marks()) as int;
    if mark == text.len() {
        is_mantissa(text)
    } else {
        is_mantissa(text.take(mark)) && is_exponent(text.skip(mark + 1))
    }
}

/// The lower case of a letter of the ASCII alphabet; any other character itself.
pub open spec fn lower(c: char) -> char {
    if 'A' <= c <= 'Z' {
        ((c as u8) + 32) as char
    } else {
        c
    }
}

/// Whether a text is a word, in whatever case.
pub open spec fn is_word(text: Seq<char>, word: Seq<char>) -> bool {
    text.map_values(|c: char| lower(c)) == word
}

/// Whether a text stands for a floating-point number.
pub open spec fn is_float(text: Seq<char>) -> bool {
    let body = without_sign(text);
    ||| is_word(body, "inf"@)
    ||| is_word(body, "infinity"@)
    ||| is_word(body, "nan"@)
    ||| is_number(body)
}

fn digits_between(text: &[char], start: usize, end: usize) -> (result: bool)
    requires
        start <= end <= text@.len(),
    ensures
        result == all_digits(text@.subrange(start as int, end as int)),
{
    for i in start..end
        invariant
            start <= end <= text@.len(),
            forall|j: int| start <= j < i ==> text::is_digit(#[trigger] text@[j]),
    {
        if text[i] < '0' || text[i] > '9' {
            assert(!text::is_digit(text@.subrange(start as int, end as int)[i - start]));
            return false;
        }
    }
    assert forall|j: int| 0 <= j < end - start implies text::is_digit(
        #[trigger] text@.subrange(start as int, end as int)[j],
    ) by {
        assert(text::is_digit(text@[start + j]));
    }
    true
}

fn mantissa_between(text: &[char], start: usize, end: usize) -> (result: bool)
    requires
        start <= end <= text@.len(),
    ensures
        result == is_mantissa(text@.subrange(start as int, end as int)),
{
    let ghost part = text@.subrange(start as int, end as int);
    let mut point: usize = start;
    while point < end && text[point] != '.'
        invariant
            start <= point <= end <= text@.len(),
            part == text@.subrange(start as int, end as int),
            forall|j: int| 0 <= j < point - start ==> !points()(#[trigger] part[j]),
        decreases end - point,
    {
        assert(part[point - start] == text@[point as int]);
        point += 1;
    }
    proof {
        if point < end {
            assert(part[point - start] == text@[point as int]);
        }
        text::lemma_is_first_where(part, points(), (point - start) as nat);
    }
    if point == end {
        start < end && digits_between(text, start, end)
    } else {
        assert(part.take(point - start) =~= text@.subrange(start as int, point as int));
        assert(part.skip(point - start + 1) =~= text@.subrange(point + 1, end as int));
        end - start > 1 && digits_between(text, start, point) && digits_between(
            text,
            point + 1,
            end,
        )
    }
}

fn exponent_from(text: &[char], start: usize) -> (result: bool)
    requires
        start <= text@.len(),
    ensures
        result == is_exponent(text@.skip(start as int)),
{
    let ghost part = text@.skip(start as int);
    let mut digits: usize = start;
    if start < text.len() && (text[start] == '+' || text[start] == '-') {
        digits = start + 1;
    }
    assert(without_sign(part) =~= text@.subrange(digits as int, text@.len() as int));
    digits < text.len() && digits_between(text, digits, text.len())
}

fn number_from(text: &[char], start: usize) -> (result: bool)
    requires
        start <= text@.len(),
    ensures
        result == is_number(text@.skip(start as int)),
{
    let ghost part = text@.skip(start as int);
    let mut mark: usize = start;
    while mark < text.len() && text[mark] != 'e' && text[mark] != 'E'
        invariant
            start <= mark <= text@.len(),
            part == text@.skip(start as int),
            forall|j: int| 0 <= j < mark - start ==> !exponent_marks()(#[trigger] part[j]),
        decreases text@.len() - mark,
    {
        assert(part[mark - start] == text@[mark as int]);
        mark += 1;
    }
    proof {
        if mark < text@.len() {
            assert(part[mark - start] == text@[mark as int]);
        }
        text::lemma_is_first_where(part, exponent_marks(), (mark - start) as nat);
    }
    if mark == text.len() {
        assert(part =~= text@.subrange(start as int, mark as int));
        mantissa_between(text, start, mark)
    } else {
        assert(part.take(mark - start) =~= text@.subrange(start as int, mark as int));
        assert(part.skip(mark - start + 1) =~= text@.skip(mark + 1));
        mantissa_between(text, start, mark) && exponent_from(text, mark + 1)
    }
}

fn lower_of(c: char) -> (result: char)
    ensures
        result == lower(c),
{
    if 'A' <= c && c <= 'Z' {
        ((c as u8) + 32) as char
    } else {
        c
    }
}

fn word_from(text: &[char], start: usize, word: &str) -> (result: bool)
    requires
        start <= text@.len(),
    ensures
        result == is_word(text@.skip(start as int), word@),
{
    let letters = text::chars_of(word);
    let ghost part = text@.skip(start as int).map_values(|c: char| lower(c));
    let total: usize = text.len();
    if total - start != letters.len() {
        return false;
    }
    for i in 0..letters.len()
        invariant
            start + letters@.len() == total,
            total == text@.len(),
            letters@ == word@,
            part == text@.skip(start as int).map_values(|c: char| lower(c)),
            forall|j: int| 0 <= j < i ==> #[trigger] part[j] == letters@[j],
    {
        assert(part[i as int] == lower(text@[start + i]));
        if lower_of(text[start + i]) != letters[i] {
            return false;
        }
    }
    assert(part =~= word@);
    true
}

/// Whether a text stands for a floating-point number.
pub fn parses_as_float(text: &[char]) -> (result: bool)
    ensures
        result == is_float(text@),
{
    let mut start: usize = 0;
    if text.len() > 0 && (text[0] == '+' || text[0] == '-') {
        start = 1;
    }
    assert(without_sign(text@) =~= text@.skip(start as int));
    word_from(text, start, "inf") || word_from(text, start, "infinity") || word_from(
        text,
        start,
        "nan",
    ) || number_from(text, start)
}

/// Whether a character can stand in the text of a number.
pub open spec fn is_number_char(c: char) -> bool {
    ||| text::is_digit(c)
    ||| is_sign(c)
    ||| is_point(c)
    ||| 'a' <= c <= 'z'
    ||| 'A' <= c <= 'Z'
}

/// Whether every character can stand in the text of a number.
pub open spec fn has_number_chars(text: Seq<char>) -> bool {
    forall|i: int| 0 <= i < text.len() ==> is_number_char(#[trigger] text[i])
}

proof fn lemma_mantissa_chars(text: Seq<char>)
    requires
        is_mantissa(text),
    ensures
        has_number_chars(text),
{
    text::lemma_first_where(text, points());
    let point = text::first_where(text, points()) as int;
    assert forall|i: int| 0 <= i < text.len() implies is_number_char(#[trigger] text[i]) by {
        if point == text.len() {
            assert(text::is_digit(text[i]));
        } else if i < point {
            assert(text.take(point)[i] == text[i]);
        } else if i > point {
            assert(text.skip(point + 1)[i - point - 1] == text[i]);
        }
    }
}

proof fn lemma_word_chars(text: Seq<char>, word: Seq<char>)
    requires
        is_word(text, word),
        forall|i: int| 0 <= i < word.len() ==> 'a' <= #[trigger] word[i] <= 'z',
    ensures
        has_number_chars(text),
{
    assert forall|i: int| 0 <= i < text.len() implies is_number_char(#[trigger] text[i]) by {
        assert(text.map_values(|c: char| lower(c))[i] == lower(text[i]));
        assert('a' <= word[i] <= 'z');
    }
}

/// The text of a number holds digits, signs, points and letters only.
pub proof fn lemma_float_chars(text: Seq<char>)
    requires
        is_float(text),
    ensures
        has_number_chars(text),
{
    let body = without_sign(text);
    reveal_strlit("inf");
    reveal_strlit("infinity");
    reveal_strlit("nan");
    if is_word(body, "inf"@) {
        lemma_word_chars(body, "inf"@);
    } else if is_word(body, "infinity"@) {
        lemma_word_chars(body, "infinity"@);
    } else if is_word(body, "nan"@) {
        lemma_word_chars(body, "nan"@);
    } else {
        text::lemma_first_where(body, exponent_marks());
        let mark = text::first_where(body, exponent_marks()) as int;
        if mark == body.len() {
            lemma_mantissa_chars(body);
        } else {
            lemma_mantissa_chars(body.take(mark));
            let exponent = body.skip(mark + 1);
            assert forall|i: int| 0 <= i < body.len() implies is_number_char(#[trigger] body[i]) by {
                if i < mark {
                    assert(body.take(mark)[i] == body[i]);
                } else if i > mark {
                    let j = i - mark - 1;
                    assert(exponent[j] == body[i]);
                    if !is_sign(exponent[0]) {
                        assert(without_sign(exponent)[j] == exponent[j]);
                    } else if j > 0 {
                        assert(without_sign(exponent)[j - 1] == exponent[j]);
                    }
                }
            }
        }
    }
    assert forall|i: int| 0 <= i < text.len() implies is_number_char(#[trigger] text[i]) by {
        if body.len() == text.len() {
            assert(body[i] == text[i]);
        } else if i > 0 {
            assert(body[i - 1] == text[i]);
        }
    }
}

} // verus!
