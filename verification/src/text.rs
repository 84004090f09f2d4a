//! Text handling over sequences of characters: decimal numbers, splitting into fields, lines
//! and words, and the ordering of names.

use vstd::prelude::*;

verus! {

/// `String::push`: appends one character to the end of the string.
#[verifier::external_body]
pub(crate) fn push_char(text: &mut String, c: char)
    ensures
        final(text)@ == old(text)@.push(c),
{
    text.push(c)
}

/// The characters of a string, in order.
pub fn chars_of(text: &str) -> (chars: Vec<char>)
    ensures
        chars@ == text@,
{
    let mut chars: Vec<char> = Vec::new();
    for c in it: text.chars()
        invariant
            it.seq() == text@,
            chars@ == text@.take(it.index() as int),
    {
        chars.push(c);
        assert(chars@ =~= text@.take(it.index() + 1));
    }
    assert(text@.take(text@.len() as int) =~= text@);
    chars
}

/// The string that holds exactly these characters.
pub fn string_of(chars: &[char]) -> (text: String)
    ensures
        text@ == chars@,
{
    let mut text = String::new();
    for i in 0..chars.len()
        invariant
            text@ == chars@.take(i as int),
    {
        push_char(&mut text, chars[i]);
        assert(text@ =~= chars@.take(i + 1));
    }
    assert(chars@.take(chars@.len() as int) =~= chars@);
    text
}

/// Appends a character slice to a string.
pub fn push_chars(text: &mut String, chars: &[char])
    ensures
        final(text)@ == old(text)@ + chars@,
{
    for i in 0..chars.len()
        invariant
            text@ == old(text)@ + chars@.take(i as int),
    {
        push_char(text, chars[i]);
        assert(text@ =~= old(text)@ + chars@.take(i + 1));
    }
    assert(chars@.take(chars@.len() as int) =~= chars@);
}

/// Whether two character slices hold the same text.
pub fn same_chars(a: &[char], b: &[char]) -> (same: bool)
    ensures
        same == (a@ == b@),
{
    if a.len() != b.len() {
        return false;
    }
    for i in 0..a.len()
        invariant
            a@.len() == b@.len(),
            a@.take(i as int) == b@.take(i as int),
    {
        if a[i] != b[i] {
            return false;
        }
        assert(a@.take(i + 1) =~= a@.take(i as int).push(a@[i as int]));
        assert(b@.take(i + 1) =~= b@.take(i as int).push(b@[i as int]));
    }
    assert(a@.take(a@.len() as int) =~= a@);
    assert(b@.take(b@.len() as int) =~= b@);
    true
}

/// Whether two strings hold the same text.
pub fn same_text(a: &str, b: &str) -> (same: bool)
    ensures
        same == (a@ == b@),
{
    let left = chars_of(a);
    let right = chars_of(b);
    same_chars(left.as_slice(), right.as_slice())
}

/// Whether a string occurs in a list of strings.
pub fn contains_text(list: &[String], wanted: &str) -> (found: bool)
    ensures
        found == exists|i: int| 0 <= i < list@.len() && (#[trigger] list@[i])@ == wanted@,
{
    for i in 0..list.len()
        invariant
            forall|j: int| 0 <= j < i ==> (#[trigger] list@[j])@ != wanted@,
    {
        if same_text(list[i].as_str(), wanted) {
            return true;
        }
    }
    false
}

/// Whether a text starts with another.
pub fn starts_with(text: &str, prefix: &str) -> (result: bool)
    ensures
        result == prefix@.is_prefix_of(text@),
{
    let whole = chars_of(text);
    let start = chars_of(prefix);
    if start.len() > whole.len() {
        return false;
    }
    let head = vstd::slice::slice_subrange(whole.as_slice(), 0, start.len());
    let result = same_chars(head, start.as_slice());
    assert(result == prefix@.is_prefix_of(text@)) by {
        assert(head@ == text@.subrange(0, prefix@.len() as int));
    }
    result
}

/// The decimal digit of a value below ten.
pub open spec fn digit_char(value: nat) -> char {
    (('0' as nat) + value) as char
}

/// The decimal notation of a number, without leading zeros.
pub open spec fn decimal(value: nat) -> Seq<char>
    decreases value,
{
    if value < 10 {
        seq![digit_char(value)]
    } else {
        decimal(value / 10).push(digit_char(value % 10))
    }
}

/// Whether a character is a decimal digit.
pub open spec fn is_digit(c: char) -> bool {
    '0' <= c <= '9'
}

/// The value of a decimal digit.
pub open spec fn digit_value(c: char) -> nat {
    ((c as int) - ('0' as int)) as nat
}

/// The number that a run of decimal digits stands for.
pub open spec fn digits_value(digits: Seq<char>) -> nat
    decreases digits.len(),
{
    if digits.len() == 0 {
        0
    } else {
        10 * digits_value(digits.drop_last()) + digit_value(digits.last())
    }
}

/// The digits of a number's text: what is left when one leading plus sign is taken off.
pub open spec fn unsigned_digits(text: Seq<char>) -> Seq<char> {
    if text.len() > 0 && text[0] == '+' {
        text.drop_first()
    } else {
        text
    }
}

/// The number that a text stands for: an optional plus sign and one or more decimal digits, with
/// a value that does not exceed `limit`.
pub open spec fn unsigned_value(text: Seq<char>, limit: nat) -> Option<nat> {
    let digits = unsigned_digits(text);
    if digits.len() > 0 && (forall|i: int| 0 <= i < digits.len() ==> is_digit(#[trigger] digits[i]))
        && digits_value(digits) <= limit {
        Some(digits_value(digits))
    } else {
        None
    }
}

fn digit_of(value: u64) -> (c: char)
    requires
        value < 10,
    ensures
        c == digit_char(value as nat),
{
    (('0' as u8) + (value as u8)) as char
}

/// The decimal notation of a number.
pub fn decimal_chars(value: u64) -> (chars: Vec<char>)
    ensures
        chars@ == decimal(value as nat),
    decreases value,
{
    if value < 10 {
        let mut chars: Vec<char> = Vec::new();
        chars.push(digit_of(value));
        assert(chars@ =~= decimal(value as nat));
        chars
    } else {
        let mut chars = decimal_chars(value / 10);
        chars.push(digit_of(value % 10));
        chars
    }
}

/// Appends the decimal notation of a number to a string.
pub fn push_decimal(text: &mut String, value: u64)
    ensures
        final(text)@ == old(text)@ + decimal(value as nat),
{
    let digits = decimal_chars(value);
    push_chars(text, digits.as_slice());
}

/// The value of a run of digits never falls when digits are appended.
pub proof fn lemma_digits_value_grows(digits: Seq<char>, shorter: int)
    requires
        0 <= shorter <= digits.len(),
    ensures
        digits_value(digits.take(shorter)) <= digits_value(digits),
    decreases digits.len(),
{
    if shorter == digits.len() {
        assert(digits.take(shorter) =~= digits);
    } else {
        lemma_digits_value_grows(digits.drop_last(), shorter);
        assert(digits.drop_last().take(shorter) =~= digits.take(shorter));
    }
}

/// Reads a number no greater than `limit`.
pub fn parse_unsigned(text: &[char], limit: u64) -> (value: Option<u64>)
    ensures
        match value {
            Some(v) => unsigned_value(text@, limit as nat) == Some(v as nat),
            None => unsigned_value(text@, limit as nat) is None,
        },
{
    let start: usize = if text.len() > 0 && text[0] == '+' { 1 } else { 0 };
    let ghost digits = unsigned_digits(text@);
    assert(digits =~= text@.skip(start as int));
    if start == text.len() {
        return None;
    }
    let mut value: u64 = 0;
    for i in start..text.len()
        invariant
            start <= text@.len(),
            digits == unsigned_digits(text@),
            digits =~= text@.skip(start as int),
            forall|j: int| 0 <= j < i - start ==> is_digit(#[trigger] digits[j]),
            value == digits_value(digits.take(i - start)),
            value <= limit,
    {
        let c = text[i];
        assert(digits[i - start] == c);
        if c < '0' || c > '9' {
            return None;
        }
        let digit: u64 = (c as u64) - ('0' as u64);
        proof {
            assert(digits.take(i + 1 - start).drop_last() =~= digits.take(i - start));
            lemma_digits_value_grows(digits, i + 1 - start);
        }
        if value > (u64::MAX - digit) / 10 || value * 10 + digit > limit {
            return None;
        }
        value = value * 10 + digit;
    }
    assert(digits.take(text@.len() - start) =~= digits);
    Some(value)
}

/// A number's notation consists of digits and stands for the number.
pub proof fn lemma_decimal_is_digits(value: nat)
    ensures
        decimal(value).len() > 0,
        forall|i: int| 0 <= i < decimal(value).len() ==> is_digit(#[trigger] decimal(value)[i]),
        digits_value(decimal(value)) == value,
    decreases value,
{
    if value < 10 {
        assert(decimal(value).drop_last() =~= Seq::<char>::empty());
        assert(digits_value(Seq::<char>::empty()) == 0);
        assert(decimal(value).last() == digit_char(value));
    } else {
        lemma_decimal_is_digits(value / 10);
        assert(decimal(value).drop_last() =~= decimal(value / 10));
    }
}

/// Reading a number's notation gives the number back.
pub proof fn law_decimal_round_trip(value: nat, limit: nat)
    requires
        value <= limit,
    ensures
        unsigned_value(decimal(value), limit) == Some(value),
{
    lemma_decimal_is_digits(value);
    assert(is_digit(decimal(value)[0]));
}

/// The pieces of a text between the characters that `cut` picks out: one more than there are
/// such characters.
pub open spec fn split_where(text: Seq<char>, cut: spec_fn(char) -> bool) -> Seq<Seq<char>>
    decreases text.len(),
{
    if text.len() == 0 {
        seq![Seq::<char>::empty()]
    } else {
        let before = split_where(text.drop_last(), cut);
        if cut(text.last()) {
            before.push(Seq::<char>::empty())
        } else {
            before.drop_last().push(before.last().push(text.last()))
        }
    }
}

/// Picks out one character.
pub open spec fn only(separator: char) -> spec_fn(char) -> bool {
    |c: char| c == separator
}

/// The fields of a text that a separator divides.
pub open spec fn fields(text: Seq<char>, separator: char) -> Seq<Seq<char>> {
    split_where(text, only(separator))
}

/// A line without the carriage return that ends it, if one does.
pub open spec fn strip_carriage_return(line: Seq<char>) -> Seq<char> {
    if line.len() > 0 && line.last() == '\r' {
        line.drop_last()
    } else {
        line
    }
}

/// The lines of a text: each ends at a line feed, before which one carriage return is dropped.
/// What follows the last line feed is a line of its own if it is not empty.
pub open spec fn lines(text: Seq<char>) -> Seq<Seq<char>> {
    let pieces = fields(text, '\n');
    let ended = pieces.drop_last().map_values(|line: Seq<char>| strip_carriage_return(line));
    if pieces.last().len() == 0 {
        ended
    } else {
        ended.push(pieces.last())
    }
}

/// The white space of the Unicode character database.
pub open spec fn is_white_space(c: char) -> bool {
    ||| '\u{9}' <= c <= '\u{d}'
    ||| c == ' '
    ||| c == '\u{85}'
    ||| c == '\u{a0}'
    ||| c == '\u{1680}'
    ||| '\u{2000}' <= c <= '\u{200a}'
    ||| c == '\u{2028}'
    ||| c == '\u{2029}'
    ||| c == '\u{202f}'
    ||| c == '\u{205f}'
    ||| c == '\u{3000}'
}

/// The words of a text: its non-empty pieces between white space.
pub open spec fn words(text: Seq<char>) -> Seq<Seq<char>> {
    split_where(text, |c: char| is_white_space(c)).filter(|word: Seq<char>| word.len() > 0)
}

/// The texts that a list of character vectors holds.
pub open spec fn char_texts(list: Seq<Vec<char>>) -> Seq<Seq<char>> {
    list.map_values(|chars: Vec<char>| chars@)
}

/// The texts that a list of strings holds.
pub open spec fn texts(list: Seq<String>) -> Seq<Seq<char>> {
    list.map_values(|text: String| text@)
}

/// There is always at least one piece.
pub proof fn lemma_split_where_nonempty(text: Seq<char>, cut: spec_fn(char) -> bool)
    ensures
        split_where(text, cut).len() > 0,
    decreases text.len(),
{
    if text.len() > 0 {
        lemma_split_where_nonempty(text.drop_last(), cut);
    }
}

/// Splits a text at a separator.
pub fn split_fields(text: &[char], separator: char) -> (pieces: Vec<Vec<char>>)
    ensures
        char_texts(pieces@) == fields(text@, separator),
        pieces@.len() > 0,
{
    let ghost cut = only(separator);
    let mut pieces: Vec<Vec<char>> = Vec::new();
    let mut current: Vec<char> = Vec::new();
    assert(char_texts(pieces@).push(current@) =~= split_where(text@.take(0), cut));
    for i in 0..text.len()
        invariant
            cut == only(separator),
            char_texts(pieces@).push(current@) == split_where(text@.take(i as int), cut),
    {
        let c = text[i];
        let ghost before = char_texts(pieces@);
        let ghost held = current@;
        assert(text@.take(i + 1).drop_last() =~= text@.take(i as int));
        assert(before.push(held).drop_last() =~= before);
        if c == separator {
            pieces.push(current);
            current = Vec::new();
            assert(char_texts(pieces@) =~= before.push(held));
        } else {
            current.push(c);
        }
        assert(char_texts(pieces@).push(current@) =~= split_where(text@.take(i + 1), cut));
    }
    let ghost before = char_texts(pieces@);
    let ghost held = current@;
    pieces.push(current);
    assert(char_texts(pieces@) =~= before.push(held));
    assert(text@.take(text@.len() as int) =~= text@);
    pieces
}

/// Splits a text into its lines.
pub fn split_lines(text: &[char]) -> (result: Vec<Vec<char>>)
    ensures
        char_texts(result@) == lines(text@),
{
    let pieces = split_fields(text, '\n');
    let ghost ended = fields(text@, '\n').drop_last().map_values(
        |line: Seq<char>| strip_carriage_return(line),
    );
    let mut result: Vec<Vec<char>> = Vec::new();
    let last: usize = pieces.len() - 1;
    for i in 0..last
        invariant
            last == pieces@.len() - 1,
            char_texts(pieces@) == fields(text@, '\n'),
            ended == fields(text@, '\n').drop_last().map_values(
                |line: Seq<char>| strip_carriage_return(line),
            ),
            char_texts(result@) == ended.take(i as int),
    {
        let ghost before = char_texts(result@);
        assert(char_texts(pieces@)[i as int] == pieces@[i as int]@);
        let line = &pieces[i];
        let keep: usize = if line.len() > 0 && line[line.len() - 1] == '\r' {
            line.len() - 1
        } else {
            line.len()
        };
        let stripped = vstd::slice::slice_to_vec(
            vstd::slice::slice_subrange(line.as_slice(), 0, keep),
        );
        assert(stripped@ =~= strip_carriage_return(line@));
        result.push(stripped);
        assert(char_texts(result@) =~= before.push(stripped@));
        assert(char_texts(result@) =~= ended.take(i + 1));
    }
    assert(ended.take(last as int) =~= ended);
    assert(char_texts(pieces@)[last as int] == pieces@[last as int]@);
    if pieces[last].len() != 0 {
        let ghost before = char_texts(result@);
        let tail = vstd::slice::slice_to_vec(pieces[last].as_slice());
        result.push(tail);
        assert(char_texts(result@) =~= before.push(tail@));
    }
    result
}

/// Whether a character is white space.
pub fn white_space(c: char) -> (result: bool)
    ensures
        result == is_white_space(c),
{
    ('\u{9}' <= c && c <= '\u{d}') || c == ' ' || c == '\u{85}' || c == '\u{a0}' || c == '\u{1680}'
        || ('\u{2000}' <= c && c <= '\u{200a}') || c == '\u{2028}' || c == '\u{2029}'
        || c == '\u{202f}' || c == '\u{205f}' || c == '\u{3000}'
}

/// Splits a text into its words.
pub fn split_words(text: &[char]) -> (result: Vec<Vec<char>>)
    ensures
        char_texts(result@) == words(text@),
{
    let ghost cut = |c: char| is_white_space(c);
    let ghost keep = |word: Seq<char>| word.len() > 0;
    let ghost mut pieces: Seq<Seq<char>> = Seq::empty();
    let mut result: Vec<Vec<char>> = Vec::new();
    let mut current: Vec<char> = Vec::new();
    proof {
        assert(pieces.push(current@) =~= split_where(text@.take(0), cut));
        reveal(Seq::filter);
        assert(char_texts(result@) =~= pieces.filter(keep));
    }
    for i in 0..text.len()
        invariant
            cut == |c: char| is_white_space(c),
            keep == |word: Seq<char>| word.len() > 0,
            pieces.push(current@) == split_where(text@.take(i as int), cut),
            char_texts(result@) == pieces.filter(keep),
    {
        let c = text[i];
        let ghost before = char_texts(result@);
        let ghost held = current@;
        assert(text@.take(i + 1).drop_last() =~= text@.take(i as int));
        assert(pieces.push(held).drop_last() =~= pieces);
        if white_space(c) {
            proof {
                reveal(Seq::filter);
                assert(pieces.push(held).filter(keep) =~= if held.len() > 0 {
                    before.push(held)
                } else {
                    before
                });
                pieces = pieces.push(held);
            }
            if current.len() > 0 {
                result.push(current);
                assert(char_texts(result@) =~= before.push(held));
            }
            current = Vec::new();
        } else {
            current.push(c);
        }
        assert(pieces.push(current@) =~= split_where(text@.take(i + 1), cut));
    }
    assert(text@.take(text@.len() as int) =~= text@);
    let ghost before = char_texts(result@);
    let ghost held = current@;
    proof {
        reveal(Seq::filter);
        assert(pieces.push(held).drop_last() =~= pieces);
        assert(pieces.push(held).filter(keep) =~= if held.len() > 0 {
            before.push(held)
        } else {
            before
        });
    }
    if current.len() > 0 {
        result.push(current);
        assert(char_texts(result@) =~= before.push(held));
    }
    result
}

/// Cutting a text that holds no character to cut at gives the text itself.
pub proof fn lemma_split_where_uncut(text: Seq<char>, cut: spec_fn(char) -> bool)
    requires
        forall|i: int| 0 <= i < text.len() ==> !cut(#[trigger] text[i]),
    ensures
        split_where(text, cut) == seq![text],
    decreases text.len(),
{
    if text.len() == 0 {
        assert(text =~= Seq::<char>::empty());
        assert(split_where(text, cut) =~= seq![text]);
    } else {
        assert forall|i: int| 0 <= i < text.drop_last().len() implies !cut(
            #[trigger] text.drop_last()[i],
        ) by {
            assert(text.drop_last()[i] == text[i]);
        }
        lemma_split_where_uncut(text.drop_last(), cut);
        assert(!cut(text[text.len() - 1]));
        assert(text.drop_last().push(text.last()) =~= text);
        assert(split_where(text, cut) =~= seq![text]);
    }
}

/// What follows a character to cut at is cut by itself.
pub proof fn lemma_split_where_at(
    before: Seq<char>,
    at: char,
    after: Seq<char>,
    cut: spec_fn(char) -> bool,
)
    requires
        cut(at),
    ensures
        split_where(before.push(at) + after, cut) == split_where(before, cut) + split_where(
            after,
            cut,
        ),
    decreases after.len(),
{
    let text = before.push(at) + after;
    lemma_split_where_nonempty(after, cut);
    if after.len() == 0 {
        assert(text =~= before.push(at));
        assert(text.drop_last() =~= before);
        assert(split_where(text, cut) =~= split_where(before, cut) + split_where(after, cut));
    } else {
        lemma_split_where_at(before, at, after.drop_last(), cut);
        lemma_split_where_nonempty(after.drop_last(), cut);
        assert(text.drop_last() =~= before.push(at) + after.drop_last());
        assert(text.last() == after.last());
        let left = split_where(before, cut);
        let right = split_where(after.drop_last(), cut);
        assert((left + right).drop_last() =~= left + right.drop_last());
        assert((left + right).last() == right.last());
        assert(split_where(text, cut) =~= left + split_where(after, cut));
    }
}

/// A text without separators is a single field.
pub proof fn lemma_single_field(text: Seq<char>, separator: char)
    requires
        !text.contains(separator),
    ensures
        fields(text, separator) == seq![text],
{
    let cut = only(separator);
    assert forall|i: int| 0 <= i < text.len() implies !cut(#[trigger] text[i]) by {
        assert(text.contains(text[i]));
    }
    lemma_split_where_uncut(text, cut);
}

/// A number below a hundred in two digits; a greater one in as many as it needs.
pub open spec fn two_digits(value: nat) -> Seq<char> {
    if value < 10 {
        "0"@ + decimal(value)
    } else {
        decimal(value)
    }
}

fn push_two_digits(text: &mut String, value: u64)
    ensures
        final(text)@ == old(text)@ + two_digits(value as nat),
{
    if value < 10 {
        text.append("0");
        push_decimal(text, value);
        assert(text@ =~= old(text)@ + ("0"@ + decimal(value as nat)));
    } else {
        push_decimal(text, value);
    }
}

/// A running time as hours, minutes and seconds.
pub open spec fn uptime_text(elapsed_secs: u64) -> Seq<char> {
    two_digits((elapsed_secs / 3600) as nat) + ":"@ + two_digits((elapsed_secs / 60 % 60) as nat)
        + ":"@ + two_digits((elapsed_secs % 60) as nat)
}

/// A running time as hours, minutes and seconds.
pub fn fmt_uptime(elapsed_secs: u64) -> (text: String)
    ensures
        text@ == uptime_text(elapsed_secs),
{
    let mut text = String::new();
    push_two_digits(&mut text, elapsed_secs / 3600);
    assert(text@ =~= two_digits((elapsed_secs / 3600) as nat));
    text.append(":");
    push_two_digits(&mut text, elapsed_secs / 60 % 60);
    text.append(":");
    push_two_digits(&mut text, elapsed_secs % 60);
    text
}

/// How many characters of an endpoint's identifier are shown.
pub const ENDPOINT_PREFIX_LEN: usize = 8;

/// The start of an endpoint's identifier.
pub open spec fn short_text(endpoint_id: Seq<char>) -> Seq<char> {
    if endpoint_id.len() <= ENDPOINT_PREFIX_LEN {
        endpoint_id
    } else {
        endpoint_id.take(ENDPOINT_PREFIX_LEN as int)
    }
}

/// The start of an endpoint's identifier.
pub fn short_endpoint(endpoint_id: &str) -> (text: String)
    ensures
        text@ == short_text(endpoint_id@),
{
    let chars = chars_of(endpoint_id);
    if chars.len() <= ENDPOINT_PREFIX_LEN {
        string_of(chars.as_slice())
    } else {
        string_of(vstd::slice::slice_subrange(chars.as_slice(), 0, ENDPOINT_PREFIX_LEN))
    }
}

/// The texts of a list in order, with a separator between each two.
pub open spec fn joined(list: Seq<Seq<char>>, separator: Seq<char>) -> Seq<char>
    decreases list.len(),
{
    if list.len() == 0 {
        Seq::empty()
    } else if list.len() == 1 {
        list[0]
    } else {
        joined(list.drop_last(), separator) + separator + list.last()
    }
}

/// Joins the strings of a list.
pub fn join(list: &[String], separator: &str) -> (text: String)
    ensures
        text@ == joined(texts(list@), separator@),
{
    let mut text = String::new();
    for i in 0..list.len()
        invariant
            text@ == joined(texts(list@).take(i as int), separator@),
    {
        if i > 0 {
            text.append(separator);
        }
        text.append(list[i].as_str());
        assert(texts(list@).take(i + 1).drop_last() =~= texts(list@).take(i as int));
        assert(texts(list@)[i as int] == list@[i as int]@);
        assert(text@ =~= joined(texts(list@).take(i + 1), separator@));
    }
    assert(texts(list@).take(list@.len() as int) =~= texts(list@));
    text
}

/// Adding characters that are not cut at lengthens the last piece.
pub proof fn lemma_split_where_append(
    text: Seq<char>,
    more: Seq<char>,
    cut: spec_fn(char) -> bool,
)
    requires
        forall|i: int| 0 <= i < more.len() ==> !cut(#[trigger] more[i]),
    ensures
        split_where(text + more, cut) == split_where(text, cut).drop_last().push(
            split_where(text, cut).last() + more,
        ),
    decreases more.len(),
{
    lemma_split_where_nonempty(text, cut);
    let pieces = split_where(text, cut);
    if more.len() == 0 {
        assert(text + more =~= text);
        assert(pieces.last() + more =~= pieces.last());
        assert(pieces =~= pieces.drop_last().push(pieces.last()));
    } else {
        let fewer = more.drop_last();
        assert forall|i: int| 0 <= i < fewer.len() implies !cut(#[trigger] fewer[i]) by {
            assert(fewer[i] == more[i]);
        }
        lemma_split_where_append(text, fewer, cut);
        assert((text + more).drop_last() =~= text + fewer);
        assert(!cut(more[more.len() - 1]));
        assert((text + more).last() == more.last());
        let before = split_where(text + fewer, cut);
        assert(before.last() == pieces.last() + fewer);
        assert((pieces.last() + fewer).push(more.last()) =~= pieces.last() + more);
        assert(before.drop_last() =~= pieces.drop_last());
        assert(split_where(text + more, cut) =~= pieces.drop_last().push(pieces.last() + more));
    }
}

/// Fields that hold no separator come back from the text that joins them.
pub proof fn lemma_fields_of_joined(list: Seq<Seq<char>>, separator: char)
    requires
        list.len() > 0,
        forall|i: int| 0 <= i < list.len() ==> !(#[trigger] list[i]).contains(separator),
    ensures
        fields(joined(list, seq![separator]), separator) == list,
    decreases list.len(),
{
    if list.len() == 1 {
        assert(!list[0].contains(separator));
        lemma_single_field(list[0], separator);
        assert(list =~= seq![list[0]]);
    } else {
        let shorter = list.drop_last();
        assert forall|i: int| 0 <= i < shorter.len() implies !(#[trigger] shorter[i]).contains(
            separator,
        ) by {
            assert(shorter[i] == list[i]);
        }
        lemma_fields_of_joined(shorter, separator);
        assert(!list[list.len() - 1].contains(separator));
        lemma_single_field(list.last(), separator);
        let before = joined(shorter, seq![separator]);
        assert(joined(list, seq![separator]) =~= before.push(separator) + list.last());
        lemma_split_where_at(before, separator, list.last(), only(separator));
        assert(shorter + seq![list.last()] =~= list);
    }
}

/// The text of lines, each ended by a line feed.
pub open spec fn terminated(list: Seq<Seq<char>>) -> Seq<char>
    decreases list.len(),
{
    if list.len() == 0 {
        Seq::empty()
    } else {
        (terminated(list.drop_last()) + list.last()).push('\n')
    }
}

/// Lines without line feeds, of which none ends with a carriage return, come back from their text.
pub proof fn lemma_lines_of_terminated(list: Seq<Seq<char>>)
    requires
        forall|i: int|
            0 <= i < list.len() ==> !(#[trigger] list[i]).contains('\n') && strip_carriage_return(
                list[i],
            ) == list[i],
    ensures
        lines(terminated(list)) == list,
{
    lemma_fields_of_terminated(list);
    let pieces = fields(terminated(list), '\n');
    let strip = |line: Seq<char>| strip_carriage_return(line);
    assert(pieces.drop_last() =~= list);
    assert forall|i: int| 0 <= i < list.len() implies #[trigger] list.map_values(strip)[i]
        == list[i] by {
        assert(strip_carriage_return(list[i]) == list[i]);
    }
    assert(list.map_values(strip) =~= list);
}

proof fn lemma_fields_of_terminated(list: Seq<Seq<char>>)
    requires
        forall|i: int| 0 <= i < list.len() ==> !(#[trigger] list[i]).contains('\n'),
    ensures
        fields(terminated(list), '\n') == list.push(Seq::empty()),
    decreases list.len(),
{
    let cut = only('\n');
    if list.len() == 0 {
        assert(fields(terminated(list), '\n') =~= list.push(Seq::empty()));
    } else {
        let shorter = list.drop_last();
        let line = list.last();
        assert forall|i: int| 0 <= i < shorter.len() implies !(#[trigger] shorter[i]).contains(
            '\n',
        ) by {
            assert(shorter[i] == list[i]);
        }
        lemma_fields_of_terminated(shorter);
        assert(!list[list.len() - 1].contains('\n'));
        assert forall|i: int| 0 <= i < line.len() implies !cut(#[trigger] line[i]) by {
            assert(line.contains(line[i]));
        }
        let before = terminated(shorter);
        lemma_split_where_append(before, line, cut);
        assert(Seq::<char>::empty() + line =~= line);
        assert(shorter.push(Seq::<char>::empty()).drop_last() =~= shorter);
        assert(split_where(before + line, cut) =~= list);
        assert((before + line).push('\n').drop_last() =~= before + line);
        assert(fields(terminated(list), '\n') =~= list.push(Seq::empty()));
    }
}

/// Where the first character stands that `cut` picks out; the length of the text if there is none.
pub open spec fn first_where(text: Seq<char>, cut: spec_fn(char) -> bool) -> nat
    decreases text.len(),
{
    if text.len() == 0 || cut(text[0]) {
        0
    } else {
        1 + first_where(text.drop_first(), cut)
    }
}

/// The first place that is picked out is picked out, and no place before it is.
pub proof fn lemma_first_where(text: Seq<char>, cut: spec_fn(char) -> bool)
    ensures
        first_where(text, cut) <= text.len(),
        first_where(text, cut) < text.len() ==> cut(text[first_where(text, cut) as int]),
        forall|i: int| 0 <= i < first_where(text, cut) ==> !cut(#[trigger] text[i]),
    decreases text.len(),
{
    if text.len() > 0 && !cut(text[0]) {
        let rest = text.drop_first();
        lemma_first_where(rest, cut);
        assert forall|i: int| 0 <= i < first_where(text, cut) implies !cut(#[trigger] text[i]) by {
            if i > 0 {
                assert(rest[i - 1] == text[i]);
            }
        }
    }
}

/// A place that is picked out, with none before it, is the first.
pub proof fn lemma_is_first_where(text: Seq<char>, cut: spec_fn(char) -> bool, place: nat)
    requires
        place <= text.len(),
        place < text.len() ==> cut(text[place as int]),
        forall|i: int| 0 <= i < place ==> !cut(#[trigger] text[i]),
    ensures
        first_where(text, cut) == place,
{
    lemma_first_where(text, cut);
    let first = first_where(text, cut);
    if first < place {
        assert(!cut(text[first as int]));
    } else if place < first {
        assert(!cut(text[place as int]));
    }
}

/// A text that spaces before it bring to a width.
pub open spec fn padded(text: Seq<char>, width: nat) -> Seq<char> {
    if text.len() >= width {
        text
    } else {
        Seq::new((width - text.len()) as nat, |i: int| ' ') + text
    }
}

/// Appends a text, with spaces before it that bring it to a width.
pub fn push_padded(line: &mut String, text: &str, width: usize)
    ensures
        final(line)@ == old(line)@ + padded(text@, width as nat),
{
    let chars = chars_of(text);
    let mut spaces: Vec<char> = Vec::new();
    let mut filled: usize = chars.len();
    while filled < width
        invariant
            chars@ == text@,
            filled == chars@.len() + spaces@.len(),
            filled <= width || spaces@.len() == 0,
            forall|i: int| 0 <= i < spaces@.len() ==> #[trigger] spaces@[i] == ' ',
        decreases width - filled,
    {
        spaces.push(' ');
        filled = filled + 1;
    }
    let ghost before = line@;
    push_chars(line, spaces.as_slice());
    line.append(text);
    assert(line@ =~= before + padded(text@, width as nat));
}

/// Appends a number, with spaces before it that bring it to a width.
pub fn push_padded_decimal(line: &mut String, value: u64, width: usize)
    ensures
        final(line)@ == old(line)@ + padded(decimal(value as nat), width as nat),
{
    let mut digits = "".to_owned();
    proof {
        reveal_strlit("");
    }
    push_decimal(&mut digits, value);
    assert(digits@ =~= decimal(value as nat));
    push_padded(line, digits.as_str(), width);
}

/// Whether a pattern occurs in a text at a place.
pub open spec fn occurs_at(text: Seq<char>, pattern: Seq<char>, place: int) -> bool {
    0 <= place && place + pattern.len() <= text.len() && text.subrange(
        place,
        place + pattern.len(),
    ) == pattern
}

/// What follows the first occurrence of a pattern in a text, looking from a place on.
pub open spec fn rest_after(text: Seq<char>, pattern: Seq<char>, place: nat) -> Option<Seq<char>>
    decreases text.len() + 1 - place,
{
    if place + pattern.len() > text.len() {
        None
    } else if occurs_at(text, pattern, place as int) {
        Some(text.skip((place + pattern.len()) as int))
    } else {
        rest_after(text, pattern, place + 1)
    }
}

/// What follows the first occurrence of a pattern in a text.
pub fn after_first(text: &str, pattern: &str) -> (rest: Option<String>)
    ensures
        match rest_after(text@, pattern@, 0) {
            Some(found) => rest matches Some(text) && text@ == found,
            None => rest is None,
        },
{
    let chars = chars_of(text);
    let wanted = chars_of(pattern);
    if wanted.len() > chars.len() {
        return None;
    }
    let length: usize = chars.len();
    let last: usize = length - wanted.len();
    let mut place: usize = 0;
    while place <= last
        invariant
            chars@ == text@,
            wanted@ == pattern@,
            length == chars@.len(),
            last == length - wanted@.len(),
            place <= last,
            rest_after(text@, pattern@, 0) == rest_after(text@, pattern@, place as nat),
        decreases last + 1 - place,
    {
        let end: usize = place + wanted.len();
        if same_chars(vstd::slice::slice_subrange(chars.as_slice(), place, end), wanted.as_slice()) {
            let rest = string_of(vstd::slice::slice_subrange(chars.as_slice(), end, length));
            assert(rest@ =~= text@.skip(end as int));
            return Some(rest);
        }
        assert(rest_after(text@, pattern@, place as nat) == rest_after(
            text@,
            pattern@,
            (place + 1) as nat,
        ));
        if place == last {
            return None;
        }
        place = place + 1;
    }
    None
}

/// The last place of a character in a text.
pub open spec fn last_place(text: Seq<char>, wanted: char) -> Option<nat>
    decreases text.len(),
{
    if text.len() == 0 {
        None
    } else if text.last() == wanted {
        Some((text.len() - 1) as nat)
    } else {
        last_place(text.drop_last(), wanted)
    }
}

/// The last place of a character lies in the text.
pub proof fn lemma_last_place(text: Seq<char>, wanted: char)
    ensures
        last_place(text, wanted) matches Some(place) ==> place < text.len() && text[place as int]
            == wanted,
    decreases text.len(),
{
    if text.len() > 0 && text.last() != wanted {
        lemma_last_place(text.drop_last(), wanted);
    }
}

/// What stands before and after the last place of a character.
pub fn split_at_last(text: &str, wanted: char) -> (parts: Option<(String, String)>)
    ensures
        match last_place(text@, wanted) {
            Some(place) => parts matches Some(found) && found.0@ == text@.take(place as int)
                && found.1@ == text@.skip((place + 1) as int),
            None => parts is None,
        },
{
    let chars = chars_of(text);
    let length: usize = chars.len();
    let mut end: usize = length;
    assert(text@.take(end as int) =~= text@);
    while end > 0
        invariant
            chars@ == text@,
            length == chars@.len(),
            end <= length,
            last_place(text@, wanted) == last_place(text@.take(end as int), wanted),
        decreases end,
    {
        assert(text@.take(end as int).drop_last() =~= text@.take(end - 1));
        if chars[end - 1] == wanted {
            let before = string_of(
                vstd::slice::slice_subrange(chars.as_slice(), 0, end - 1),
            );
            let after = string_of(vstd::slice::slice_subrange(chars.as_slice(), end, length));
            assert(before@ =~= text@.take(end - 1));
            assert(after@ =~= text@.skip(end as int));
            return Some((before, after));
        }
        end = end - 1;
    }
    None
}

} // verus!
