//! What the traffic control tool of Linux says of an interface's queue.

use crate::text;
use crate::text::{chars_of, parse_unsigned, same_chars, split_lines, split_words};
use vstd::prelude::*;

verus! {

/// The word before the number of bytes that wait.
pub open spec fn backlog_word() -> Seq<char> {
    "backlog"@
}

/// The number of bytes that a word such as `1234b` stands for.
pub open spec fn backlog_bytes_of(value: Seq<char>) -> Option<u64> {
    if value.len() > 0 && value.last() == 'b' {
        match text::unsigned_value(value.drop_last(), u64::MAX as nat) {
            Some(bytes) => Some(bytes as u64),
            None => None,
        }
    } else {
        None
    }
}

/// What the words of a line say: nothing unless one of them is the word for the backlog, and then
/// what the word after the first such says.
pub open spec fn backlog_in_words(words: Seq<Seq<char>>) -> Option<Option<u64>>
    decreases words.len(),
{
    if words.len() == 0 {
        None
    } else if words[0] == backlog_word() {
        if words.len() == 1 {
            Some(None)
        } else {
            Some(backlog_bytes_of(words[1]))
        }
    } else {
        backlog_in_words(words.drop_first())
    }
}

/// What the first line says that says something.
pub open spec fn backlog_in_lines(lines: Seq<Seq<char>>) -> Option<u64>
    decreases lines.len(),
{
    if lines.len() == 0 {
        None
    } else {
        match backlog_in_words(text::words(lines[0])) {
            Some(bytes) => bytes,
            None => backlog_in_lines(lines.drop_first()),
        }
    }
}

pub fn parse_backlog_bytes(value: &[char]) -> (bytes: Option<u64>)
    ensures
        bytes == backlog_bytes_of(value@),
{
    if value.len() == 0 || value[value.len() - 1] != 'b' {
        return None;
    }
    let digits = vstd::slice::slice_subrange(value, 0, value.len() - 1);
    assert(digits@ =~= value@.drop_last());
    parse_unsigned(digits, u64::MAX)
}

fn words_backlog(words: &Vec<Vec<char>>) -> (found: Option<Option<u64>>)
    ensures
        found == backlog_in_words(text::char_texts(words@)),
{
    let ghost all = text::char_texts(words@);
    let wanted = chars_of("backlog");
    assert(all.skip(0) =~= all);
    for i in 0..words.len()
        invariant
            wanted@ == backlog_word(),
            all == text::char_texts(words@),
            backlog_in_words(all) == backlog_in_words(all.skip(i as int)),
    {
        proof {
            assert(all.skip(i as int)[0] == words@[i as int]@);
            assert(all.skip(i as int).drop_first() =~= all.skip(i + 1));
        }
        if same_chars(words[i].as_slice(), wanted.as_slice()) {
            if i + 1 < words.len() {
                assert(all.skip(i as int)[1] == words@[i + 1]@);
                return Some(parse_backlog_bytes(words[i + 1].as_slice()));
            }
            return Some(None);
        }
    }
    None
}

/// The number of bytes that wait in the queue, as the tool prints it.
pub fn parse_tc_backlog(stdout: &str) -> (bytes: Option<u64>)
    ensures
        bytes == backlog_in_lines(text::lines(stdout@)),
{
    let lines = split_lines(chars_of(stdout).as_slice());
    let ghost all = text::lines(stdout@);
    assert(all.skip(0) =~= all);
    for i in 0..lines.len()
        invariant
            all == text::char_texts(lines@),
            all == text::lines(stdout@),
            backlog_in_lines(all) == backlog_in_lines(all.skip(i as int)),
    {
        proof {
            assert(all.skip(i as int)[0] == lines@[i as int]@);
            assert(all.skip(i as int).drop_first() =~= all.skip(i + 1));
        }
        if let Some(bytes) = words_backlog(&split_words(lines[i].as_slice())) {
            return bytes;
        }
    }
    None
}

} // verus!
