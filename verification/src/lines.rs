//! Counting the lines of a text, and of a file's content.

use vstd::prelude::*;
use vstd::string::StringSliceAdditionalSpecFns;
use vstd::utf8::{decode_utf8, encode_utf8_decode_utf8, valid_utf8};

verus! {

/// The number of line feeds in `text`.
pub open spec fn newline_count(text: Seq<char>) -> nat
    decreases text.len(),
{
    if text.len() == 0 {
        0
    } else {
        newline_count(text.drop_last()) + if text.last() == '\n' {
            1nat
        } else {
            0nat
        }
    }
}

/// The number of lines of `text`: one for each line feed, and one more for
/// what follows the last line feed, unless nothing follows it.
pub open spec fn line_count(text: Seq<char>) -> nat {
    newline_count(text) + if text.len() > 0 && text.last() != '\n' {
        1nat
    } else {
        0nat
    }
}

/// A text has no more line feeds than characters.
pub proof fn lemma_newline_count_bound(text: Seq<char>)
    ensures
        newline_count(text) <= text.len(),
    decreases text.len(),
{
    if text.len() > 0 {
        lemma_newline_count_bound(text.drop_last());
    }
}

/// A text has no more lines than characters.
pub proof fn lemma_line_count_bound(text: Seq<char>)
    ensures
        line_count(text) <= text.len(),
{
    if text.len() > 0 {
        lemma_newline_count_bound(text.drop_last());
    }
}

/// Counts the lines of `text`.
pub fn count_lines(text: &str) -> (lines: u64)
    ensures
        lines == line_count(text@),
{
    let length: usize = text.unicode_len();
    let mut feeds: u64 = 0;
    let mut unterminated: bool = false;
    for c in it: text.chars()
        invariant
            it.seq() == text@,
            length == text@.len(),
            feeds == newline_count(text@.take(it.index() as int)),
            feeds <= it.index(),
            unterminated == (it.index() > 0 && text@[it.index() - 1] != '\n'),
    {
        proof {
            let seen = text@.take(it.index() + 1);
            assert(seen.drop_last() =~= text@.take(it.index() as int));
            assert(seen.last() == c);
        }
        if c == '\n' {
            feeds += 1;
            unterminated = false;
        } else {
            unterminated = true;
        }
    }
    proof {
        assert(text@.take(text@.len() as int) =~= text@);
        lemma_line_count_bound(text@);
    }
    if unterminated {
        feeds + 1
    } else {
        feeds
    }
}

/// The text that `content` holds, if it is text: the characters that it
/// encodes in UTF-8.
pub open spec fn text_of(content: Seq<u8>) -> Option<Seq<char>> {
    if valid_utf8(content) {
        Some(decode_utf8(content))
    } else {
        None
    }
}

/// Content that is no text.
#[derive(Clone, Copy, Debug, PartialEq, Eq)]
pub struct DecodeError;

/// Calls `std::str::from_utf8`, which gives the bytes back as a string slice
/// if they are valid UTF-8, and an error if they are not; the error is
/// dropped.
#[verifier::external_body]
fn text_from_utf8(content: &[u8]) -> (text: Option<&str>)
    ensures
        text matches Some(found) ==> valid_utf8(content@) && found.spec_bytes() == content@,
        text is None ==> !valid_utf8(content@),
{
    std::str::from_utf8(content).ok()
}

/// Counts the lines of a file, given its content, if the content is text.
pub fn count_lines_in_file(content: &[u8]) -> (outcome: Result<u64, DecodeError>)
    ensures
        outcome matches Ok(lines) ==> text_of(content@) matches Some(text) && lines == line_count(
            text,
        ),
        outcome is Err ==> text_of(content@) is None,
{
    match text_from_utf8(content) {
        Some(text) => {
            proof {
                encode_utf8_decode_utf8(text@);
            }
            Ok(count_lines(text))
        },
        None => Err(DecodeError),
    }
}

} // verus!
