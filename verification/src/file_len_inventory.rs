//! Counting the lines of a file's contents, and the hidden-name check
//! applied to every entry of the walk.

use vstd::prelude::*;

use crate::paths::{file_name, is_hidden_path};

verus! {

/// The number of newline bytes in `s`.
pub open spec fn newline_count(s: Seq<u8>) -> nat
    decreases s.len(),
{
    if s.len() == 0 {
        0
    } else {
        newline_count(s.drop_last()) + if s.last() == 10 {
            1nat
        } else {
            0nat
        }
    }
}

/// The number of lines in `s` under buffered-line semantics: each newline
/// byte ends a line, and a trailing unterminated line still counts as one.
pub open spec fn line_count(s: Seq<u8>) -> nat {
    if s.len() == 0 {
        0
    } else if s.last() == 10 {
        newline_count(s)
    } else {
        newline_count(s) + 1
    }
}

/// The count reported for a file: its line count, with one line discounted
/// when the first line is a header and at least one line exists.
pub open spec fn counted_lines(s: Seq<u8>, header: bool) -> nat {
    if header && line_count(s) >= 1 {
        (line_count(s) - 1) as nat
    } else {
        line_count(s)
    }
}

/// There are never more newline bytes than bytes.
proof fn lemma_newline_count_le(s: Seq<u8>)
    ensures
        newline_count(s) <= s.len(),
    decreases s.len(),
{
    if s.len() > 0 {
        lemma_newline_count_le(s.drop_last());
    }
}

/// Counts the newline-delimited lines of a file's contents, discounting one
/// header line when `header` is set; the count is never negative.
pub fn count_lines(content: &Vec<u8>, header: bool) -> (n: usize)
    ensures
        n == counted_lines(content@, header),
{
    let len = content.len();
    let mut newlines: usize = 0;
    let mut i: usize = 0;
    while i < len
        invariant
            i <= len,
            len == content@.len(),
            newlines == newline_count(content@.take(i as int)),
            newlines <= i,
        decreases len - i,
    {
        if content[i] == 10 {
            newlines = newlines + 1;
        }
        proof {
            assert(content@.take(i + 1).drop_last() =~= content@.take(i as int));
        }
        i = i + 1;
    }
    proof {
        assert(content@.take(len as int) =~= content@);
        lemma_newline_count_le(content@);
        if len > 0 && content@.last() != 10 {
            assert(content@.drop_last() =~= content@.take(len - 1));
            lemma_newline_count_le(content@.drop_last());
        }
    }
    let mut lines: usize = if len == 0 {
        0
    } else if content[len - 1] == 10 {
        newlines
    } else {
        newlines + 1
    };
    if header && lines >= 1 {
        lines = lines - 1;
    }
    lines
}

/// Whether the entry's name — the final segment of its path — begins with a
/// dot. The walk prunes such entries together with everything below them.
pub fn is_hidden(path: &str) -> (r: bool)
    ensures
        r == is_hidden_path(path@),
{
    let name = file_name(path);
    if name.unicode_len() == 0 {
        false
    } else {
        name.get_char(0) == '.'
    }
}

} // verus!
