//! Deciding whether a directory entry's extension makes it part of the
//! inventory: text and CSV files, compared without regard to case.

use vstd::prelude::*;

use crate::paths::{extension, extension_of};

verus! {

/// The kind of file a path names, judged by its extension.
#[derive(Clone, Copy, Debug, PartialEq, Eq, Structural)]
pub enum FileExtension {
    Txt,
    Csv,
    Other,
}

/// ASCII upper-case letters mapped to lower case; every other character is
/// left alone.
pub open spec fn lower_char(c: char) -> char {
    if 65 <= c as u32 && c as u32 <= 90 {
        (((c as u32) + 32) as u8) as char
    } else {
        c
    }
}

/// The sequence with each character lower-cased.
pub open spec fn lower_seq(s: Seq<char>) -> Seq<char> {
    s.map_values(|c: char| lower_char(c))
}

/// A path is eligible when it has an extension and that extension,
/// lower-cased, is "txt" or "csv".
pub open spec fn eligible_path(p: Seq<char>) -> bool {
    match extension_of(p) {
        Some(e) => lower_seq(e) == "txt"@ || lower_seq(e) == "csv"@,
        None => false,
    }
}

/// The kind that `FileExtension::from_path` assigns to a path.
pub open spec fn spec_file_extension(p: Seq<char>) -> FileExtension {
    match extension_of(p) {
        Some(e) => if lower_seq(e) == "txt"@ {
            FileExtension::Txt
        } else if lower_seq(e) == "csv"@ {
            FileExtension::Csv
        } else {
            FileExtension::Other
        },
        None => FileExtension::Other,
    }
}

fn lower_char_exec(c: char) -> (r: char)
    ensures
        r == lower_char(c),
{
    let u = c as u32;
    if 65 <= u && u <= 90 {
        ((u + 32) as u8) as char
    } else {
        c
    }
}

/// Whether `e` lower-cased is the three-character sequence `a`, `b`, `c`.
fn matches_lowered(e: &str, a: char, b: char, c: char) -> (r: bool)
    requires
        a == lower_char(a),
        b == lower_char(b),
        c == lower_char(c),
    ensures
        r == (lower_seq(e@) == seq![a, b, c]),
{
    if e.unicode_len() != 3 {
        assert(lower_seq(e@).len() == e@.len());
        return false;
    }
    let l0 = lower_char_exec(e.get_char(0));
    let l1 = lower_char_exec(e.get_char(1));
    let l2 = lower_char_exec(e.get_char(2));
    let r = l0 == a && l1 == b && l2 == c;
    proof {
        assert(lower_seq(e@).len() == 3);
        assert(lower_seq(e@)[0] == lower_char(e@[0]));
        assert(lower_seq(e@)[1] == lower_char(e@[1]));
        assert(lower_seq(e@)[2] == lower_char(e@[2]));
        if r {
            assert(lower_seq(e@) =~= seq![a, b, c]);
        } else {
            assert(lower_seq(e@) != seq![a, b, c]);
        }
    }
    r
}

impl FileExtension {
    /// Classifies a path by its extension, without regard to case.
    pub fn from_path(path: &str) -> (r: Self)
        ensures
            r == spec_file_extension(path@),
    {
        proof {
            reveal_strlit("txt");
            reveal_strlit("csv");
            assert("txt"@ =~= seq!['t', 'x', 't']);
            assert("csv"@ =~= seq!['c', 's', 'v']);
        }
        match extension(path) {
            Some(e) => {
                if matches_lowered(e, 't', 'x', 't') {
                    FileExtension::Txt
                } else if matches_lowered(e, 'c', 's', 'v') {
                    FileExtension::Csv
                } else {
                    FileExtension::Other
                }
            },
            None => FileExtension::Other,
        }
    }
}

/// Whether the path names a text or CSV file: its extension, compared
/// case-insensitively, is exactly "txt" or "csv". Paths with no extension,
/// or any other extension, are not eligible.
pub fn is_text_or_csv_file(path: &str) -> (r: bool)
    ensures
        r == eligible_path(path@),
{
    matches!(FileExtension::from_path(path), FileExtension::Txt | FileExtension::Csv)
}

} // verus!
