//! The tabular report derived from the inventory: one row per file with its
//! directory, ancestor-directory and parent-directory names, the file's own
//! name and its line count, plus the total of all counts for the trailing
//! row. Rendering the rows into a spreadsheet, with its styling, is left to
//! the surrounding program.

use vstd::prelude::*;

use crate::inventory::InventoryMap;
use crate::paths::{file_name, file_name_of, parent, parent_of};

verus! {

/// The sum of the counts of a sequence of path–count pairs.
pub open spec fn total_of(s: Seq<(Seq<char>, nat)>) -> nat
    decreases s.len(),
{
    if s.len() == 0 {
        0
    } else {
        total_of(s.drop_last()) + s.last().1
    }
}

/// The name a path contributes to a report cell: its final segment, unless
/// that segment is empty or one of the relative markers `.` and `..`, which
/// name no directory.
pub open spec fn component_name(q: Seq<char>) -> Option<Seq<char>> {
    let n = file_name_of(q);
    if n.len() == 0 || n == seq!['.'] || n == seq!['.', '.'] {
        None
    } else {
        Some(n)
    }
}

/// The parent-directory cell: the name of the path's parent, with the
/// placeholder `<NA>` when there is none.
pub open spec fn parent_cell(p: Seq<char>) -> Seq<char> {
    match component_name(parent_of(p)) {
        Some(n) => n,
        None => "<NA>"@,
    }
}

/// The ancestor-directory cell: the name of the grandparent, with a
/// placeholder when there is none; in this cell the placeholder appears
/// without its closing bracket.
pub open spec fn ancestor_cell(p: Seq<char>) -> Seq<char> {
    match component_name(parent_of(parent_of(p))) {
        Some(n) => n,
        None => "<NA"@,
    }
}

/// One row of the report.
pub struct ReportRow {
    pub directory: String,
    pub ancestor: String,
    pub parent: String,
    pub file: String,
    pub line_count: usize,
}

/// The cell name a path contributes, or `None` for the placeholder.
fn component<'a>(q: &'a str) -> (r: Option<&'a str>)
    ensures
        match r {
            Some(n) => component_name(q@) == Some(n@),
            None => component_name(q@) is None,
        },
{
    let n = file_name(q);
    let len = n.unicode_len();
    if len == 0 {
        return None;
    }
    if len == 1 && n.get_char(0) == '.' {
        proof {
            assert(n@ =~= seq!['.']);
        }
        return None;
    }
    if len == 2 && n.get_char(0) == '.' && n.get_char(1) == '.' {
        proof {
            assert(n@ =~= seq!['.', '.']);
        }
        return None;
    }
    proof {
        assert(n@ != seq!['.'] && n@ != seq!['.', '.']) by {
            if n@ == seq!['.'] {
                assert(n@.len() == 1 && n@[0] == '.');
            }
            if n@ == seq!['.', '.'] {
                assert(n@.len() == 2 && n@[0] == '.' && n@[1] == '.');
            }
        }
    }
    Some(n)
}

/// The cell name a path contributes, with `fallback` in place of `None`.
fn component_or(q: &str, fallback: &str) -> (r: String)
    ensures
        r@ == match component_name(q@) {
            Some(n) => n,
            None => fallback@,
        },
{
    match component(q) {
        Some(n) => String::from_str(n),
        None => String::from_str(fallback),
    }
}

/// Derives the report's rows from the inventory, one per record in order:
/// the record's directory, the names of its ancestor and parent
/// directories, the file's own name, and its line count.
pub fn report_rows(inv: &InventoryMap) -> (rows: Vec<ReportRow>)
    ensures
        rows@.len() == inv.entries@.len(),
        forall|i: int|
            0 <= i < rows@.len() ==> {
                let p = (#[trigger] inv.entries@[i]).path@;
                &&& rows@[i].directory@ == parent_of(p)
                &&& rows@[i].ancestor@ == ancestor_cell(p)
                &&& rows@[i].parent@ == parent_cell(p)
                &&& rows@[i].file@ == file_name_of(p)
                &&& rows@[i].line_count == inv.entries@[i].line_count
            },
{
    let n = inv.entries.len();
    let mut rows: Vec<ReportRow> = Vec::new();
    let mut i: usize = 0;
    while i < n
        invariant
            i <= n,
            n == inv.entries@.len(),
            rows@.len() == i,
            forall|j: int|
                0 <= j < i ==> {
                    let p = (#[trigger] inv.entries@[j]).path@;
                    &&& rows@[j].directory@ == parent_of(p)
                    &&& rows@[j].ancestor@ == ancestor_cell(p)
                    &&& rows@[j].parent@ == parent_cell(p)
                    &&& rows@[j].file@ == file_name_of(p)
                    &&& rows@[j].line_count == inv.entries@[j].line_count
                },
        decreases n - i,
    {
        let path = inv.entries[i].path.as_str();
        let dir = parent(path);
        let row = ReportRow {
            directory: String::from_str(dir),
            ancestor: component_or(parent(dir), "<NA"),
            parent: component_or(dir, "<NA>"),
            file: String::from_str(file_name(path)),
            line_count: inv.entries[i].line_count,
        };
        rows.push(row);
        i = i + 1;
    }
    rows
}

/// All counts of a sequence prefix sum to no more than the whole.
proof fn lemma_total_take_le(s: Seq<(Seq<char>, nat)>, i: int)
    requires
        0 <= i <= s.len(),
    ensures
        total_of(s.take(i)) <= total_of(s),
    decreases s.len(),
{
    if i == s.len() {
        assert(s.take(i) =~= s);
    } else {
        assert(s.drop_last().take(i) =~= s.take(i));
        lemma_total_take_le(s.drop_last(), i);
    }
}

/// The sum of all line counts, for the report's trailing total row; `None`
/// when the total does not fit the machine word.
pub fn total_lines(inv: &InventoryMap) -> (t: Option<usize>)
    ensures
        match t {
            Some(v) => v == total_of(inv.entries_seq()),
            None => total_of(inv.entries_seq()) > usize::MAX,
        },
{
    let ghost s = inv.entries_seq();
    let n = inv.entries.len();
    let mut acc: usize = 0;
    let mut i: usize = 0;
    while i < n
        invariant
            i <= n,
            n == inv.entries@.len(),
            s == inv.entries_seq(),
            acc == total_of(s.take(i as int)),
        decreases n - i,
    {
        let c = inv.entries[i].line_count;
        proof {
            assert(s.take(i + 1).drop_last() =~= s.take(i as int));
            assert(s.take(i + 1).last().1 == c as nat);
        }
        if acc > usize::MAX - c {
            proof {
                lemma_total_take_le(s, i + 1);
            }
            return None;
        }
        acc = acc + c;
        i = i + 1;
    }
    proof {
        assert(s.take(n as int) =~= s);
    }
    Some(acc)
}

} // verus!
