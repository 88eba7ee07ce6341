//! A plain model of slash-separated paths.
//!
//! A path is its sequence of characters; segments are separated by `'/'`.
//! The functions here split a path at its last separator, extract the
//! extension of its final segment, and measure how many directory levels a
//! root-relative path descends.

use vstd::prelude::*;

verus! {

/// The characters after the last occurrence of `sep` in `p`; all of `p` when
/// `sep` does not occur.
pub open spec fn suffix_after_last(p: Seq<char>, sep: char) -> Seq<char>
    decreases p.len(),
{
    if p.len() == 0 {
        p
    } else if p.last() == sep {
        Seq::empty()
    } else {
        suffix_after_last(p.drop_last(), sep).push(p.last())
    }
}

/// The characters before the last occurrence of `sep` in `p`; empty when
/// `sep` does not occur.
pub open spec fn prefix_before_last(p: Seq<char>, sep: char) -> Seq<char>
    decreases p.len(),
{
    if p.len() == 0 {
        p
    } else if p.last() == sep {
        p.drop_last()
    } else {
        prefix_before_last(p.drop_last(), sep)
    }
}

/// The final segment of a path: everything after the last separator.
pub open spec fn file_name_of(p: Seq<char>) -> Seq<char> {
    suffix_after_last(p, '/')
}

/// The directory part of a path: everything before the last separator;
/// empty when the path has none.
pub open spec fn parent_of(p: Seq<char>) -> Seq<char> {
    prefix_before_last(p, '/')
}

/// A name is hidden when it begins with a dot.
pub open spec fn is_hidden_name(name: Seq<char>) -> bool {
    name.len() > 0 && name[0] == '.'
}

/// A path is hidden when its final segment is a hidden name.
pub open spec fn is_hidden_path(p: Seq<char>) -> bool {
    is_hidden_name(file_name_of(p))
}

/// Some segment of the path is hidden: a dot stands at the start of the path
/// or right after a separator.
pub open spec fn has_hidden_component(p: Seq<char>) -> bool {
    exists|i: int| 0 <= i < p.len() && #[trigger] p[i] == '.' && (i == 0 || p[i - 1] == '/')
}

/// The number of separators in the path. A root-relative file path with this
/// many separators lies that many directory levels below the files that sit
/// directly in the walk's root.
pub open spec fn slash_count(p: Seq<char>) -> nat
    decreases p.len(),
{
    if p.len() == 0 {
        0
    } else {
        slash_count(p.drop_last()) + if p.last() == '/' {
            1nat
        } else {
            0nat
        }
    }
}

/// How many directory levels below the root's own files a root-relative
/// path lies: zero for `a.txt`, one for `sub/b.csv`. Each separator crossed
/// is one level.
pub open spec fn depth_of(rel: Seq<char>) -> nat {
    slash_count(rel)
}

/// The final segment holds a dot beyond its first character, so an extension
/// can be split off.
pub open spec fn has_dot_after_first(name: Seq<char>) -> bool {
    exists|i: int| 1 <= i < name.len() && #[trigger] name[i] == '.'
}

/// The extension of the final segment: the characters after its last dot,
/// provided that dot is not the segment's first character; `None` otherwise.
pub open spec fn extension_of(p: Seq<char>) -> Option<Seq<char>> {
    let name = file_name_of(p);
    if has_dot_after_first(name) {
        Some(suffix_after_last(name, '.'))
    } else {
        None
    }
}

/// Splitting at a separator-free suffix: when no `sep` occurs at or after
/// position `k`, and `k` is either 0 or preceded by `sep`, the suffix after
/// the last `sep` is exactly `p[k..]`, and the prefix before it is
/// `p[..k - 1]` (empty when `k` is 0).
pub proof fn lemma_split_at_last(p: Seq<char>, sep: char, k: int)
    requires
        0 <= k <= p.len(),
        forall|j: int| k <= j < p.len() ==> p[j] != sep,
        k == 0 || p[k - 1] == sep,
    ensures
        suffix_after_last(p, sep) == p.subrange(k, p.len() as int),
        k == 0 ==> prefix_before_last(p, sep) == Seq::<char>::empty(),
        k >= 1 ==> prefix_before_last(p, sep) == p.subrange(0, k - 1),
    decreases p.len(),
{
    if p.len() == 0 {
        assert(suffix_after_last(p, sep) =~= p.subrange(k, p.len() as int));
        assert(prefix_before_last(p, sep) =~= Seq::<char>::empty());
    } else if p.last() == sep {
        assert(k == p.len());
        assert(suffix_after_last(p, sep) =~= p.subrange(k, p.len() as int));
        assert(prefix_before_last(p, sep) =~= p.subrange(0, k - 1));
    } else {
        assert(k < p.len());
        let q = p.drop_last();
        assert(forall|j: int| k <= j < q.len() ==> q[j] != sep);
        lemma_split_at_last(q, sep, k);
        assert(q.subrange(k, q.len() as int).push(p.last()) =~= p.subrange(k, p.len() as int));
        if k >= 1 {
            assert(q.subrange(0, k - 1) =~= p.subrange(0, k - 1));
        }
    }
}

/// The index right after the last `'/'` in `path`; 0 when there is none.
fn name_start(path: &str) -> (k: usize)
    ensures
        k <= path@.len(),
        forall|j: int| k <= j < path@.len() ==> path@[j] != '/',
        k == 0 || path@[k - 1] == '/',
{
    let n: usize = path.unicode_len();
    let mut k: usize = n;
    while k > 0 && path.get_char(k - 1) != '/'
        invariant
            k <= n,
            n == path@.len(),
            forall|j: int| k <= j < path@.len() ==> path@[j] != '/',
        decreases k,
    {
        k = k - 1;
    }
    k
}

/// The final segment of `path`: everything after the last `'/'`.
pub fn file_name<'a>(path: &'a str) -> (r: &'a str)
    ensures
        r@ == file_name_of(path@),
{
    let n: usize = path.unicode_len();
    let k = name_start(path);
    proof {
        lemma_split_at_last(path@, '/', k as int);
    }
    path.substring_char(k, n)
}

/// The directory part of `path`: everything before the last `'/'`; empty
/// when the path has no separator.
pub fn parent<'a>(path: &'a str) -> (r: &'a str)
    ensures
        r@ == parent_of(path@),
{
    let k = name_start(path);
    proof {
        lemma_split_at_last(path@, '/', k as int);
    }
    if k == 0 {
        path.substring_char(0, 0)
    } else {
        path.substring_char(0, k - 1)
    }
}

/// The extension of `path`'s final segment, or `None` when it has none.
pub fn extension<'a>(path: &'a str) -> (r: Option<&'a str>)
    ensures
        match r {
            Some(e) => extension_of(path@) == Some(e@),
            None => extension_of(path@) is None,
        },
{
    let name = file_name(path);
    let n: usize = name.unicode_len();
    let mut i: usize = n;
    while i > 1 && name.get_char(i - 1) != '.'
        invariant
            i <= n,
            n == name@.len(),
            forall|j: int| i <= j < name@.len() ==> name@[j] != '.',
        decreases i,
    {
        i = i - 1;
    }
    if i >= 2 {
        proof {
            lemma_split_at_last(name@, '.', i as int);
            assert(has_dot_after_first(name@));
        }
        Some(name.substring_char(i, n))
    } else {
        proof {
            assert(forall|j: int| 1 <= j < name@.len() ==> name@[j] != '.');
        }
        None
    }
}

/// Whether any segment of `rel` is hidden: a dot stands at the start of the
/// path or right after a separator.
pub fn has_hidden_segment(rel: &str) -> (r: bool)
    ensures
        r == has_hidden_component(rel@),
{
    let n: usize = rel.unicode_len();
    let mut i: usize = 0;
    while i < n
        invariant
            i <= n,
            n == rel@.len(),
            forall|j: int| 0 <= j < i ==> !(#[trigger] rel@[j] == '.' && (j == 0 || rel@[j - 1]
                == '/')),
        decreases n - i,
    {
        if rel.get_char(i) == '.' && (i == 0 || rel.get_char(i - 1) == '/') {
            proof {
                assert(rel@[i as int] == '.' && (i as int == 0 || rel@[i as int - 1] == '/'));
            }
            return true;
        }
        i = i + 1;
    }
    false
}

/// The number of directory levels below the root's own files at which `rel`
/// lies: its count of separators.
pub fn depth_below_root(rel: &str) -> (d: usize)
    ensures
        d == depth_of(rel@),
{
    let n: usize = rel.unicode_len();
    let mut count: usize = 0;
    let mut i: usize = 0;
    while i < n
        invariant
            i <= n,
            n == rel@.len(),
            count == slash_count(rel@.take(i as int)),
            count <= i,
        decreases n - i,
    {
        if rel.get_char(i) == '/' {
            count = count + 1;
        }
        proof {
            assert(rel@.take(i + 1).drop_last() =~= rel@.take(i as int));
        }
        i = i + 1;
    }
    proof {
        assert(rel@.take(n as int) =~= rel@);
    }
    count
}

/// Whether two strings hold the same characters.
pub fn str_eq(a: &str, b: &str) -> (r: bool)
    ensures
        r == (a@ == b@),
{
    let na: usize = a.unicode_len();
    let nb: usize = b.unicode_len();
    if na != nb {
        return false;
    }
    let mut i: usize = 0;
    while i < na
        invariant
            i <= na,
            na == a@.len(),
            na == b@.len(),
            forall|j: int| 0 <= j < i ==> a@[j] == b@[j],
        decreases na - i,
    {
        if a.get_char(i) != b.get_char(i) {
            return false;
        }
        i = i + 1;
    }
    proof {
        assert(a@ =~= b@);
    }
    true
}


/// The path `rel` names inside `root`: the two joined with a separator,
/// unless one of them is empty or `root` already ends with one.
pub open spec fn joined_path(root: Seq<char>, rel: Seq<char>) -> Seq<char> {
    if rel.len() == 0 {
        root
    } else if root.len() == 0 {
        rel
    } else if root.last() == '/' {
        root + rel
    } else {
        root + seq!['/'] + rel
    }
}

/// Joins a root path and a root-relative path.
pub fn join_path(root: &str, rel: &str) -> (r: String)
    ensures
        r@ == joined_path(root@, rel@),
{
    let nrel = rel.unicode_len();
    let nroot = root.unicode_len();
    if nrel == 0 {
        String::from_str(root)
    } else if nroot == 0 {
        String::from_str(rel)
    } else if root.get_char(nroot - 1) == '/' {
        let mut r = String::from_str(root);
        r.append(rel);
        r
    } else {
        let mut r = String::from_str(root);
        r.append("/");
        r.append(rel);
        proof {
            reveal_strlit("/");
            assert("/"@ =~= seq!['/']);
        }
        r
    }
}


/// Position `k` starts the final segment of `p`: no separator stands at or
/// after it, and it is either 0 or right after one.
spec fn is_name_start(p: Seq<char>, k: int) -> bool {
    0 <= k <= p.len() && (forall|j: int| k <= j < p.len() ==> p[j] != '/') && (k == 0 || p[k - 1]
        == '/')
}

/// Every path splits at a last separator: some position starts its final
/// segment.
proof fn lemma_name_start_exists(p: Seq<char>)
    ensures
        exists|k: int| #[trigger] is_name_start(p, k),
    decreases p.len(),
{
    if p.len() == 0 {
        assert(is_name_start(p, 0));
    } else if p.last() == '/' {
        assert(is_name_start(p, p.len() as int));
    } else {
        lemma_name_start_exists(p.drop_last());
        let q = p.drop_last();
        let k = choose|k: int| #[trigger] is_name_start(q, k);
        assert(is_name_start(q, k));
        assert forall|j: int| k <= j < q.len() implies p[j] != '/' by {
            assert(q[j] != '/');
            assert(q[j] == p[j]);
        }
        assert(forall|j: int| k <= j < p.len() ==> p[j] != '/');
        assert(is_name_start(p, k));
    }
}

/// A path holds a hidden segment exactly when its final segment is hidden
/// or its directory part already holds one. Pruning hidden entries level by
/// level during a walk therefore excludes exactly the paths that the
/// segment-wise check rejects.
pub proof fn lemma_hidden_decomposition(p: Seq<char>)
    requires
        p.len() > 0,
    ensures
        has_hidden_component(p) <==> (is_hidden_path(p) || has_hidden_component(parent_of(p))),
{
    lemma_name_start_exists(p);
    let k = choose|k: int| #[trigger] is_name_start(p, k);
    lemma_split_at_last(p, '/', k);
    let name = file_name_of(p);
    let par = parent_of(p);
    assert(name =~= p.subrange(k, p.len() as int));
    if k == 0 {
        assert(par.len() == 0);
        if has_hidden_component(p) {
            let i = choose|i: int|
                0 <= i < p.len() && #[trigger] p[i] == '.' && (i == 0 || p[i - 1] == '/');
            assert(i == 0);
            assert(is_hidden_name(name));
        }
        if is_hidden_path(p) {
            assert(p[0] == '.');
            assert(has_hidden_component(p));
        }
    } else {
        assert(par =~= p.subrange(0, k - 1));
        if has_hidden_component(p) {
            let i = choose|i: int|
                0 <= i < p.len() && #[trigger] p[i] == '.' && (i == 0 || p[i - 1] == '/');
            if i >= k {
                assert(i == k);
                assert(is_hidden_name(name));
            } else {
                assert(i != k - 1);
                assert(par[i] == '.');
                assert(i == 0 || par[i - 1] == '/');
                assert(has_hidden_component(par));
            }
        }
        if is_hidden_path(p) {
            assert(p[k] == '.');
            assert(has_hidden_component(p));
        }
        if has_hidden_component(par) {
            let i = choose|i: int|
                0 <= i < par.len() && #[trigger] par[i] == '.' && (i == 0 || par[i - 1] == '/');
            assert(p[i] == '.');
            assert(i == 0 || p[i - 1] == '/');
            assert(has_hidden_component(p));
        }
    }
}

} // verus!
