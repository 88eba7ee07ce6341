//! The inventory aggregator: turning the entries a walk of the directory
//! tree discovered into a map from file path to line count.
//!
//! The surrounding program enumerates the tree and reads file contents; the
//! aggregator decides, for each entry, whether it belongs in the inventory —
//! a regular, readable file, hidden at no level below the root, with an
//! eligible extension, within the depth bound — and records its line count
//! under its root-relative path. The resulting map is a function of the
//! *set* of walked entries alone, so neither enumeration order nor dispatch
//! order can affect its content.

use vstd::prelude::*;

use crate::file_len_inventory::{count_lines, counted_lines};
use crate::inventory_processor::{eligible_path, is_text_or_csv_file};
use crate::paths::{depth_below_root, depth_of, has_hidden_component, has_hidden_segment, str_eq};

verus! {

/// One entry that a walk of the directory tree discovered.
pub struct FsEntry {
    /// The entry's path, relative to the walk's root.
    pub rel: String,
    /// Whether the entry is a regular file.
    pub is_file: bool,
    /// The file's bytes; `None` when the entry is not a regular file or its
    /// contents could not be read.
    pub content: Option<Vec<u8>>,
}

/// The mathematical image of one walked entry.
pub ghost struct FsEntryV {
    pub rel: Seq<char>,
    pub is_file: bool,
    pub content: Option<Seq<u8>>,
}

impl View for FsEntry {
    type V = FsEntryV;

    open spec fn view(&self) -> FsEntryV {
        FsEntryV {
            rel: self.rel@,
            is_file: self.is_file,
            content: match self.content {
                Some(c) => Some(c@),
                None => None,
            },
        }
    }
}

/// Whether a walked entry belongs in the inventory: a regular file whose
/// contents could be read, hidden at no level below the root, with an
/// eligible extension, at most `max_depth` levels below the files that sit
/// directly in the root.
pub open spec fn included(e: FsEntryV, max_depth: int) -> bool {
    &&& e.is_file
    &&& e.content is Some
    &&& !has_hidden_component(e.rel)
    &&& eligible_path(e.rel)
    &&& depth_of(e.rel) <= max_depth
}

/// The line count recorded for an included entry.
pub open spec fn entry_count(e: FsEntryV, header: bool) -> nat {
    counted_lines(
        match e.content {
            Some(c) => c,
            None => Seq::empty(),
        },
        header,
    )
}

/// No two distinct entries share a relative path.
pub open spec fn distinct_rels(es: Set<FsEntryV>) -> bool {
    forall|e1: FsEntryV, e2: FsEntryV|
        #![trigger es.contains(e1), es.contains(e2)]
        es.contains(e1) && es.contains(e2) && e1 != e2 ==> e1.rel != e2.rel
}

/// Some entry of the set is included and has relative path `p`.
pub open spec fn key_present(es: Set<FsEntryV>, max_depth: int, p: Seq<char>) -> bool {
    exists|e: FsEntryV| #[trigger] es.contains(e) && included(e, max_depth) && e.rel == p
}

/// An entry of the set that is included and has relative path `p`, when one
/// exists.
pub open spec fn entry_at(es: Set<FsEntryV>, max_depth: int, p: Seq<char>) -> FsEntryV {
    choose|e: FsEntryV| #[trigger] es.contains(e) && included(e, max_depth) && e.rel == p
}

/// The inventory that a set of walked entries determines: each included
/// entry's relative path maps to that entry's line count. Stated over a
/// set, so the order in which entries were discovered cannot enter.
pub open spec fn inv_map_of(es: Set<FsEntryV>, max_depth: int, header: bool) -> Map<
    Seq<char>,
    nat,
> {
    Map::new(
        |p: Seq<char>| key_present(es, max_depth, p),
        |p: Seq<char>| entry_count(entry_at(es, max_depth, p), header),
    )
}

/// In a set of entries with distinct paths, an included entry owns its key:
/// the inventory maps the entry's path to that entry's line count.
pub proof fn lemma_inv_map_at(es: Set<FsEntryV>, max_depth: int, header: bool, e: FsEntryV)
    requires
        distinct_rels(es),
        es.contains(e),
        included(e, max_depth),
    ensures
        inv_map_of(es, max_depth, header).dom().contains(e.rel),
        inv_map_of(es, max_depth, header)[e.rel] == entry_count(e, header),
{
    assert(key_present(es, max_depth, e.rel));
    let w = entry_at(es, max_depth, e.rel);
    assert(es.contains(w) && included(w, max_depth) && w.rel == e.rel);
    assert(w == e);
}

/// Adding one newly discovered entry to the set either records its line
/// count under its path — when the entry is included — or leaves the
/// inventory unchanged.
pub proof fn lemma_inv_map_insert(es: Set<FsEntryV>, e: FsEntryV, max_depth: int, header: bool)
    requires
        distinct_rels(es.insert(e)),
        !es.contains(e),
    ensures
        included(e, max_depth) ==> inv_map_of(es.insert(e), max_depth, header) == inv_map_of(
            es,
            max_depth,
            header,
        ).insert(e.rel, entry_count(e, header)),
        !included(e, max_depth) ==> inv_map_of(es.insert(e), max_depth, header) == inv_map_of(
            es,
            max_depth,
            header,
        ),
{
    let es1 = es.insert(e);
    let m0 = inv_map_of(es, max_depth, header);
    let m1 = inv_map_of(es1, max_depth, header);
    assert forall|p: Seq<char>| key_present(es, max_depth, p) implies key_present(
        es1,
        max_depth,
        p,
    ) by {
        let w = entry_at(es, max_depth, p);
        assert(es1.contains(w) && included(w, max_depth) && w.rel == p);
    }
    if included(e, max_depth) {
        let m2 = m0.insert(e.rel, entry_count(e, header));
        assert forall|p: Seq<char>| m1.dom().contains(p) implies m2.dom().contains(p) by {
            let w = entry_at(es1, max_depth, p);
            if w != e {
                assert(es.contains(w) && included(w, max_depth) && w.rel == p);
            }
        }
        assert forall|p: Seq<char>| m2.dom().contains(p) implies m1.dom().contains(p) by {
            if p == e.rel {
                assert(es1.contains(e) && included(e, max_depth) && e.rel == p);
            }
        }
        assert forall|p: Seq<char>| m1.dom().contains(p) implies m1[p] == m2[p] by {
            let w1 = entry_at(es1, max_depth, p);
            assert(es1.contains(w1) && included(w1, max_depth) && w1.rel == p);
            if p == e.rel {
                assert(es1.contains(e));
                if w1 != e {
                    assert(w1.rel != e.rel);
                }
                assert(w1 == e);
            } else {
                assert(es.contains(w1));
                assert(key_present(es, max_depth, p));
                let w0 = entry_at(es, max_depth, p);
                assert(es.contains(w0) && included(w0, max_depth) && w0.rel == p);
                assert(es1.contains(w0));
                assert(w0 == w1);
            }
        }
        assert(m1 =~= m2);
    } else {
        assert forall|p: Seq<char>| m1.dom().contains(p) implies m0.dom().contains(p) by {
            let w = entry_at(es1, max_depth, p);
            assert(es1.contains(w) && included(w, max_depth) && w.rel == p);
            assert(w != e);
            assert(es.contains(w));
        }
        assert forall|p: Seq<char>| m1.dom().contains(p) implies m1[p] == m0[p] by {
            let w1 = entry_at(es1, max_depth, p);
            assert(es1.contains(w1) && included(w1, max_depth) && w1.rel == p);
            assert(w1 != e);
            assert(es.contains(w1));
            assert(key_present(es, max_depth, p));
            let w0 = entry_at(es, max_depth, p);
            assert(es.contains(w0) && included(w0, max_depth) && w0.rel == p);
            assert(es1.contains(w0));
            assert(w0 == w1);
        }
        assert(m1 =~= m0);
    }
}

/// One record of the inventory: a file path and its line count.
pub struct InventoryEntry {
    pub path: String,
    pub line_count: usize,
}

/// The inventory one walk produced: a mapping from file path to line count,
/// populated while the walk runs and only read afterwards.
pub struct InventoryMap {
    pub entries: Vec<InventoryEntry>,
}

/// The mapping that a sequence of path–count pairs builds up, later pairs
/// overriding earlier ones.
pub open spec fn kv_map(s: Seq<(Seq<char>, nat)>) -> Map<Seq<char>, nat>
    decreases s.len(),
{
    if s.len() == 0 {
        Map::empty()
    } else {
        kv_map(s.drop_last()).insert(s.last().0, s.last().1)
    }
}

/// The mapping's keys are exactly the pairs' keys.
pub proof fn lemma_kv_map_dom(s: Seq<(Seq<char>, nat)>)
    ensures
        forall|p: Seq<char>|
            #[trigger] kv_map(s).dom().contains(p) <==> exists|i: int|
                0 <= i < s.len() && (#[trigger] s[i]).0 == p,
    decreases s.len(),
{
    if s.len() > 0 {
        lemma_kv_map_dom(s.drop_last());
        assert forall|p: Seq<char>| #[trigger] kv_map(s).dom().contains(p) implies exists|i: int|
            0 <= i < s.len() && (#[trigger] s[i]).0 == p by {
            if p == s.last().0 {
                assert((s[s.len() - 1]).0 == p);
            } else {
                assert(kv_map(s.drop_last()).dom().contains(p));
                let i = choose|i: int|
                    0 <= i < s.drop_last().len() && (#[trigger] s.drop_last()[i]).0 == p;
                assert((s.drop_last()[i]).0 == p);
                assert(s.drop_last()[i] == s[i]);
                assert((s[i]).0 == p);
            }
        }
        assert forall|p: Seq<char>|
            (exists|i: int| 0 <= i < s.len() && (#[trigger] s[i]).0 == p) implies #[trigger] kv_map(
            s,
        ).dom().contains(p) by {
            let i = choose|i: int| 0 <= i < s.len() && (#[trigger] s[i]).0 == p;
            if i < s.len() - 1 {
                assert((s.drop_last()[i]).0 == p);
                assert(exists|j: int| 0 <= j < s.drop_last().len() && (#[trigger] s.drop_last()[j]).0 == p);
                assert(kv_map(s.drop_last()).dom().contains(p));
                assert(kv_map(s).dom() == kv_map(s.drop_last()).dom().insert(s.last().0));
            } else {
                assert(p == s.last().0);
            }
        }
    }
}

/// With pairwise-distinct keys, each pair's key maps to that pair's count.
pub proof fn lemma_kv_map_at(s: Seq<(Seq<char>, nat)>, i: int)
    requires
        0 <= i < s.len(),
        forall|a: int, b: int|
            0 <= a < b < s.len() ==> (#[trigger] s[a]).0 != (#[trigger] s[b]).0,
    ensures
        kv_map(s).dom().contains(s[i].0),
        kv_map(s)[s[i].0] == s[i].1,
    decreases s.len(),
{
    lemma_kv_map_dom(s);
    if i < s.len() - 1 {
        lemma_kv_map_at(s.drop_last(), i);
        assert((s.drop_last()[i]).0 == s[i].0);
        assert(s[i].0 != s.last().0);
    }
}

/// The walked entries as their mathematical images, in discovery order.
pub open spec fn views_of(entries: Seq<FsEntry>) -> Seq<FsEntryV> {
    entries.map_values(|e: FsEntry| e@)
}

/// One more element of a sequence taken, one more element in its set.
proof fn lemma_take_push_to_set(s: Seq<FsEntryV>, i: int)
    requires
        0 <= i < s.len(),
    ensures
        s.take(i + 1).to_set() == s.take(i).to_set().insert(s[i]),
{
    assert(s.take(i + 1) =~= s.take(i).push(s[i]));
    assert forall|x: FsEntryV| #[trigger] s.take(i + 1).to_set().contains(x) implies s.take(
        i,
    ).to_set().insert(s[i]).contains(x) by {
        let j = choose|j: int| 0 <= j < s.take(i + 1).len() && #[trigger] s.take(i + 1)[j] == x;
        if j < i {
            assert(s.take(i)[j] == x);
            assert(s.take(i).contains(x));
        } else {
            assert(x == s[i]);
        }
    }
    assert forall|x: FsEntryV| #[trigger] s.take(i).to_set().insert(s[i]).contains(x) implies s
        .take(i + 1).to_set().contains(x) by {
        if x == s[i] {
            assert(s.take(i + 1)[i] == x);
            assert(s.take(i + 1).contains(x));
        } else {
            assert(s.take(i).contains(x));
            let j = choose|j: int| 0 <= j < s.take(i).len() && #[trigger] s.take(i)[j] == x;
            assert(s.take(i + 1)[j] == x);
            assert(s.take(i + 1).contains(x));
        }
    }
    assert(s.take(i + 1).to_set() =~= s.take(i).to_set().insert(s[i]));
}

/// A prefix of a sequence of entries with pairwise-distinct paths yields a
/// set with distinct paths.
proof fn lemma_prefix_distinct(s: Seq<FsEntryV>, i: int)
    requires
        0 <= i <= s.len(),
        forall|a: int, b: int| 0 <= a < b < s.len() ==> (#[trigger] s[a]).rel != (#[trigger] s[b]).rel,
    ensures
        distinct_rels(s.take(i).to_set()),
{
    assert forall|e1: FsEntryV, e2: FsEntryV|
        #![trigger s.take(i).to_set().contains(e1), s.take(i).to_set().contains(e2)]
        s.take(i).to_set().contains(e1) && s.take(i).to_set().contains(e2) && e1 != e2 implies e1.rel
        != e2.rel by {
        let a = choose|a: int| 0 <= a < s.take(i).len() && #[trigger] s.take(i)[a] == e1;
        let b = choose|b: int| 0 <= b < s.take(i).len() && #[trigger] s.take(i)[b] == e2;
        assert(s[a] == e1 && s[b] == e2);
        if a < b {
            assert((s[a]).rel != (s[b]).rel);
        } else {
            assert((s[b]).rel != (s[a]).rel);
        }
    }
}

/// Builds the inventory of a walked tree: every entry that is a regular,
/// readable file, hidden at no level below the root, with an eligible
/// extension, at most `max_depth` levels below the files directly in the
/// root, appears under its relative path with its line count; nothing else
/// appears. An eligible file whose contents could not be read (`content` is
/// `None`, for instance because it vanished between discovery and reading)
/// is silently omitted: per-file failures never fail the walk.
pub fn build_inventory(entries: &Vec<FsEntry>, max_depth: usize, header: bool) -> (inv:
    InventoryMap)
    requires
        forall|a: int, b: int|
            0 <= a < b < entries@.len() ==> (#[trigger] entries@[a])@.rel != (
            #[trigger] entries@[b])@.rel,
    ensures
        inv.wf(),
        inv.as_map() == inv_map_of(views_of(entries@).to_set(), max_depth as int, header),
{
    let ghost vs = views_of(entries@);
    proof {
        assert(forall|a: int, b: int|
            0 <= a < b < vs.len() ==> (#[trigger] vs[a]).rel != (#[trigger] vs[b]).rel);
    }
    let mut inv = InventoryMap { entries: Vec::new() };
    let n = entries.len();
    let mut i: usize = 0;
    proof {
        assert(inv.entries_seq() =~= Seq::<(Seq<char>, nat)>::empty());
        assert forall|p: Seq<char>| !(#[trigger] inv_map_of(
            vs.take(0).to_set(),
            max_depth as int,
            header,
        ).dom().contains(p)) by {
            if key_present(vs.take(0).to_set(), max_depth as int, p) {
                let w = entry_at(vs.take(0).to_set(), max_depth as int, p);
                assert(vs.take(0).to_set().contains(w));
                assert(vs.take(0).contains(w));
            }
        }
        assert(inv.as_map() =~= inv_map_of(vs.take(0).to_set(), max_depth as int, header));
    }
    while i < n
        invariant
            i <= n,
            n == entries@.len(),
            vs == views_of(entries@),
            forall|a: int, b: int|
                0 <= a < b < vs.len() ==> (#[trigger] vs[a]).rel != (#[trigger] vs[b]).rel,
            inv.wf(),
            inv.as_map() == inv_map_of(vs.take(i as int).to_set(), max_depth as int, header),
        decreases n - i,
    {
        let e = &entries[i];
        let keep = e.is_file && !has_hidden_segment(e.rel.as_str()) && is_text_or_csv_file(
            e.rel.as_str(),
        ) && depth_below_root(e.rel.as_str()) <= max_depth;
        proof {
            lemma_take_push_to_set(vs, i as int);
            lemma_prefix_distinct(vs, i as int + 1);
            assert(!vs.take(i as int).to_set().contains(vs[i as int])) by {
                if vs.take(i as int).contains(vs[i as int]) {
                    let j = choose|j: int|
                        0 <= j < vs.take(i as int).len() && #[trigger] vs.take(i as int)[j] == vs[
                            i as int
                        ];
                    assert((vs[j]).rel != (vs[i as int]).rel);
                }
            }
            lemma_inv_map_insert(
                vs.take(i as int).to_set(),
                vs[i as int],
                max_depth as int,
                header,
            );
        }
        match &e.content {
            Some(c) => {
                if keep {
                    let cnt = count_lines(c, header);
                    let path = e.rel.clone();
                    proof {
                        assert(included(vs[i as int], max_depth as int));
                        assert(entry_count(vs[i as int], header) == cnt as nat);
                        assert(!inv.as_map().dom().contains((vs[i as int]).rel)) by {
                            if key_present(
                                vs.take(i as int).to_set(),
                                max_depth as int,
                                (vs[i as int]).rel,
                            ) {
                                let w = entry_at(
                                    vs.take(i as int).to_set(),
                                    max_depth as int,
                                    (vs[i as int]).rel,
                                );
                                assert(vs.take(i as int).to_set().contains(w));
                                let j = choose|j: int|
                                    0 <= j < vs.take(i as int).len() && #[trigger] vs.take(
                                        i as int,
                                    )[j] == w;
                                assert((vs[j]).rel != (vs[i as int]).rel);
                            }
                        }
                        lemma_kv_map_dom(inv.entries_seq());
                    }
                    let ghost old_seq = inv.entries_seq();
                    inv.entries.push(InventoryEntry { path, line_count: cnt });
                    proof {
                        assert(inv.entries_seq() =~= old_seq.push(
                            ((vs[i as int]).rel, cnt as nat),
                        ));
                        assert(inv.entries_seq().drop_last() =~= old_seq);
                        assert forall|j: int| 0 <= j < old_seq.len() implies (
                        #[trigger] old_seq[j]).0 != (vs[i as int]).rel by {
                            assert(kv_map(old_seq).dom().contains(old_seq[j].0));
                        }
                    }
                } else {
                    proof {
                        assert(!included(vs[i as int], max_depth as int));
                    }
                }
            },
            None => {
                proof {
                    assert(!included(vs[i as int], max_depth as int));
                }
            },
        }
        i = i + 1;
    }
    proof {
        assert(vs.take(n as int) =~= vs);
    }
    inv
}

impl InventoryMap {
    /// The records, in insertion order, as path–count pairs.
    pub open spec fn entries_seq(self) -> Seq<(Seq<char>, nat)> {
        self.entries@.map_values(|en: InventoryEntry| (en.path@, en.line_count as nat))
    }

    /// The records as a mapping.
    pub open spec fn as_map(self) -> Map<Seq<char>, nat> {
        kv_map(self.entries_seq())
    }

    /// Each path occurs in at most one record.
    pub open spec fn wf(self) -> bool {
        forall|a: int, b: int|
            0 <= a < b < self.entries_seq().len() ==> (#[trigger] self.entries_seq()[a]).0 != (
            #[trigger] self.entries_seq()[b]).0
    }

    /// The number of records.
    pub fn len(&self) -> (n: usize)
        ensures
            n == self.entries_seq().len(),
    {
        self.entries.len()
    }

    /// The recorded line count for `path`, or `None` when the path is not
    /// in the inventory.
    pub fn get(&self, path: &str) -> (r: Option<usize>)
        requires
            self.wf(),
        ensures
            match r {
                Some(c) => self.as_map().dom().contains(path@) && self.as_map()[path@] == c as nat,
                None => !self.as_map().dom().contains(path@),
            },
    {
        let n = self.entries.len();
        let mut i: usize = 0;
        while i < n
            invariant
                i <= n,
                n == self.entries@.len(),
                self.wf(),
                forall|j: int| 0 <= j < i ==> (#[trigger] self.entries_seq()[j]).0 != path@,
            decreases n - i,
        {
            if str_eq(self.entries[i].path.as_str(), path) {
                proof {
                    lemma_kv_map_at(self.entries_seq(), i as int);
                }
                return Some(self.entries[i].line_count);
            }
            i = i + 1;
        }
        proof {
            lemma_kv_map_dom(self.entries_seq());
        }
        None
    }
}

/// The inventory of a walked tree holds exactly the included entries: a path
/// is a key precisely when some included entry bears it, and each included
/// entry's path maps to that entry's own line count — the count the line
/// counter assigns to its contents, independent of every other entry.
pub proof fn lemma_inventory_content(es: Set<FsEntryV>, max_depth: int, header: bool)
    requires
        distinct_rels(es),
    ensures
        forall|p: Seq<char>|
            #[trigger] inv_map_of(es, max_depth, header).dom().contains(p) <==> key_present(
                es,
                max_depth,
                p,
            ),
        forall|e: FsEntryV|
            #[trigger] es.contains(e) && included(e, max_depth) ==> inv_map_of(
                es,
                max_depth,
                header,
            )[e.rel] == entry_count(e, header),
{
    assert forall|e: FsEntryV| #[trigger] es.contains(e) && included(e, max_depth) implies inv_map_of(
        es,
        max_depth,
        header,
    )[e.rel] == entry_count(e, header) by {
        lemma_inv_map_at(es, max_depth, header, e);
    }
}

/// Two walks that discover the same set of entries produce content-equal
/// inventories, whatever order enumeration took and in whatever order the
/// per-file work was dispatched; in particular, rerunning the walk against
/// an unchanged tree reproduces the same map.
pub proof fn lemma_walk_order_irrelevant(
    xs: Seq<FsEntryV>,
    ys: Seq<FsEntryV>,
    max_depth: int,
    header: bool,
)
    requires
        xs.to_set() == ys.to_set(),
    ensures
        inv_map_of(xs.to_set(), max_depth, header) == inv_map_of(ys.to_set(), max_depth, header),
{
}

/// The depth bound is sharp: an otherwise-included file exactly at the
/// bound is in the inventory; one level deeper it is not.
pub proof fn lemma_depth_boundary(
    es: Set<FsEntryV>,
    e: FsEntryV,
    max_depth: int,
    header: bool,
)
    requires
        distinct_rels(es),
        es.contains(e),
        e.is_file,
        e.content is Some,
        !has_hidden_component(e.rel),
        eligible_path(e.rel),
    ensures
        depth_of(e.rel) == max_depth ==> inv_map_of(es, max_depth, header).dom().contains(e.rel),
        depth_of(e.rel) == max_depth + 1 ==> !inv_map_of(es, max_depth, header).dom().contains(
            e.rel,
        ),
{
    if depth_of(e.rel) == max_depth {
        lemma_inv_map_at(es, max_depth, header, e);
    }
    if depth_of(e.rel) == max_depth + 1 {
        if key_present(es, max_depth, e.rel) {
            let w = entry_at(es, max_depth, e.rel);
            assert(es.contains(w) && included(w, max_depth) && w.rel == e.rel);
            if w != e {
                assert(w.rel != e.rel);
            }
            assert(included(e, max_depth));
        }
    }
}

} // verus!
