//! The aggregator and the report derivation, on small in-memory trees.

use file_len_inventory::inventory::{build_inventory, FsEntry, InventoryMap};
use file_len_inventory::parse_inventory::{report_rows, total_lines};
use file_len_inventory::paths::join_path;

fn file(rel: &str, content: &[u8]) -> FsEntry {
    FsEntry { rel: rel.to_string(), is_file: true, content: Some(content.to_vec()) }
}

fn dir(rel: &str) -> FsEntry {
    FsEntry { rel: rel.to_string(), is_file: false, content: None }
}

fn sample_tree() -> Vec<FsEntry> {
    vec![
        file("a.txt", b"line1\nline2\nline3"),
        file(".secret.txt", b"1\n2\n3\n4\n5\n"),
        dir("sub"),
        file("sub/b.csv", b"x,y\n1,2\n"),
    ]
}

#[test]
fn scenario_hidden_and_depth_one() {
    let inv: InventoryMap = build_inventory(&sample_tree(), 1, false);
    assert_eq!(inv.len(), 2);
    assert_eq!(inv.get("a.txt"), Some(3));
    assert_eq!(inv.get("sub/b.csv"), Some(2));
    assert_eq!(inv.get(".secret.txt"), None);
}

#[test]
fn scenario_hidden_and_depth_one_with_header() {
    let inv: InventoryMap = build_inventory(&sample_tree(), 1, true);
    assert_eq!(inv.len(), 2);
    assert_eq!(inv.get("a.txt"), Some(2));
    assert_eq!(inv.get("sub/b.csv"), Some(1));
    assert_eq!(inv.get(".secret.txt"), None);
}

#[test]
fn unreadable_file_is_silently_absent() {
    // An eligible file deleted between discovery and reading yields no
    // contents; the run still completes and keeps every other file.
    let entries = vec![
        file("kept.txt", b"1\n2\n"),
        FsEntry { rel: "vanished.txt".to_string(), is_file: true, content: None },
        file("also_kept.csv", b"a\n"),
    ];
    let inv = build_inventory(&entries, 1, false);
    assert_eq!(inv.len(), 2);
    assert_eq!(inv.get("kept.txt"), Some(2));
    assert_eq!(inv.get("also_kept.csv"), Some(1));
    assert_eq!(inv.get("vanished.txt"), None);
}

#[test]
fn depth_boundary_is_sharp() {
    let entries = vec![
        file("at/the/bound.txt", b"1\n"),
        file("one/hop/deeper/over.txt", b"1\n"),
    ];
    let inv = build_inventory(&entries, 2, false);
    assert_eq!(inv.get("at/the/bound.txt"), Some(1));
    assert_eq!(inv.get("one/hop/deeper/over.txt"), None);
}

#[test]
fn hidden_directory_excludes_whole_subtree() {
    let entries = vec![file(".git/config.txt", b"1\n"), file("ok.txt", b"1\n")];
    let inv = build_inventory(&entries, 5, false);
    assert_eq!(inv.len(), 1);
    assert_eq!(inv.get(".git/config.txt"), None);
    assert_eq!(inv.get("ok.txt"), Some(1));
}

#[test]
fn directories_and_other_extensions_never_enter() {
    let entries = vec![dir("sub"), file("sub/x.bin", b"1\n"), file("sub/y.txt", b"1\n")];
    let inv = build_inventory(&entries, 3, false);
    assert_eq!(inv.len(), 1);
    assert_eq!(inv.get("sub"), None);
    assert_eq!(inv.get("sub/x.bin"), None);
    assert_eq!(inv.get("sub/y.txt"), Some(1));
}

#[test]
fn rebuilding_an_unchanged_tree_gives_equal_content() {
    let first = build_inventory(&sample_tree(), 1, false);
    let second = build_inventory(&sample_tree(), 1, false);
    assert_eq!(first.len(), second.len());
    for entry in &first.entries {
        assert_eq!(second.get(&entry.path), Some(entry.line_count));
    }
}

#[test]
fn enumeration_order_does_not_change_content() {
    let mut reversed = sample_tree();
    reversed.reverse();
    let first = build_inventory(&sample_tree(), 1, false);
    let second = build_inventory(&reversed, 1, false);
    assert_eq!(first.len(), second.len());
    for entry in &first.entries {
        assert_eq!(second.get(&entry.path), Some(entry.line_count));
    }
}

#[test]
fn report_rows_derive_directory_columns() {
    let inv = InventoryMap {
        entries: vec![
            file_entry("./assets/data/a.txt", 3),
            file_entry("data/b.csv", 2),
            file_entry("c.txt", 1),
        ],
    };
    let rows = report_rows(&inv);
    assert_eq!(rows.len(), 3);

    assert_eq!(rows[0].directory, "./assets/data");
    assert_eq!(rows[0].ancestor, "assets");
    assert_eq!(rows[0].parent, "data");
    assert_eq!(rows[0].file, "a.txt");
    assert_eq!(rows[0].line_count, 3);

    assert_eq!(rows[1].directory, "data");
    assert_eq!(rows[1].ancestor, "<NA");
    assert_eq!(rows[1].parent, "data");
    assert_eq!(rows[1].file, "b.csv");

    assert_eq!(rows[2].directory, "");
    assert_eq!(rows[2].ancestor, "<NA");
    assert_eq!(rows[2].parent, "<NA>");
    assert_eq!(rows[2].file, "c.txt");
}

fn file_entry(path: &str, line_count: usize) -> file_len_inventory::inventory::InventoryEntry {
    file_len_inventory::inventory::InventoryEntry { path: path.to_string(), line_count }
}

#[test]
fn total_sums_all_counts() {
    let inv = InventoryMap {
        entries: vec![file_entry("a.txt", 3), file_entry("b.csv", 2), file_entry("c.txt", 0)],
    };
    assert_eq!(total_lines(&inv), Some(5));
    let empty = InventoryMap { entries: Vec::new() };
    assert_eq!(total_lines(&empty), Some(0));
}

#[test]
fn join_path_inserts_one_separator() {
    assert_eq!(join_path("root", "a.txt"), "root/a.txt");
    assert_eq!(join_path("root/", "a.txt"), "root/a.txt");
    assert_eq!(join_path("", "a.txt"), "a.txt");
    assert_eq!(join_path("root", ""), "root");
}
