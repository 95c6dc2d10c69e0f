use std::io::Read;

use incrzip::archive::ArchiveError;
use incrzip::fstree::{DirEntry, FsNode};
use incrzip::timestamp::parse_last_modified;
use incrzip::walker::{build_archive, default_output_file};

fn file(mtime: i64, content: &[u8]) -> FsNode {
    FsNode::File { mtime, content: content.to_vec() }
}

fn dir(entries: Vec<(&str, FsNode)>) -> FsNode {
    FsNode::Dir {
        entries: entries
            .into_iter()
            .map(|(name, node)| DirEntry { name: name.to_string(), node })
            .collect(),
    }
}

fn read_archive(bytes: Vec<u8>) -> Vec<(String, Vec<u8>)> {
    let mut ar = zip::ZipArchive::new(std::io::Cursor::new(bytes)).unwrap();
    let mut out = Vec::new();
    for i in 0..ar.len() {
        let mut f = ar.by_index(i).unwrap();
        let name = f.name().to_string();
        let mut buf = Vec::new();
        f.read_to_end(&mut buf).unwrap();
        out.push((name, buf));
    }
    out
}

#[test]
fn three_entries_scenario() {
    let cutoff = parse_last_modified(b"2024-01-01 00:00:00").unwrap();
    assert_eq!(cutoff, 1704067200);
    let root = dir(vec![
        ("a.txt", file(cutoff + 50, b"alpha")),
        ("b.txt", file(cutoff - 50, b"beta")),
        ("sub", dir(vec![("c.txt", file(cutoff + 70, b"gamma"))])),
    ]);
    let bytes = build_archive(&root, cutoff, String::from("output.zip")).unwrap();
    let entries = read_archive(bytes);
    assert_eq!(entries.len(), 2);
    assert_eq!(entries[0].0, "a.txt");
    assert_eq!(entries[1].0, "sub/c.txt");
}

#[test]
fn round_trip_content_is_identical() {
    let raw: Vec<u8> = (0..=255u8).cycle().take(4096).collect();
    let root = dir(vec![("blob.bin", file(100, &raw)), ("empty", file(100, b""))]);
    let bytes = build_archive(&root, 0, String::from("output.zip")).unwrap();
    let entries = read_archive(bytes);
    assert_eq!(entries.len(), 2);
    assert_eq!(entries[0].0, "blob.bin");
    assert_eq!(entries[0].1, raw);
    assert_eq!(entries[1].0, "empty");
    assert_eq!(entries[1].1, b"");
}

#[test]
fn entries_are_stored_uncompressed() {
    let root = dir(vec![("a.txt", file(10, b"aaaaaaaaaaaaaaaaaaaaaaaaaaaaaaaa"))]);
    let bytes = build_archive(&root, 0, String::from("output.zip")).unwrap();
    let mut ar = zip::ZipArchive::new(std::io::Cursor::new(bytes)).unwrap();
    let f = ar.by_index(0).unwrap();
    assert_eq!(f.compression(), zip::CompressionMethod::Stored);
}

#[test]
fn output_path_is_excluded_even_when_newer() {
    let cutoff = 1000;
    let root = dir(vec![
        ("output.zip", file(cutoff + 999, b"half-written archive")),
        ("kept.txt", file(cutoff + 1, b"kept")),
    ]);
    let bytes = build_archive(&root, cutoff, String::from("output.zip")).unwrap();
    let entries = read_archive(bytes);
    assert_eq!(entries.len(), 1);
    assert_eq!(entries[0].0, "kept.txt");
}

#[test]
fn nested_output_path_is_excluded() {
    let cutoff = 1000;
    let root = dir(vec![(
        "sub",
        dir(vec![
            ("backup.zip", file(cutoff + 5, b"self")),
            ("other.txt", file(cutoff + 5, b"other")),
        ]),
    )]);
    let bytes = build_archive(&root, cutoff, String::from("sub/backup.zip")).unwrap();
    let entries = read_archive(bytes);
    assert_eq!(entries.len(), 1);
    assert_eq!(entries[0].0, "sub/other.txt");
}

#[test]
fn deep_nesting_is_fully_traversed() {
    let mut node = dir(vec![("leaf.txt", file(99, b"deep down"))]);
    for level in (1..=8).rev() {
        let name = format!("d{}", level);
        node = FsNode::Dir { entries: vec![DirEntry { name, node }] };
    }
    let root = node;
    let bytes = build_archive(&root, 0, String::from("output.zip")).unwrap();
    let entries = read_archive(bytes);
    assert_eq!(entries.len(), 1);
    assert_eq!(entries[0].0, "d1/d2/d3/d4/d5/d6/d7/d8/leaf.txt");
    assert_eq!(entries[0].1, b"deep down");
}

#[test]
fn file_modified_exactly_at_cutoff_is_excluded() {
    let cutoff = 5000;
    let root = dir(vec![
        ("at.txt", file(cutoff, b"at the cutoff")),
        ("after.txt", file(cutoff + 1, b"just after")),
        ("before.txt", file(cutoff - 1, b"just before")),
    ]);
    let bytes = build_archive(&root, cutoff, String::from("output.zip")).unwrap();
    let entries = read_archive(bytes);
    assert_eq!(entries.len(), 1);
    assert_eq!(entries[0].0, "after.txt");
}

#[test]
fn empty_selection_yields_valid_empty_archive() {
    let root = dir(vec![("old.txt", file(1, b"old"))]);
    let bytes = build_archive(&root, 100, String::from("output.zip")).unwrap();
    let entries = read_archive(bytes);
    assert_eq!(entries.len(), 0);
}

#[test]
fn empty_directory_yields_valid_empty_archive() {
    let root = dir(vec![]);
    let bytes = build_archive(&root, 0, String::from("output.zip")).unwrap();
    let entries = read_archive(bytes);
    assert_eq!(entries.len(), 0);
}

#[test]
fn traversal_order_is_preserved() {
    let root = dir(vec![
        ("z.txt", file(10, b"z")),
        ("m", dir(vec![("inner.txt", file(10, b"i"))])),
        ("a.txt", file(10, b"a")),
    ]);
    let bytes = build_archive(&root, 0, String::from("output.zip")).unwrap();
    let entries = read_archive(bytes);
    let names: Vec<&str> = entries.iter().map(|e| e.0.as_str()).collect();
    assert_eq!(names, vec!["z.txt", "m/inner.txt", "a.txt"]);
}

#[test]
fn default_output_is_excluded_from_itself() {
    let out = default_output_file();
    assert_eq!(out, "output.zip");
    let cutoff = 1000;
    // The freshly created archive postdates the cutoff, yet is not listed.
    let root = dir(vec![
        ("output.zip", file(cutoff + 1, b"")),
        ("doc.txt", file(cutoff + 1, b"text")),
    ]);
    let bytes = build_archive(&root, cutoff, out).unwrap();
    let entries = read_archive(bytes);
    assert_eq!(entries.len(), 1);
    assert_eq!(entries[0].0, "doc.txt");
}

#[test]
fn duplicate_entry_names_abort_the_run() {
    let root = dir(vec![("x.txt", file(10, b"one")), ("x.txt", file(10, b"two"))]);
    let r = build_archive(&root, 0, String::from("output.zip"));
    assert_eq!(r, Err(ArchiveError::EntryStart));
}
