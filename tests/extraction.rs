use pack_assets::archive::{extract_subtree, in_subtree, is_directory_name, stays_below_dir, ExtractError};
use std::io::{Cursor, Write};
use zip::write::SimpleFileOptions;
use zip::{CompressionMethod, ZipWriter};

fn build_archive(files: &[(&str, &[u8])], dirs: &[&str]) -> Vec<u8> {
    let mut w = ZipWriter::new(Cursor::new(Vec::new()));
    let opts = SimpleFileOptions::default().compression_method(CompressionMethod::Deflated);
    for d in dirs {
        w.add_directory(*d, opts).unwrap();
    }
    for (name, content) in files {
        w.start_file(*name, opts).unwrap();
        w.write_all(content).unwrap();
    }
    w.finish().unwrap().into_inner()
}

#[test]
fn extracts_only_the_prefixed_subtree() {
    let data = build_archive(&[("assets/foo.json", b"{\"a\":1}"), ("other/bar.json", b"{}")], &[]);
    let entries = extract_subtree(data, "assets/").unwrap();
    assert_eq!(entries.len(), 1);
    assert_eq!(entries[0].name, "assets/foo.json");
    assert!(!entries[0].is_dir);
    assert_eq!(entries[0].content, b"{\"a\":1}".to_vec());
}

#[test]
fn directory_entries_are_kept_without_bytes() {
    let data = build_archive(&[("assets/minecraft/lang/en_us.json", b"{\"k\":\"v\"}")], &["assets/minecraft/", "net/"]);
    let entries = extract_subtree(data, "assets/").unwrap();
    assert_eq!(entries.len(), 2);
    assert_eq!(entries[0].name, "assets/minecraft/");
    assert!(entries[0].is_dir);
    assert!(entries[0].content.is_empty());
    assert_eq!(entries[1].name, "assets/minecraft/lang/en_us.json");
    assert_eq!(entries[1].content, b"{\"k\":\"v\"}".to_vec());
}

#[test]
fn archive_without_the_prefix_gives_nothing() {
    let data = build_archive(&[("net/a.class", b"x")], &[]);
    assert!(extract_subtree(data, "assets/").unwrap().is_empty());
}

#[test]
fn corrupt_archive_is_an_error() {
    let r = extract_subtree(b"this is not a zip archive".to_vec(), "assets/");
    assert!(matches!(r, Err(ExtractError::Unreadable)));
}

#[test]
fn prefix_and_directory_tests() {
    assert!(in_subtree("assets/foo.json", "assets/"));
    assert!(!in_subtree("other/bar.json", "assets/"));
    assert!(!in_subtree("assets", "assets/"));
    assert!(in_subtree("anything", ""));
    assert!(is_directory_name("assets/"));
    assert!(is_directory_name("assets\\"));
    assert!(!is_directory_name("assets/a.json"));
    assert!(!is_directory_name(""));
}

#[test]
fn names_that_climb_out_are_not_extracted() {
    assert!(stays_below_dir("assets/foo.json"));
    assert!(stays_below_dir("assets/..foo/x.json"));
    assert!(stays_below_dir("assets/a..b"));
    assert!(stays_below_dir("assets/a/../b"));
    assert!(stays_below_dir("assets/x:y.json"));
    assert!(stays_below_dir("assets/./a"));
    assert!(stays_below_dir("assets/.."));
    assert!(!stays_below_dir("assets/../../x"));
    assert!(!stays_below_dir("assets/../.."));
    assert!(!stays_below_dir("assets\\..\\..\\x"));
    assert!(!stays_below_dir("/etc/passwd"));
    assert!(!stays_below_dir("C:/x"));
    assert!(!stays_below_dir(".."));
}

#[test]
fn climbing_entry_is_dropped_from_extraction() {
    let data = build_archive(&[("assets/ok.json", b"1"), ("assets/../../evil.txt", b"2")], &[]);
    let entries = extract_subtree(data, "assets/").unwrap();
    assert_eq!(entries.len(), 1);
    assert_eq!(entries[0].name, "assets/ok.json");
}

#[test]
fn names_that_stay_inside_are_extracted() {
    let data = build_archive(&[("assets/a/../b.json", b"1"), ("assets/x:y.json", b"2")], &[]);
    let entries = extract_subtree(data, "assets/").unwrap();
    assert_eq!(entries.len(), 2);
    assert_eq!(entries[0].name, "assets/a/../b.json");
    assert_eq!(entries[1].name, "assets/x:y.json");
}
