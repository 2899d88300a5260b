use std::io::{Cursor, Read, Write};

use yaebook::archive::Archive;
use yaebook::epub::Error;
use zip::write::SimpleFileOptions;
use zip::{CompressionMethod, ZipArchive, ZipWriter};

fn source() -> Vec<u8> {
    let mut writer = ZipWriter::new(Cursor::new(Vec::new()));
    let stored = SimpleFileOptions::default().compression_method(CompressionMethod::Stored);
    writer.start_file("a.txt", stored).unwrap();
    writer.write_all(b"first").unwrap();
    writer.add_directory("dir/", stored).unwrap();
    writer.start_file("mimetype", stored).unwrap();
    writer.write_all(b"text/plain").unwrap();
    writer.start_file("b.txt", SimpleFileOptions::default()).unwrap();
    writer.write_all(b"second").unwrap();
    writer.finish().unwrap().into_inner()
}

fn names(bytes: &[u8]) -> Vec<String> {
    let mut archive = ZipArchive::new(Cursor::new(bytes.to_vec())).unwrap();
    (0..archive.len()).map(|index| archive.by_index(index).unwrap().name().to_string()).collect()
}

fn read(bytes: &[u8], name: &str) -> Vec<u8> {
    let mut archive = ZipArchive::new(Cursor::new(bytes.to_vec())).unwrap();
    let mut file = archive.by_name(name).unwrap();
    let mut content = Vec::new();
    file.read_to_end(&mut content).unwrap();
    content
}

#[test]
fn reads_back_what_was_written() {
    let bytes = source();
    let mut archive = Archive::read(&bytes).unwrap();
    assert_eq!(archive.get("a.txt").unwrap(), Some(b"first".to_vec()));
    assert_eq!(archive.get("dir/").unwrap(), None);
    assert!(!archive.contains("dir/"));
    archive.set("a.txt".into(), b"changed".to_vec());
    archive.set("c.txt".into(), b"new".to_vec());
    assert_eq!(archive.get("a.txt").unwrap(), Some(b"changed".to_vec()));
    assert_eq!(archive.get("c.txt").unwrap(), Some(b"new".to_vec()));
    assert_eq!(archive.get("b.txt").unwrap(), Some(b"second".to_vec()));
    archive.remove("b.txt");
    assert!(!archive.contains("b.txt"));
    assert_eq!(archive.get("b.txt").unwrap(), None);
    assert_eq!(archive.names(), ["a.txt", "dir/", "mimetype", "c.txt"]);
}

#[test]
fn finished_archive_starts_with_the_stored_mimetype() {
    let bytes = source();
    let mut archive = Archive::read(&bytes).unwrap();
    archive.set("c.txt".into(), b"new".to_vec());
    archive.set("c.txt".into(), b"newer".to_vec());
    archive.remove("a.txt");
    let finished = archive.finish().unwrap();
    assert_eq!(names(&finished), ["mimetype", "dir/", "b.txt", "c.txt"]);
    assert_eq!(read(&finished, "mimetype"), b"application/epub+zip");
    assert_eq!(read(&finished, "b.txt"), b"second");
    assert_eq!(read(&finished, "c.txt"), b"newer");
    let mut written = ZipArchive::new(Cursor::new(finished)).unwrap();
    assert_eq!(written.by_index(0).unwrap().compression(), CompressionMethod::Stored);
}

#[test]
fn refuses_bytes_that_are_no_archive() {
    assert!(matches!(Archive::read(b"PK but not a zip"), Err(Error::InvalidArchive(_))));
}

#[test]
fn copies_unchanged_members_and_compresses_replaced_ones() {
    let bytes = source();
    let mut archive = Archive::read(&bytes).unwrap();
    archive.set("b.txt".into(), b"replaced".to_vec());
    let finished = archive.finish().unwrap();
    let mut written = ZipArchive::new(Cursor::new(finished)).unwrap();
    assert_eq!(written.by_name("a.txt").unwrap().compression(), CompressionMethod::Stored);
    assert_eq!(written.by_name("b.txt").unwrap().compression(), CompressionMethod::Deflated);
    let mut content = Vec::new();
    written.by_name("b.txt").unwrap().read_to_end(&mut content).unwrap();
    assert_eq!(content, b"replaced");
}

#[test]
fn names_follow_set_and_remove() {
    let bytes = source();
    let mut archive = Archive::read(&bytes).unwrap();
    archive.remove("a.txt");
    assert!(!archive.names().iter().any(|name| name == "a.txt"));
    archive.set("a.txt".into(), b"back".to_vec());
    assert_eq!(archive.names().iter().filter(|name| *name == "a.txt").count(), 1);
    archive.set("new.txt".into(), b"x".to_vec());
    archive.set("new.txt".into(), b"y".to_vec());
    assert_eq!(archive.names(), ["a.txt", "dir/", "mimetype", "b.txt", "new.txt"]);
    archive.remove("new.txt");
    assert_eq!(archive.names(), ["a.txt", "dir/", "mimetype", "b.txt"]);
}

#[test]
fn a_get_after_set_or_remove_sees_it() {
    let bytes = source();
    let mut archive = Archive::read(&bytes).unwrap();
    archive.set("b.txt".into(), b"value".to_vec());
    assert_eq!(archive.get("b.txt").unwrap(), Some(b"value".to_vec()));
    assert!(archive.contains("b.txt"));
    assert_eq!(archive.names().iter().filter(|name| *name == "b.txt").count(), 1);
    archive.remove("b.txt");
    assert_eq!(archive.get("b.txt").unwrap(), None);
    assert!(!archive.contains("b.txt"));
    assert!(!archive.names().iter().any(|name| name == "b.txt"));
}

#[test]
fn refuses_a_member_name_too_long_for_the_writer() {
    let bytes = source();
    let mut archive = Archive::read(&bytes).unwrap();
    archive.set("a".repeat(70_000), b"x".to_vec());
    assert!(matches!(archive.finish(), Err(Error::InvalidArchive(_))));
}
