//! Reading and writing packages.

use pptx_notes::archive::{package_fits, read_current, read_entry, write_pptx};
use pptx_notes::parts::PartSet;
use pptx_notes::timestamps::sanitize_extended_timestamp_fields;
use std::io::{Cursor, Read, Write};
use zip::write::SimpleFileOptions;
use zip::{CompressionMethod, ZipArchive, ZipWriter};

fn zip_of(entries: &[(&str, &[u8])]) -> Vec<u8> {
    let mut w = ZipWriter::new(Cursor::new(Vec::new()));
    let options = SimpleFileOptions::default().compression_method(CompressionMethod::Stored);
    for (name, data) in entries {
        if name.ends_with('/') {
            w.add_directory(*name, options).unwrap();
        } else {
            w.start_file(*name, options).unwrap();
            w.write_all(data).unwrap();
        }
    }
    w.finish().unwrap().into_inner()
}

fn open(bytes: Vec<u8>) -> ZipArchive<Cursor<Vec<u8>>> {
    ZipArchive::new(Cursor::new(bytes)).unwrap()
}

fn contents(bytes: Vec<u8>) -> Vec<(String, Vec<u8>)> {
    let mut a = open(bytes);
    let names: Vec<String> = a.file_names().map(|s| s.to_string()).collect();
    let mut all = vec![];
    for name in names {
        let mut data = vec![];
        a.by_name(&name).unwrap().read_to_end(&mut data).unwrap();
        all.push((name, data));
    }
    all
}

fn names(list: &[&str]) -> Vec<String> {
    list.iter().map(|s| s.to_string()).collect()
}

fn parts(list: &[(&str, &[u8])]) -> PartSet {
    let mut p = PartSet::new();
    for (name, data) in list {
        p.insert(name.to_string(), data.to_vec());
    }
    p
}

#[test]
fn parts_are_found_by_name() {
    let mut p = parts(&[("a", b"1"), ("b", b"2")]);
    p.insert("a".to_string(), b"3".to_vec());
    assert_eq!(p.len(), 2);
    assert_eq!(p.get("a"), Some(b"3".to_vec()));
    assert_eq!(p.get("b"), Some(b"2".to_vec()));
    assert_eq!(p.get("c"), None);
    assert!(p.contains("b") && !p.contains("c"));
    assert_eq!((p.name_at(0), p.data_at(0)), ("a", b"3".as_slice()));
}

#[test]
fn entries_are_read_by_name() {
    let mut a = open(zip_of(&[("a.xml", b"one"), ("d/", b"")]));
    assert_eq!(read_entry(&mut a, "a.xml"), Some(b"one".to_vec()));
    assert_eq!(read_entry(&mut a, "a.xml"), Some(b"one".to_vec()));
    assert_eq!(read_entry(&mut a, "d/"), Some(vec![]));
    assert_eq!(read_entry(&mut a, "b.xml"), None);
}

#[test]
fn a_damaged_entry_cannot_be_read() {
    let mut bytes = zip_of(&[("a.xml", b"one two three")]);
    let at = bytes.windows(3).position(|w| w == b"two").unwrap();
    bytes[at] = b'T';
    let mut a = open(bytes);
    assert_eq!(read_entry(&mut a, "a.xml"), None);
}

#[test]
fn the_new_version_of_a_part_comes_first() {
    let mut a = open(zip_of(&[("a", b"old"), ("b", b"kept")]));
    let p = parts(&[("a", b"new"), ("c", b"added")]);
    assert_eq!(read_current(&mut a, &p, "a"), Some(b"new".to_vec()));
    assert_eq!(read_current(&mut a, &p, "b"), Some(b"kept".to_vec()));
    assert_eq!(read_current(&mut a, &p, "c"), Some(b"added".to_vec()));
    assert_eq!(read_current(&mut a, &p, "d"), None);
}

#[test]
fn a_written_package_reads_back() {
    let mut a = open(zip_of(&[("a", b"old"), ("d/", b""), ("b", b"kept"), ("한글", b"k")]));
    let p = parts(&[("z", b"last"), ("a", b"new"), ("y", b"")]);
    let all = names(&["a", "d/", "b", "한글"]);
    assert!(package_fits(&mut a, &all, &p));
    let written = write_pptx(&mut a, &all, &p).unwrap();
    let expected: Vec<(String, Vec<u8>)> = [
        ("a", b"new".as_slice()),
        ("d/", b""),
        ("b", b"kept"),
        ("한글", b"k"),
        ("z", b"last"),
        ("y", b""),
    ]
    .iter()
    .map(|(n, d)| (n.to_string(), d.to_vec()))
    .collect();
    assert_eq!(contents(written), expected);
}

#[test]
fn writing_twice_gives_the_same_bytes() {
    let p = parts(&[("n", b"x")]);
    let bytes = zip_of(&[("a", b"data")]);
    let once = write_pptx(&mut open(bytes.clone()), &names(&["a"]), &p).unwrap();
    let again = write_pptx(&mut open(bytes), &names(&["a"]), &p).unwrap();
    assert_eq!(once, again);
}

#[test]
fn files_are_compressed() {
    let data = vec![7u8; 100_000];
    let mut a = open(zip_of(&[("a", &data)]));
    let written = write_pptx(&mut a, &names(&["a"]), &PartSet::new()).unwrap();
    assert!(written.len() < 10_000);
    let method = open(written.clone()).by_name("a").unwrap().compression();
    assert_eq!(method, CompressionMethod::Deflated);
    assert_eq!(contents(written), vec![("a".to_string(), data)]);
}

#[test]
fn the_first_unreadable_part_is_reported() {
    let mut bytes = zip_of(&[("a", b"fine"), ("b", b"one two three")]);
    let at = bytes.windows(3).position(|w| w == b"two").unwrap();
    bytes[at] = b'T';
    let all = names(&["a", "b", "c"]);
    let message = write_pptx(&mut open(bytes.clone()), &all, &PartSet::new()).unwrap_err();
    assert!(message.contains("checksum"), "{message}");
    let message = write_pptx(&mut open(bytes.clone()), &all, &parts(&[("b", b"x")])).unwrap_err();
    assert_eq!(message, "specified file not found in archive");
    assert!(write_pptx(&mut open(bytes), &all, &parts(&[("b", b"x"), ("c", b"y")])).is_ok());
}

#[test]
fn a_name_that_occurs_twice_is_refused() {
    let mut a = open(zip_of(&[("a", b"1")]));
    assert!(write_pptx(&mut a, &names(&["a", "a"]), &PartSet::new()).is_err());
}

#[test]
fn names_must_fit_in_their_length_field() {
    let long = "x".repeat(65536);
    let fits = "x".repeat(65535);
    let mut a = open(zip_of(&[("a", b"1")]));
    assert!(!package_fits(&mut a, &names(&["a"]), &parts(&[(&long, b"")])));
    assert!(package_fits(&mut a, &names(&["a"]), &parts(&[(&fits, b"")])));
    assert!(package_fits(&mut a, &names(&["missing", &long]), &PartSet::new()));
    assert!(!package_fits(&mut a, &names(&[&format!("{fits}/"), "missing"]), &PartSet::new()));
    let written = write_pptx(&mut a, &names(&["a"]), &parts(&[(&fits, b"v")])).unwrap();
    assert_eq!(contents(written)[1], (fits, b"v".to_vec()));
}

#[test]
fn a_written_package_needs_no_repair() {
    let mut a = open(zip_of(&[("a/", b""), ("a/b", b"PK\x05\x06"), ("c", &[0x55, 0x54, 5, 0])]));
    let mut p = PartSet::new();
    p.insert("d".to_string(), vec![0x50, 0x4b, 1, 2, 0x55, 0x54, 9, 0, 1]);
    let written = write_pptx(&mut a, &names(&["a/", "a/b", "c"]), &p).unwrap();
    let mut repaired = written.clone();
    sanitize_extended_timestamp_fields(&mut repaired);
    assert_eq!(repaired, written);
}
