//! Repairing extended timestamp fields.

use pptx_notes::timestamps::sanitize_extended_timestamp_fields;

/// A directory with one entry whose extra field is given, and an end record.
fn archive(extra: &[u8], comment: &[u8]) -> Vec<u8> {
    let mut b = vec![1, 2, 3];
    let offset = b.len() as u32;
    b.extend_from_slice(&[0x50, 0x4b, 0x01, 0x02]);
    b.extend_from_slice(&[0; 24]);
    b.extend_from_slice(&2u16.to_le_bytes());
    b.extend_from_slice(&(extra.len() as u16).to_le_bytes());
    b.extend_from_slice(&0u16.to_le_bytes());
    b.extend_from_slice(&[0; 12]);
    b.extend_from_slice(b"ab");
    b.extend_from_slice(extra);
    let size = b.len() as u32 - offset;
    b.extend_from_slice(&[0x50, 0x4b, 0x05, 0x06]);
    b.extend_from_slice(&[0; 4]);
    b.extend_from_slice(&1u16.to_le_bytes());
    b.extend_from_slice(&1u16.to_le_bytes());
    b.extend_from_slice(&size.to_le_bytes());
    b.extend_from_slice(&offset.to_le_bytes());
    b.extend_from_slice(&(comment.len() as u16).to_le_bytes());
    b.extend_from_slice(comment);
    b
}

fn field(size: u16, flags: u8) -> Vec<u8> {
    let mut f = vec![0x55, 0x54];
    f.extend_from_slice(&size.to_le_bytes());
    f.push(flags);
    f.extend_from_slice(&vec![9; size as usize - 1]);
    f
}

const FLAGS: usize = 3 + 46 + 2 + 4;

fn repaired(extra: &[u8]) -> Vec<u8> {
    let before = archive(extra, b"");
    let mut after = before.clone();
    sanitize_extended_timestamp_fields(&mut after);
    assert_eq!(after.len(), before.len());
    for i in 0..after.len() {
        assert!(after[i] == before[i] || i == FLAGS);
    }
    after
}

#[test]
fn flags_are_made_to_agree_with_the_size() {
    assert_eq!(repaired(&field(9, 0b001))[FLAGS], 0b011);
    assert_eq!(repaired(&field(13, 0b001))[FLAGS], 0b111);
    assert_eq!(repaired(&field(1, 0b111))[FLAGS], 0);
    assert_eq!(repaired(&field(9, 0b111))[FLAGS], 0b011);
}

#[test]
fn consistent_flags_stay() {
    assert_eq!(repaired(&field(5, 0b111))[FLAGS], 0b111);
    assert_eq!(repaired(&field(5, 0))[FLAGS], 0);
    assert_eq!(repaired(&field(9, 0b101))[FLAGS], 0b101);
    assert_eq!(repaired(&field(13, 0b111))[FLAGS], 0b111);
    assert_eq!(repaired(&field(1, 0))[FLAGS], 0);
}

#[test]
fn odd_sizes_are_left_alone() {
    assert_eq!(repaired(&field(4, 0b111))[FLAGS], 0b111);
    assert_eq!(repaired(&field(17, 0b1))[FLAGS], 0b1);
}

#[test]
fn other_fields_are_left_alone() {
    let mut f = field(9, 1);
    f[0] = 0x54;
    assert_eq!(repaired(&f)[FLAGS], 1);
}

#[test]
fn later_fields_are_reached() {
    let mut extra = vec![0x01, 0x00, 0x02, 0x00, 7, 7];
    extra.extend_from_slice(&field(9, 1));
    let mut b = archive(&extra, b"");
    sanitize_extended_timestamp_fields(&mut b);
    assert_eq!(b[FLAGS + 6], 0b011);
}

#[test]
fn an_archive_comment_is_skipped() {
    let mut b = archive(&field(9, 1), b"some words");
    sanitize_extended_timestamp_fields(&mut b);
    assert_eq!(b[FLAGS], 0b011);
}

#[test]
fn the_last_end_record_is_used() {
    let mut b = archive(&field(9, 1), b"");
    let good = b.clone();
    let record = b[b.len() - 22..].to_vec();
    let len = b.len();
    b[len - 2..].copy_from_slice(&22u16.to_le_bytes());
    b.extend_from_slice(&record);
    let moved = b.len() - 22;
    b[moved + 16..moved + 20].copy_from_slice(&0u32.to_le_bytes());
    let before = b.clone();
    sanitize_extended_timestamp_fields(&mut b);
    assert_eq!(b, before);
    assert_eq!(good[FLAGS], 1);
}

#[test]
fn what_is_no_archive_stays() {
    for b in [vec![], vec![0; 21], vec![0; 22], vec![0x50; 300]] {
        let mut after = b.clone();
        sanitize_extended_timestamp_fields(&mut after);
        assert_eq!(after, b);
    }
}

#[test]
fn a_directory_outside_the_archive_stays() {
    let mut b = archive(&field(9, 1), b"");
    let at = b.len() - 22 + 16;
    b[at..at + 4].copy_from_slice(&u32::MAX.to_le_bytes());
    let before = b.clone();
    sanitize_extended_timestamp_fields(&mut b);
    assert_eq!(b, before);
}

#[test]
fn a_second_repair_changes_nothing() {
    let mut extra = field(13, 0b1);
    extra.extend_from_slice(&field(1, 0b1));
    let mut once = archive(&extra, b"c");
    sanitize_extended_timestamp_fields(&mut once);
    let mut twice = once.clone();
    sanitize_extended_timestamp_fields(&mut twice);
    assert_eq!(twice, once);
    assert_eq!(once[FLAGS], 0b111);
}
