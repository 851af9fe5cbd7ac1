//! Repairs the extended-timestamp fields of a ZIP central directory.
//!
//! Some PPTX files carry an extended timestamp ("UT", `0x5455`) whose flags
//! byte disagrees with the length of its data. The ZIP reader rejects the whole
//! archive for it, so the flags byte is made to agree with the length first.

use vstd::prelude::*;

verus! {

/// The little-endian 16-bit number at `i`.
pub open spec fn u16_at(b: Seq<u8>, i: int) -> int {
    b[i] + 256 * b[i + 1]
}

/// The little-endian 32-bit number at `i`.
pub open spec fn u32_at(b: Seq<u8>, i: int) -> int {
    u16_at(b, i) + 65536 * u16_at(b, i + 2)
}

/// Whether the four bytes at `i` are `P`, `K`, `x`, `y`.
pub open spec fn signature_at(b: Seq<u8>, i: int, x: u8, y: u8) -> bool {
    b[i] == 0x50 && b[i + 1] == 0x4b && b[i + 2] == x && b[i + 3] == y
}

/// Whether an end-of-central-directory record starts at `i` and its comment
/// ends with the file.
pub open spec fn is_end_record(b: Seq<u8>, i: int) -> bool {
    &&& 0 <= i
    &&& i + 22 <= b.len()
    &&& signature_at(b, i, 0x05, 0x06)
    &&& i + 22 + u16_at(b, i + 20) == b.len()
}

/// The lowest position at which an end record is looked for.
pub open spec fn search_floor(len: int) -> int {
    if len > 22 + 65536 {
        len - (22 + 65536)
    } else {
        0
    }
}

/// The greatest position at or below `from`, not under the floor, that holds an end record.
pub open spec fn end_record_below(b: Seq<u8>, from: int) -> Option<int>
    decreases from + 1,
{
    if from < search_floor(b.len() as int) {
        None
    } else if is_end_record(b, from) {
        Some(from)
    } else {
        end_record_below(b, from - 1)
    }
}

/// The last end-of-central-directory record of the file.
pub open spec fn end_record(b: Seq<u8>) -> Option<int> {
    if b.len() < 22 {
        None
    } else {
        end_record_below(b, b.len() - 22)
    }
}

/// The number of one bits of a byte.
pub open spec fn one_bits(x: u8) -> nat {
    bits_of(x as nat)
}

pub open spec fn bits_of(n: nat) -> nat
    decreases n,
{
    if n == 0 {
        0
    } else {
        n % 2 + bits_of(n / 2)
    }
}

/// Whether a reader accepts these flags with timestamp data of `size` bytes.
pub open spec fn timestamp_accepted(flags: u8, size: int) -> bool {
    size == 5 || size == 1 + 4 * one_bits(flags)
}

/// Whether `size` bytes are a flags byte and at most three timestamps.
pub open spec fn timestamp_size(size: int) -> bool {
    size == 1 || size == 5 || size == 9 || size == 13
}

/// The flags that announce the timestamps which `size` bytes have room for.
pub open spec fn flags_for(size: int) -> u8 {
    if size == 1 {
        0
    } else if size == 5 {
        1
    } else if size == 9 {
        3
    } else {
        7
    }
}

/// The flags byte after the repair.
pub open spec fn repaired_flags(flags: u8, size: int) -> u8 {
    if !timestamp_accepted(flags, size) && timestamp_size(size) {
        flags_for(size)
    } else {
        flags
    }
}

/// The bytes with the extra field at `off` repaired.
pub open spec fn repaired_field(b: Seq<u8>, off: int) -> Seq<u8> {
    let size = u16_at(b, off + 2);
    if u16_at(b, off) == 0x5455 && size >= 1 {
        b.update(off + 4, repaired_flags(b[off + 4], size))
    } else {
        b
    }
}

/// The bytes with every complete extra field between `off` and `end` repaired.
pub open spec fn repaired_fields(b: Seq<u8>, off: int, end: int) -> Seq<u8>
    decreases end - off,
{
    let next = off + 4 + u16_at(b, off + 2);
    if off + 4 > end || next > end {
        b
    } else {
        repaired_fields(repaired_field(b, off), next, end)
    }
}

/// Where the extra fields of the directory entry at `pos` start.
pub open spec fn extra_start(b: Seq<u8>, pos: int) -> int {
    pos + 46 + u16_at(b, pos + 28)
}

/// Where the extra fields of the directory entry at `pos` end.
pub open spec fn extra_end(b: Seq<u8>, pos: int) -> int {
    extra_start(b, pos) + u16_at(b, pos + 30)
}

/// Whether a directory entry with all its extra fields lies at `pos`.
pub open spec fn entry_at(b: Seq<u8>, pos: int) -> bool {
    &&& pos + 46 <= b.len()
    &&& signature_at(b, pos, 0x01, 0x02)
    &&& extra_end(b, pos) <= b.len()
}

/// Where the directory entry after the one at `pos` starts.
pub open spec fn next_entry(b: Seq<u8>, pos: int) -> int {
    extra_end(b, pos) + u16_at(b, pos + 32)
}

/// The bytes with the extra fields of up to `count` directory entries from `pos` on repaired.
pub open spec fn repaired_entries(b: Seq<u8>, pos: int, count: nat) -> Seq<u8>
    decreases count,
{
    if count == 0 || !entry_at(b, pos) {
        b
    } else {
        repaired_entries(
            repaired_fields(b, extra_start(b, pos), extra_end(b, pos)),
            next_entry(b, pos),
            (count - 1) as nat,
        )
    }
}

/// Whether the end record at `e` describes a directory inside the file.
pub open spec fn directory_inside(b: Seq<u8>, e: int) -> bool {
    u32_at(b, e + 16) < b.len() && u32_at(b, e + 16) + u32_at(b, e + 12) <= b.len()
}

/// The file with the timestamp fields of its central directory repaired.
pub open spec fn sanitized(b: Seq<u8>) -> Seq<u8> {
    match end_record(b) {
        Some(e) => if directory_inside(b, e) {
            repaired_entries(b, u32_at(b, e + 16), u16_at(b, e + 10) as nat)
        } else {
            b
        },
        None => b,
    }
}

fn read_u16(b: &[u8], i: usize) -> (r: usize)
    requires
        i + 2 <= b@.len(),
    ensures
        r == u16_at(b@, i as int),
        r <= 0xffff,
{
    b[i] as usize + 256 * (b[i + 1] as usize)
}

fn read_u32(b: &[u8], i: usize) -> (r: u64)
    requires
        i + 4 <= b@.len(),
    ensures
        r == u32_at(b@, i as int),
        r <= 0xffff_ffff,
{
    let len = b.len();
    assert(i + 4 <= len);
    read_u16(b, i) as u64 + 65536 * (read_u16(b, i + 2) as u64)
}

fn is_signature(b: &[u8], i: usize, x: u8, y: u8) -> (r: bool)
    requires
        i + 4 <= b@.len(),
    ensures
        r == signature_at(b@, i as int, x, y),
{
    b[i] == 0x50 && b[i + 1] == 0x4b && b[i + 2] == x && b[i + 3] == y
}

fn find_end_record(b: &[u8]) -> (r: Option<usize>)
    ensures
        match r {
            Some(e) => end_record(b@) == Some(e as int) && e + 22 <= b@.len(),
            None => end_record(b@) is None,
        },
{
    let len = b.len();
    if len < 22 {
        return None;
    }
    let floor: usize = if len > 22 + 65536 {
        len - (22 + 65536)
    } else {
        0
    };
    let mut i: usize = len - 22;
    loop
        invariant
            len == b@.len(),
            floor == search_floor(len as int),
            floor <= i,
            i + 22 <= len,
            end_record(b@) == end_record_below(b@, i as int),
        decreases i,
    {
        if is_signature(b, i, 0x05, 0x06) && read_u16(b, i + 20) == len - 22 - i {
            return Some(i);
        }
        if i == floor {
            assert(end_record_below(b@, i - 1) is None);
            return None;
        }
        i = i - 1;
    }
}

fn count_one_bits(x: u8) -> (r: usize)
    ensures
        r == one_bits(x),
        r <= 8,
{
    let mut rest: u8 = x;
    let mut count: usize = 0;
    let mut step: u8 = 0;
    while rest != 0
        invariant
            one_bits(x) == count + bits_of(rest as nat),
            step <= 8,
            count <= step,
            step == 8 ==> rest == 0,
            step == 0 ==> rest < 256,
            step == 1 ==> rest < 128,
            step == 2 ==> rest < 64,
            step == 3 ==> rest < 32,
            step == 4 ==> rest < 16,
            step == 5 ==> rest < 8,
            step == 6 ==> rest < 4,
            step == 7 ==> rest < 2,
        decreases rest,
    {
        count = count + (rest % 2) as usize;
        rest = rest / 2;
        step = step + 1;
    }
    count
}

fn repair_flags(flags: u8, size: usize) -> (r: u8)
    requires
        1 <= size <= 0xffff,
    ensures
        r == repaired_flags(flags, size as int),
{
    let accepted = size == 5 || size == 1 + 4 * count_one_bits(flags);
    if accepted {
        flags
    } else if size == 1 {
        0
    } else if size == 9 {
        3
    } else if size == 13 {
        7
    } else {
        flags
    }
}

fn repair_fields(bytes: &mut [u8], start: usize, end: usize)
    requires
        start <= end <= old(bytes)@.len(),
    ensures
        final(bytes)@ == repaired_fields(old(bytes)@, start as int, end as int),
        final(bytes)@.len() == old(bytes)@.len(),
{
    let ghost before = bytes@;
    let mut off: usize = start;
    while end - off >= 4
        invariant
            start <= off <= end <= bytes@.len(),
            bytes@.len() == before.len(),
            before == old(bytes)@,
            repaired_fields(before, start as int, end as int) == repaired_fields(
                bytes@,
                off as int,
                end as int,
            ),
        decreases end - off,
    {
        let size = read_u16(bytes, off + 2);
        if size > end - off - 4 {
            return;
        }
        if read_u16(bytes, off) == 0x5455 && size >= 1 {
            let flags = repair_flags(bytes[off + 4], size);
            bytes[off + 4] = flags;
        }
        off = off + 4 + size;
    }
}

/// Makes the flags byte of every extended timestamp in the central directory
/// agree with the length of its data, where the two disagree.
pub fn sanitize_extended_timestamp_fields(bytes: &mut [u8])
    ensures
        final(bytes)@ == sanitized(old(bytes)@),
{
    let len = bytes.len();
    let end_pos = match find_end_record(bytes) {
        Some(e) => e,
        None => {
            return;
        },
    };
    let count = read_u16(bytes, end_pos + 10);
    let size = read_u32(bytes, end_pos + 12);
    let offset = read_u32(bytes, end_pos + 16);
    if offset >= len as u64 || size > len as u64 - offset {
        return;
    }
    let ghost before = bytes@;
    let mut pos: usize = offset as usize;
    let mut left: usize = count;
    while left > 0
        invariant
            len == bytes@.len(),
            pos <= len,
            before == old(bytes)@,
            sanitized(before) == repaired_entries(bytes@, pos as int, left as nat),
        decreases left,
    {
        if len - pos < 46 || !is_signature(bytes, pos, 0x01, 0x02) {
            return;
        }
        let name_len = read_u16(bytes, pos + 28);
        let extra_len = read_u16(bytes, pos + 30);
        let comment_len = read_u16(bytes, pos + 32);
        if name_len + extra_len > len - pos - 46 {
            return;
        }
        let start: usize = pos + 46 + name_len;
        let end: usize = start + extra_len;
        let ghost entry = bytes@;
        repair_fields(bytes, start, end);
        assert(sanitized(before) == repaired_entries(
            bytes@,
            next_entry(entry, pos as int),
            (left - 1) as nat,
        ));
        if comment_len > len - end {
            assert(!entry_at(bytes@, end + comment_len));
            return;
        }
        pos = end + comment_len;
        left = left - 1;
    }
}

// ---- what the repair guarantees ----

/// Whether the byte at `i` is the flags byte of an extended timestamp.
pub open spec fn is_flags_byte(b: Seq<u8>, i: int) -> bool {
    4 <= i < b.len() && u16_at(b, i - 4) == 0x5455 && u16_at(b, i - 2) >= 1
}

/// Whether the byte at `i` is the first of the data of an extended timestamp that is met by
/// walking the extra fields between `off` and `end`.
pub open spec fn flags_in_fields(b: Seq<u8>, off: int, end: int, i: int) -> bool
    decreases end - off,
{
    let size = u16_at(b, off + 2);
    if off + 4 > end || off + 4 + size > end {
        false
    } else {
        ||| u16_at(b, off) == 0x5455 && size >= 1 && i == off + 4
        ||| flags_in_fields(b, off + 4 + size, end, i)
    }
}

/// Whether the byte at `i` is such a byte of one of up to `count` directory entries from
/// `pos` on.
pub open spec fn flags_in_entries(b: Seq<u8>, pos: int, count: nat, i: int) -> bool
    decreases count,
{
    if count == 0 || !entry_at(b, pos) {
        false
    } else {
        ||| flags_in_fields(b, extra_start(b, pos), extra_end(b, pos), i)
        ||| flags_in_entries(b, next_entry(b, pos), (count - 1) as nat, i)
    }
}

/// Whether the byte at `i` is such a byte of the directory that the end record points to.
pub open spec fn flags_in_directory(b: Seq<u8>, i: int) -> bool {
    match end_record(b) {
        Some(e) => directory_inside(b, e) && flags_in_entries(
            b,
            u32_at(b, e + 16),
            u16_at(b, e + 10) as nat,
            i,
        ),
        None => false,
    }
}

/// Whether `after` is `before` but for repaired flags bytes.
pub open spec fn differs_in_flags_only(before: Seq<u8>, after: Seq<u8>) -> bool {
    &&& after.len() == before.len()
    &&& forall|i: int|
        0 <= i < before.len() && #[trigger] after[i] != before[i] ==> is_flags_byte(before, i)
            && after[i] == repaired_flags(before[i], u16_at(before, i - 2))
}

/// Whether every complete extended timestamp between `off` and `end` is
/// accepted by a reader, or has a length that no flags agree with.
pub open spec fn fields_settled(b: Seq<u8>, off: int, end: int) -> bool
    decreases end - off,
{
    let size = u16_at(b, off + 2);
    if off + 4 > end || off + 4 + size > end {
        true
    } else {
        &&& u16_at(b, off) == 0x5455 && timestamp_size(size) ==> timestamp_accepted(
            b[off + 4],
            size,
        )
        &&& fields_settled(b, off + 4 + size, end)
    }
}

/// Whether the extra fields of up to `count` directory entries from `pos` on are settled.
pub open spec fn entries_settled(b: Seq<u8>, pos: int, count: nat) -> bool
    decreases count,
{
    if count == 0 || !entry_at(b, pos) {
        true
    } else {
        &&& fields_settled(b, extra_start(b, pos), extra_end(b, pos))
        &&& entries_settled(b, next_entry(b, pos), (count - 1) as nat)
    }
}

proof fn lemma_fields_frame(b: Seq<u8>, off: int, end: int)
    requires
        0 <= off,
        end <= b.len(),
    ensures
        differs_in_flags_only(b, repaired_fields(b, off, end)),
        forall|i: int|
            0 <= i < b.len() && (i < off + 4 || i >= end) ==> #[trigger] repaired_fields(
                b,
                off,
                end,
            )[i] == b[i],
    decreases end - off,
{
    let next = off + 4 + u16_at(b, off + 2);
    if off + 4 <= end && next <= end {
        let mid = repaired_field(b, off);
        let after = repaired_fields(mid, next, end);
        lemma_fields_frame(mid, next, end);
        assert forall|i: int|
            0 <= i < b.len() && #[trigger] after[i] != b[i] implies is_flags_byte(b, i) && after[i]
            == repaired_flags(b[i], u16_at(b, i - 2)) by {
            if i < next + 4 {
                assert(after[i] == mid[i]);
                assert(i == off + 4);
            } else {
                assert(mid[i] == b[i]);
            }
        }
        assert forall|i: int| 0 <= i < b.len() && (i < off + 4 || i >= end) implies
            #[trigger] repaired_fields(b, off, end)[i] == b[i] by {
            assert(after[i] == mid[i]);
        }
    }
}

proof fn lemma_accepted_sizes()
    ensures
        forall|size: int| timestamp_size(size) ==> #[trigger] timestamp_accepted(flags_for(size), size),
{
    reveal_with_fuel(bits_of, 4);
}

proof fn lemma_fields_settled(b: Seq<u8>, off: int, end: int)
    requires
        0 <= off,
        end <= b.len(),
    ensures
        fields_settled(repaired_fields(b, off, end), off, end),
    decreases end - off,
{
    let next = off + 4 + u16_at(b, off + 2);
    if off + 4 <= end && next <= end {
        let mid = repaired_field(b, off);
        let after = repaired_fields(mid, next, end);
        lemma_fields_frame(mid, next, end);
        lemma_fields_settled(mid, next, end);
        lemma_accepted_sizes();
        assert(after[off] == b[off] && after[off + 1] == b[off + 1] && after[off + 2] == b[off + 2]
            && after[off + 3] == b[off + 3]);
        if u16_at(b, off) == 0x5455 && timestamp_size(u16_at(b, off + 2)) {
            assert(after[off + 4] == mid[off + 4]);
        }
    } else {
        lemma_fields_frame(b, off, end);
    }
}

proof fn lemma_fields_settled_local(b: Seq<u8>, c: Seq<u8>, off: int, end: int)
    requires
        0 <= off,
        end <= b.len(),
        c.len() == b.len(),
        forall|i: int| off <= i < end ==> b[i] == c[i],
        fields_settled(b, off, end),
    ensures
        fields_settled(c, off, end),
    decreases end - off,
{
    let next = off + 4 + u16_at(b, off + 2);
    if off + 4 <= end {
        assert(b[off] == c[off] && b[off + 1] == c[off + 1] && b[off + 2] == c[off + 2] && b[off
            + 3] == c[off + 3]);
        if next <= end {
            lemma_fields_settled_local(b, c, next, end);
            if timestamp_size(u16_at(b, off + 2)) {
                assert(b[off + 4] == c[off + 4]);
            }
        }
    }
}

proof fn lemma_entries(b: Seq<u8>, pos: int, count: nat)
    requires
        0 <= pos,
    ensures
        differs_in_flags_only(b, repaired_entries(b, pos, count)),
        forall|i: int|
            0 <= i < b.len() && i < pos + 46 ==> #[trigger] repaired_entries(b, pos, count)[i]
                == b[i],
        entries_settled(repaired_entries(b, pos, count), pos, count),
    decreases count,
{
    if count > 0 && entry_at(b, pos) {
        let start = extra_start(b, pos);
        let end = extra_end(b, pos);
        let next = next_entry(b, pos);
        let mid = repaired_fields(b, start, end);
        let after = repaired_entries(mid, next, (count - 1) as nat);
        lemma_fields_frame(b, start, end);
        lemma_fields_settled(b, start, end);
        lemma_entries(mid, next, (count - 1) as nat);
        assert(after == repaired_entries(b, pos, count));
        assert forall|i: int| 0 <= i < b.len() && i < pos + 46 implies #[trigger] after[i] == b[i] by {
            assert(after[i] == mid[i]);
        }
        assert forall|i: int|
            0 <= i < b.len() && #[trigger] after[i] != b[i] implies is_flags_byte(b, i) && after[i]
            == repaired_flags(b[i], u16_at(b, i - 2)) by {
            if i < next + 46 {
                assert(after[i] == mid[i]);
            } else {
                assert(mid[i] == b[i]);
                assert(mid[i - 4] == b[i - 4] && mid[i - 3] == b[i - 3] && mid[i - 2] == b[i - 2]
                    && mid[i - 1] == b[i - 1]);
            }
        }
        assert forall|i: int| start <= i < end implies mid[i] == after[i] by {
            assert(after[i] == mid[i]);
        }
        lemma_fields_settled_local(mid, after, start, end);
        assert(forall|i: int| pos <= i < pos + 46 ==> after[i] == b[i]);
    }
}

proof fn lemma_flags_in_fields(b: Seq<u8>, off: int, end: int, i: int)
    requires
        0 <= off,
        end <= b.len(),
    ensures
        flags_in_fields(b, off, end, i) ==> off + 4 <= i < end && is_flags_byte(b, i),
    decreases end - off,
{
    let next = off + 4 + u16_at(b, off + 2);
    if off + 4 <= end && next <= end {
        lemma_flags_in_fields(b, next, end, i);
    }
}

/// The walk through extra fields depends on these alone.
proof fn lemma_flags_in_fields_local(b: Seq<u8>, c: Seq<u8>, off: int, end: int, i: int)
    requires
        0 <= off,
        end <= b.len(),
        c.len() == b.len(),
        forall|k: int| off <= k < end ==> b[k] == c[k],
    ensures
        flags_in_fields(b, off, end, i) == flags_in_fields(c, off, end, i),
    decreases end - off,
{
    let next = off + 4 + u16_at(b, off + 2);
    if off + 4 <= end {
        assert(b[off] == c[off] && b[off + 1] == c[off + 1] && b[off + 2] == c[off + 2] && b[off
            + 3] == c[off + 3]);
        if next <= end {
            lemma_flags_in_fields_local(b, c, next, end, i);
        }
    }
}

proof fn lemma_fields_exactly(b: Seq<u8>, off: int, end: int, i: int)
    requires
        0 <= off,
        end <= b.len(),
        0 <= i < b.len(),
    ensures
        repaired_fields(b, off, end)[i] == if flags_in_fields(b, off, end, i) {
            repaired_flags(b[i], u16_at(b, i - 2))
        } else {
            b[i]
        },
    decreases end - off,
{
    let next = off + 4 + u16_at(b, off + 2);
    if off + 4 <= end && next <= end {
        let mid = repaired_field(b, off);
        lemma_fields_exactly(mid, next, end, i);
        lemma_flags_in_fields(mid, next, end, i);
        lemma_flags_in_fields_local(b, mid, next, end, i);
    }
}

/// The walk through directory entries depends on these alone.
proof fn lemma_flags_in_entries_local(b: Seq<u8>, c: Seq<u8>, pos: int, count: nat, i: int)
    requires
        0 <= pos,
        c.len() == b.len(),
        forall|k: int| pos <= k < b.len() ==> b[k] == c[k],
    ensures
        flags_in_entries(b, pos, count, i) == flags_in_entries(c, pos, count, i),
    decreases count,
{
    if count > 0 && pos + 46 <= b.len() {
        assert(forall|k: int| pos <= k < pos + 46 ==> b[k] == c[k]);
        if entry_at(b, pos) {
            lemma_flags_in_fields_local(b, c, extra_start(b, pos), extra_end(b, pos), i);
            lemma_flags_in_entries_local(b, c, next_entry(b, pos), (count - 1) as nat, i);
        }
    }
}

proof fn lemma_flags_in_entries(b: Seq<u8>, pos: int, count: nat, i: int)
    requires
        0 <= pos,
    ensures
        flags_in_entries(b, pos, count, i) ==> pos + 50 <= i < b.len() && is_flags_byte(b, i),
    decreases count,
{
    if count > 0 && entry_at(b, pos) {
        lemma_flags_in_fields(b, extra_start(b, pos), extra_end(b, pos), i);
        lemma_flags_in_entries(b, next_entry(b, pos), (count - 1) as nat, i);
    }
}

proof fn lemma_entries_exactly(b: Seq<u8>, pos: int, count: nat, i: int)
    requires
        0 <= pos,
        0 <= i < b.len(),
    ensures
        repaired_entries(b, pos, count)[i] == if flags_in_entries(b, pos, count, i) {
            repaired_flags(b[i], u16_at(b, i - 2))
        } else {
            b[i]
        },
    decreases count,
{
    if count > 0 && entry_at(b, pos) {
        let start = extra_start(b, pos);
        let end = extra_end(b, pos);
        let next = next_entry(b, pos);
        let mid = repaired_fields(b, start, end);
        lemma_fields_frame(b, start, end);
        lemma_fields_exactly(b, start, end, i);
        lemma_flags_in_fields(b, start, end, i);
        lemma_entries_exactly(mid, next, (count - 1) as nat, i);
        lemma_flags_in_entries(mid, next, (count - 1) as nat, i);
        assert forall|k: int| next <= k < b.len() implies b[k] == mid[k] by {
            assert(mid[k] == b[k]);
        }
        lemma_flags_in_entries_local(b, mid, next, (count - 1) as nat, i);
        if flags_in_entries(b, next, (count - 1) as nat, i) {
            assert(mid[i] == b[i] && mid[i - 2] == b[i - 2] && mid[i - 1] == b[i - 1]);
        }
    }
}

/// The repair keeps the length of the file and every byte of it, except that the flags
/// byte of an extended timestamp, the first of its data, that is met by walking the extra
/// fields of the directory's entries gets the value that its length asks for.
pub proof fn law_only_timestamp_flags_change(b: Seq<u8>)
    ensures
        differs_in_flags_only(b, sanitized(b)),
        forall|i: int|
            0 <= i < b.len() ==> #[trigger] sanitized(b)[i] == if flags_in_directory(b, i) {
                repaired_flags(b[i], u16_at(b, i - 2))
            } else {
                b[i]
            },
{
    if let Some(e) = end_record(b) {
        lemma_end_record(b);
        if directory_inside(b, e) {
            let pos = u32_at(b, e + 16);
            let count = u16_at(b, e + 10) as nat;
            lemma_entries(b, pos, count);
            assert forall|i: int| 0 <= i < b.len() implies #[trigger] sanitized(b)[i]
                == if flags_in_directory(b, i) {
                repaired_flags(b[i], u16_at(b, i - 2))
            } else {
                b[i]
            } by {
                lemma_entries_exactly(b, pos, count, i);
            }
        }
    }
}

/// After the repair no timestamp of the directory that the end record points to
/// has flags that disagree with its length.
pub proof fn law_timestamps_are_accepted(b: Seq<u8>)
    ensures
        end_record(b) matches Some(e) ==> directory_inside(b, e) ==> entries_settled(
            sanitized(b),
            u32_at(b, e + 16),
            u16_at(b, e + 10) as nat,
        ),
{
    if let Some(e) = end_record(b) {
        lemma_end_record(b);
        if directory_inside(b, e) {
            lemma_entries(b, u32_at(b, e + 16), u16_at(b, e + 10) as nat);
        }
    }
}

/// The end record that is used is the last one in the searched part of the file.
pub proof fn law_last_end_record_is_used(b: Seq<u8>, i: int)
    requires
        search_floor(b.len() as int) <= i,
        is_end_record(b, i),
    ensures
        end_record(b) matches Some(e) && i <= e && is_end_record(b, e),
{
    lemma_end_record_below(b, b.len() - 22, i);
}

proof fn lemma_end_record_below(b: Seq<u8>, from: int, i: int)
    requires
        search_floor(b.len() as int) <= i <= from,
        is_end_record(b, i),
    ensures
        end_record_below(b, from) matches Some(e) && i <= e && is_end_record(b, e),
    decreases from - i,
{
    if !is_end_record(b, from) {
        lemma_end_record_below(b, from - 1, i);
    }
}

proof fn lemma_end_record(b: Seq<u8>)
    ensures
        end_record(b) matches Some(e) ==> is_end_record(b, e),
{
    if b.len() >= 22 {
        lemma_end_record_found(b, b.len() - 22);
    }
}

proof fn lemma_end_record_found(b: Seq<u8>, from: int)
    ensures
        end_record_below(b, from) matches Some(e) ==> is_end_record(b, e),
    decreases from + 1,
{
    if from >= search_floor(b.len() as int) && !is_end_record(b, from) {
        lemma_end_record_found(b, from - 1);
    }
}

proof fn lemma_settled_fields_stay(b: Seq<u8>, off: int, end: int)
    requires
        0 <= off,
        end <= b.len(),
        fields_settled(b, off, end),
    ensures
        repaired_fields(b, off, end) == b,
    decreases end - off,
{
    let size = u16_at(b, off + 2);
    let next = off + 4 + size;
    if off + 4 <= end && next <= end {
        if u16_at(b, off) == 0x5455 && size >= 1 {
            assert(repaired_flags(b[off + 4], size) == b[off + 4]);
            assert(b.update(off + 4, b[off + 4]) =~= b);
        }
        assert(repaired_field(b, off) == b);
        lemma_settled_fields_stay(b, next, end);
    }
}

proof fn lemma_settled_entries_stay(b: Seq<u8>, pos: int, count: nat)
    requires
        0 <= pos,
        entries_settled(b, pos, count),
    ensures
        repaired_entries(b, pos, count) == b,
    decreases count,
{
    if count > 0 && entry_at(b, pos) {
        lemma_settled_fields_stay(b, extra_start(b, pos), extra_end(b, pos));
        lemma_settled_entries_stay(b, next_entry(b, pos), (count - 1) as nat);
    }
}

proof fn lemma_same_tail_same_record(b: Seq<u8>, c: Seq<u8>, from: int)
    requires
        b.len() == c.len(),
        from <= b.len() - 22,
        end_record_below(b, from) is Some,
        forall|i: int| end_record_below(b, from)->0 <= i < b.len() ==> b[i] == c[i],
    ensures
        end_record_below(c, from) == end_record_below(b, from),
    decreases from + 1,
{
    lemma_record_at_or_below(b, from);
    let e = end_record_below(b, from)->0;
    assert(forall|k: int| e <= k < b.len() ==> b[k] == c[k]);
    assert(b[from] == c[from] && b[from + 1] == c[from + 1] && b[from + 2] == c[from + 2] && b[from
        + 3] == c[from + 3] && b[from + 20] == c[from + 20] && b[from + 21] == c[from + 21]);
    if !is_end_record(b, from) {
        lemma_same_tail_same_record(b, c, from - 1);
    }
}

proof fn lemma_record_at_or_below(b: Seq<u8>, from: int)
    ensures
        end_record_below(b, from) matches Some(e) ==> search_floor(b.len() as int) <= e <= from,
    decreases from + 1,
{
    if from >= search_floor(b.len() as int) && !is_end_record(b, from) {
        lemma_record_at_or_below(b, from - 1);
    }
}

/// Where the repair leaves the end record and what follows it alone, a second repair
/// changes nothing.
pub proof fn law_repair_is_stable(b: Seq<u8>)
    requires
        end_record(b) matches Some(e) ==> forall|i: int|
            e <= i < b.len() ==> sanitized(b)[i] == b[i],
    ensures
        sanitized(sanitized(b)) == sanitized(b),
{
    let c = sanitized(b);
    law_only_timestamp_flags_change(b);
    if let Some(e) = end_record(b) {
        lemma_end_record(b);
        lemma_record_at_or_below(b, b.len() - 22);
        lemma_same_tail_same_record(b, c, b.len() - 22);
        assert(forall|k: int| e <= k < b.len() ==> b[k] == c[k]);
        assert(u32_at(c, e + 16) == u32_at(b, e + 16));
        assert(u32_at(c, e + 12) == u32_at(b, e + 12));
        assert(u16_at(c, e + 10) == u16_at(b, e + 10));
        if directory_inside(b, e) {
            law_timestamps_are_accepted(b);
            lemma_settled_entries_stay(c, u32_at(b, e + 16), u16_at(b, e + 10) as nat);
        }
    }
}

/// Whether up to `count` directory entries from `pos` on, as far as they follow one
/// another, end at or before `limit`.
pub open spec fn entries_end_before(b: Seq<u8>, pos: int, count: nat, limit: int) -> bool
    decreases count,
{
    count == 0 || !entry_at(b, pos) || {
        &&& extra_end(b, pos) <= limit
        &&& entries_end_before(b, next_entry(b, pos), (count - 1) as nat, limit)
    }
}

proof fn lemma_entries_leave_tail(b: Seq<u8>, pos: int, count: nat, limit: int)
    requires
        0 <= pos,
        entries_end_before(b, pos, count, limit),
    ensures
        forall|i: int|
            limit <= i < b.len() && 0 <= i ==> #[trigger] repaired_entries(b, pos, count)[i] == b[i],
    decreases count,
{
    if count > 0 && entry_at(b, pos) {
        let start = extra_start(b, pos);
        let end = extra_end(b, pos);
        let next = next_entry(b, pos);
        let mid = repaired_fields(b, start, end);
        lemma_fields_frame(b, start, end);
        lemma_end_before_same(b, mid, next, (count - 1) as nat, limit, end);
        lemma_entries_leave_tail(mid, next, (count - 1) as nat, limit);
        assert forall|i: int| limit <= i < b.len() && 0 <= i implies #[trigger] repaired_entries(
            b,
            pos,
            count,
        )[i] == b[i] by {
            assert(mid[i] == b[i]);
            assert(repaired_entries(mid, next, (count - 1) as nat)[i] == mid[i]);
        }
    }
}

proof fn lemma_end_before_same(b: Seq<u8>, c: Seq<u8>, pos: int, count: nat, limit: int, from: int)
    requires
        0 <= from <= pos,
        b.len() == c.len(),
        forall|i: int| from <= i < b.len() ==> b[i] == c[i],
        entries_end_before(b, pos, count, limit),
    ensures
        entries_end_before(c, pos, count, limit),
    decreases count,
{
    if count > 0 && pos + 46 <= b.len() {
        assert(forall|i: int| pos <= i < pos + 46 ==> b[i] == c[i]);
        assert(b[pos] == c[pos] && b[pos + 1] == c[pos + 1] && b[pos + 2] == c[pos + 2] && b[pos
            + 3] == c[pos + 3] && b[pos + 28] == c[pos + 28] && b[pos + 29] == c[pos + 29] && b[pos
            + 30] == c[pos + 30] && b[pos + 31] == c[pos + 31] && b[pos + 32] == c[pos + 32]
            && b[pos + 33] == c[pos + 33]);
        if entry_at(b, pos) {
            lemma_end_before_same(b, c, next_entry(b, pos), (count - 1) as nat, limit, from);
        }
    }
}

/// Where every directory entry ends at or before the end record, a second repair
/// changes nothing.
pub proof fn law_repair_of_an_archive_is_stable(b: Seq<u8>)
    requires
        end_record(b) matches Some(e) ==> directory_inside(b, e) ==> entries_end_before(
            b,
            u32_at(b, e + 16),
            u16_at(b, e + 10) as nat,
            e,
        ),
    ensures
        sanitized(sanitized(b)) == sanitized(b),
{
    if let Some(e) = end_record(b) {
        lemma_end_record(b);
        if directory_inside(b, e) {
            lemma_entries_leave_tail(b, u32_at(b, e + 16), u16_at(b, e + 10) as nat, e);
        }
    }
    law_repair_is_stable(b);
}

// ---- every timestamp of every entry ----

/// Two bytes as a number, the low one first.
pub open spec fn pair_value(b: Seq<u8>, i: int) -> int {
    b[i] as int + b[i + 1] as int * 0x100
}

/// Four bytes as a number, the low one first.
pub open spec fn quad_value(b: Seq<u8>, i: int) -> int {
    b[i] as int + b[i + 1] as int * 0x100 + b[i + 2] as int * 0x1_0000 + b[i + 3] as int
        * 0x100_0000
}

/// Whether an end record stands at `e` whose comment ends with the file.
pub open spec fn ends_file(b: Seq<u8>, e: int) -> bool {
    &&& 0 <= e
    &&& e + 22 <= b.len()
    &&& b[e] == 0x50 && b[e + 1] == 0x4b && b[e + 2] == 5 && b[e + 3] == 6
    &&& e + 22 + pair_value(b, e + 20) == b.len()
}

/// Whether a complete directory entry stands at `p`: 46 bytes, a name, extra fields and a
/// comment, as long as its bytes 28 to 33 say, of which all but the comment lies in the file.
pub open spec fn directory_entry_at(b: Seq<u8>, p: int) -> bool {
    &&& 0 <= p
    &&& p + 46 <= b.len()
    &&& b[p] == 0x50 && b[p + 1] == 0x4b && b[p + 2] == 1 && b[p + 3] == 2
    &&& p + 46 + pair_value(b, p + 28) + pair_value(b, p + 30) <= b.len()
}

/// Whether `at` are the positions of entries one right after another.
pub open spec fn entries_in_a_row(b: Seq<u8>, at: Seq<int>) -> bool {
    &&& forall|k: int| 0 <= k < at.len() ==> directory_entry_at(b, #[trigger] at[k])
    &&& forall|k: int, m: int|
        0 <= k && m == k + 1 && m < at.len() ==> #[trigger] at[m] == #[trigger] at[k] + 46
            + pair_value(b, at[k] + 28) + pair_value(b, at[k] + 30) + pair_value(b, at[k] + 32)
}

/// Whether the file ends in an end record, the last one at that, whose directory lies inside
/// the file and starts with the entries at `at`, up to as many as the record counts.
pub open spec fn directory_at(b: Seq<u8>, e: int, at: Seq<int>) -> bool {
    &&& ends_file(b, e)
    &&& forall|f: int| e < f ==> !#[trigger] ends_file(b, f)
    &&& quad_value(b, e + 16) < b.len()
    &&& quad_value(b, e + 16) + quad_value(b, e + 12) <= b.len()
    &&& entries_in_a_row(b, at)
    &&& 0 < at.len() <= pair_value(b, e + 10)
    &&& at[0] == quad_value(b, e + 16)
}

/// Whether `fields` are the positions of extra fields one right after another, from `start`
/// on, each of four bytes and as many more as its second pair says, none beyond `end`.
pub open spec fn fields_in_a_row(b: Seq<u8>, start: int, end: int, fields: Seq<int>) -> bool {
    &&& fields.len() > 0
    &&& fields[0] == start
    &&& forall|j: int|
        0 <= j < fields.len() ==> 4 + pair_value(b, #[trigger] fields[j] + 2) + fields[j] <= end
    &&& forall|j: int, m: int|
        0 <= j && m == j + 1 && m < fields.len() ==> #[trigger] fields[m] == 4 + pair_value(
            b,
            #[trigger] fields[j] + 2,
        ) + fields[j]
}

/// Whether `fields` are extra fields, one right after another, of the entry at `p`, from its
/// first on.
pub open spec fn fields_of_entry(b: Seq<u8>, p: int, fields: Seq<int>) -> bool {
    fields_in_a_row(
        b,
        p + 46 + pair_value(b, p + 28),
        p + 46 + pair_value(b, p + 28) + pair_value(b, p + 30),
        fields,
    )
}

/// How many of the eight bits of a byte are set.
pub open spec fn set_bits(x: u8) -> int {
    let n = x as int;
    n % 2 + n / 2 % 2 + n / 4 % 2 + n / 8 % 2 + n / 16 % 2 + n / 32 % 2 + n / 64 % 2 + n / 128 % 2
}

proof fn lemma_set_bits(x: u8)
    ensures
        one_bits(x) == set_bits(x),
{
    let n = x as nat;
    assert(n / 2 / 2 == n / 4);
    assert(n / 4 / 2 == n / 8);
    assert(n / 8 / 2 == n / 16);
    assert(n / 16 / 2 == n / 32);
    assert(n / 32 / 2 == n / 64);
    assert(n / 64 / 2 == n / 128);
    assert(n / 128 / 2 == 0);
    assert(bits_of(0) == 0);
    assert(bits_of(n / 128) == n / 128 % 2);
    assert(bits_of(n / 64) == n / 64 % 2 + bits_of(n / 128));
    assert(bits_of(n / 32) == n / 32 % 2 + bits_of(n / 64));
    assert(bits_of(n / 16) == n / 16 % 2 + bits_of(n / 32));
    assert(bits_of(n / 8) == n / 8 % 2 + bits_of(n / 16));
    assert(bits_of(n / 4) == n / 4 % 2 + bits_of(n / 8));
    assert(bits_of(n / 2) == n / 2 % 2 + bits_of(n / 4));
    assert(bits_of(n) == n % 2 + bits_of(n / 2));
}

proof fn lemma_field_is_met(b: Seq<u8>, start: int, end: int, fields: Seq<int>)
    requires
        0 <= start,
        end <= b.len(),
        fields_in_a_row(b, start, end, fields),
        pair_value(b, fields.last()) == 0x5455,
        pair_value(b, fields.last() + 2) >= 1,
    ensures
        flags_in_fields(b, start, end, fields.last() + 4),
    decreases fields.len(),
{
    assert(fields[0] == start);
    assert(4 + pair_value(b, fields[0] + 2) + fields[0] <= end);
    if fields.len() > 1 {
        let rest = fields.drop_first();
        assert(fields[1] == 4 + pair_value(b, fields[0] + 2) + fields[0]);
        assert forall|j: int| 0 <= j < rest.len() implies 4 + pair_value(b, #[trigger] rest[j] + 2)
            + rest[j] <= end by {
            assert(rest[j] == fields[j + 1]);
        }
        assert forall|j: int, m: int| 0 <= j && m == j + 1 && m < rest.len() implies
            #[trigger] rest[m] == 4 + pair_value(b, #[trigger] rest[j] + 2) + rest[j] by {
            assert(rest[j] == fields[j + 1] && rest[m] == fields[m + 1]);
        }
        lemma_field_is_met(b, fields[1], end, rest);
    }
}

proof fn lemma_met_field_is_in_a_row(b: Seq<u8>, off: int, end: int, i: int)
    requires
        0 <= off,
        end <= b.len(),
        flags_in_fields(b, off, end, i),
    ensures
        exists|fields: Seq<int>| #[trigger]
            fields_in_a_row(b, off, end, fields) && fields.last() + 4 == i && pair_value(
                b,
                fields.last(),
            ) == 0x5455,
    decreases end - off,
{
    let size = u16_at(b, off + 2);
    if u16_at(b, off) == 0x5455 && size >= 1 && i == off + 4 {
        let fields = seq![off];
        assert(fields_in_a_row(b, off, end, fields));
        assert(fields.last() == off);
    } else {
        lemma_met_field_is_in_a_row(b, off + 4 + size, end, i);
        let rest = choose|rest: Seq<int>| #[trigger]
            fields_in_a_row(b, off + 4 + size, end, rest) && rest.last() + 4 == i && pair_value(
                b,
                rest.last(),
            ) == 0x5455;
        let fields = seq![off] + rest;
        assert forall|j: int| 0 <= j < fields.len() implies 4 + pair_value(
            b,
            #[trigger] fields[j] + 2,
        ) + fields[j] <= end by {
            if j > 0 {
                assert(fields[j] == rest[j - 1]);
            }
        }
        assert forall|j: int, m: int| 0 <= j && m == j + 1 && m < fields.len() implies
            #[trigger] fields[m] == 4 + pair_value(b, #[trigger] fields[j] + 2) + fields[j] by {
            assert(fields[m] == rest[m - 1]);
            if j > 0 {
                assert(fields[j] == rest[j - 1]);
            }
        }
        assert(fields_in_a_row(b, off, end, fields));
        assert(fields.last() == rest.last());
    }
}

proof fn lemma_entry_is_met(b: Seq<u8>, at: Seq<int>, count: nat, k: int, i: int)
    requires
        entries_in_a_row(b, at),
        0 <= k < at.len() <= count,
        flags_in_fields(
            b,
            at[k] + 46 + pair_value(b, at[k] + 28),
            at[k] + 46 + pair_value(b, at[k] + 28) + pair_value(b, at[k] + 30),
            i,
        ),
    ensures
        flags_in_entries(b, at[0], count, i),
    decreases k,
{
    assert(directory_entry_at(b, at[0]));
    assert(entry_at(b, at[0]));
    if k > 0 {
        let rest = at.drop_first();
        assert(directory_entry_at(b, at[1]));
        assert(at[1] == at[0] + 46 + pair_value(b, at[0] + 28) + pair_value(b, at[0] + 30)
            + pair_value(b, at[0] + 32));
        assert forall|j: int| 0 <= j < rest.len() implies directory_entry_at(b, #[trigger] rest[j]) by {
            assert(rest[j] == at[j + 1]);
        }
        assert forall|j: int, m: int| 0 <= j && m == j + 1 && m < rest.len() implies
            #[trigger] rest[m] == #[trigger] rest[j] + 46 + pair_value(b, rest[j] + 28)
            + pair_value(b, rest[j] + 30) + pair_value(b, rest[j] + 32) by {
            assert(rest[j] == at[j + 1] && rest[m] == at[m + 1]);
        }
        assert(rest[k - 1] == at[k]);
        lemma_entry_is_met(b, rest, (count - 1) as nat, k - 1, i);
        assert(next_entry(b, at[0]) == at[1]);
        assert(rest[0] == at[1]);
    }
}

/// Where the entry after the last one of `at` starts, if there is one.
pub open spec fn after_entries(b: Seq<u8>, at: Seq<int>) -> int {
    at.last() + 46 + pair_value(b, at.last() + 28) + pair_value(b, at.last() + 30) + pair_value(
        b,
        at.last() + 32,
    )
}

proof fn lemma_met_entry(b: Seq<u8>, at: Seq<int>, count: nat, i: int)
    requires
        entries_in_a_row(b, at),
        0 < at.len() <= count,
        at.len() == count || !directory_entry_at(b, after_entries(b, at)),
        flags_in_entries(b, at[0], count, i),
    ensures
        exists|k: int|
            0 <= k < at.len() && flags_in_fields(
                b,
                #[trigger] at[k] + 46 + pair_value(b, at[k] + 28),
                at[k] + 46 + pair_value(b, at[k] + 28) + pair_value(b, at[k] + 30),
                i,
            ),
    decreases count,
{
    assert(directory_entry_at(b, at[0]));
    if flags_in_fields(b, extra_start(b, at[0]), extra_end(b, at[0]), i) {
        assert(at[0] + 46 + pair_value(b, at[0] + 28) == extra_start(b, at[0]));
    } else if at.len() > 1 {
        let rest = at.drop_first();
        assert(rest.last() == at.last());
        assert(at[1] == at[0] + 46 + pair_value(b, at[0] + 28) + pair_value(b, at[0] + 30)
            + pair_value(b, at[0] + 32));
        assert(rest[0] == at[1]);
        assert(next_entry(b, at[0]) == at[1]);
        assert forall|j: int| 0 <= j < rest.len() implies directory_entry_at(b, #[trigger] rest[j]) by {
            assert(rest[j] == at[j + 1]);
        }
        assert forall|j: int, m: int| 0 <= j && m == j + 1 && m < rest.len() implies
            #[trigger] rest[m] == #[trigger] rest[j] + 46 + pair_value(b, rest[j] + 28)
            + pair_value(b, rest[j] + 30) + pair_value(b, rest[j] + 32) by {
            assert(rest[j] == at[j + 1] && rest[m] == at[m + 1]);
        }
        lemma_met_entry(b, rest, (count - 1) as nat, i);
        let k = choose|k: int|
            0 <= k < rest.len() && flags_in_fields(
                b,
                #[trigger] rest[k] + 46 + pair_value(b, rest[k] + 28),
                rest[k] + 46 + pair_value(b, rest[k] + 28) + pair_value(b, rest[k] + 30),
                i,
            );
        assert(at[k + 1] == rest[k]);
    } else {
        assert(next_entry(b, at[0]) == after_entries(b, at));
        assert(!flags_in_entries(b, next_entry(b, at[0]), (count - 1) as nat, i));
    }
}

proof fn lemma_directory(b: Seq<u8>, e: int, at: Seq<int>)
    requires
        directory_at(b, e, at),
    ensures
        end_record(b) == Some(e),
        directory_inside(b, e),
        u32_at(b, e + 16) == at[0],
        u16_at(b, e + 10) == pair_value(b, e + 10),
{
    assert(is_end_record(b, e));
    law_last_end_record_is_used(b, e);
    let f = end_record(b)->0;
    assert(ends_file(b, f));
}

/// In a directory made of entries one right after another, up to as many as the end record
/// counts, every extended timestamp of one, nine or thirteen bytes has after the repair as
/// many bits set in its flags as there is room for timestamps after them: flags that agreed
/// stay, others get the lowest bits. Timestamps of any other length stay as they are.
pub proof fn law_every_timestamp_is_repaired(
    b: Seq<u8>,
    e: int,
    at: Seq<int>,
    k: int,
    fields: Seq<int>,
)
    requires
        directory_at(b, e, at),
        0 <= k < at.len(),
        fields_of_entry(b, at[k], fields),
        b[fields.last()] == 0x55,
        b[fields.last() + 1] == 0x54,
    ensures
        ({
            let f = fields.last();
            let size = pair_value(b, f + 2);
            let before = b[f + 4];
            let after = sanitized(b)[f + 4];
            &&& size == 1 ==> after == 0
            &&& size == 9 ==> set_bits(after) == 2 && (after == before || after == 3)
            &&& size == 13 ==> set_bits(after) == 3 && (after == before || after == 7)
            &&& size == 9 && set_bits(before) == 2 ==> after == before
            &&& size == 13 && set_bits(before) == 3 ==> after == before
            &&& size >= 1 && size != 1 && size != 9 && size != 13 ==> after == before
        }),
{
    let f = fields.last();
    let size = pair_value(b, f + 2);
    assert(fields[fields.len() - 1] == f);
    assert(directory_entry_at(b, at[k]));
    let start = at[k] + 46 + pair_value(b, at[k] + 28);
    let end = start + pair_value(b, at[k] + 30);
    assert(4 + pair_value(b, fields[fields.len() - 1] + 2) + fields[fields.len() - 1] <= end);
    if size >= 1 {
        lemma_directory(b, e, at);
        lemma_field_is_met(b, start, end, fields);
        lemma_entry_is_met(b, at, pair_value(b, e + 10) as nat, k, f + 4);
        law_only_timestamp_flags_change(b);
        lemma_flags_in_fields(b, start, end, f + 4);
        assert(sanitized(b)[f + 4] == repaired_flags(b[f + 4], u16_at(b, f + 2)));
        lemma_set_bits(b[f + 4]);
        lemma_set_bits(0);
        if size == 1 && set_bits(b[f + 4]) == 0 {
            let n = b[f + 4] as int;
            assert(n == 0);
        }
    }
}

/// The repair touches nothing else: where a directory is made of entries one right after
/// another, as many as the end record counts or up to where no further one stands, a byte
/// changes only where it is the first after the head of an extended timestamp
/// of one, nine or thirteen bytes in one of them.
pub proof fn law_nothing_else_is_repaired(b: Seq<u8>, e: int, at: Seq<int>, i: int)
    requires
        directory_at(b, e, at),
        at.len() == pair_value(b, e + 10) || !directory_entry_at(b, after_entries(b, at)),
        0 <= i < b.len(),
        sanitized(b)[i] != b[i],
    ensures
        exists|k: int, fields: Seq<int>|
            0 <= k < at.len() && #[trigger] fields_of_entry(b, at[k], fields) && i == fields.last() + 4
                && b[fields.last()] == 0x55 && b[fields.last() + 1] == 0x54 && (pair_value(
                b,
                fields.last() + 2,
            ) == 1 || pair_value(b, fields.last() + 2) == 9 || pair_value(b, fields.last() + 2)
                == 13),
{
    lemma_directory(b, e, at);
    law_only_timestamp_flags_change(b);
    assert(flags_in_directory(b, i));
    let count = pair_value(b, e + 10) as nat;
    lemma_met_entry(b, at, count, i);
    let k = choose|k: int|
        0 <= k < at.len() && flags_in_fields(
            b,
            #[trigger] at[k] + 46 + pair_value(b, at[k] + 28),
            at[k] + 46 + pair_value(b, at[k] + 28) + pair_value(b, at[k] + 30),
            i,
        );
    assert(directory_entry_at(b, at[k]));
    let start = at[k] + 46 + pair_value(b, at[k] + 28);
    let end = start + pair_value(b, at[k] + 30);
    lemma_met_field_is_in_a_row(b, start, end, i);
    let fields = choose|fields: Seq<int>| #[trigger]
        fields_in_a_row(b, start, end, fields) && fields.last() + 4 == i && pair_value(
            b,
            fields.last(),
        ) == 0x5455;
    assert(fields_of_entry(b, at[k], fields));
    assert(u16_at(b, i - 2) == pair_value(b, fields.last() + 2));
}

/// Where the file does not end in an end record, or that record's directory does not lie
/// inside the file or does not start with an entry, nothing is touched; the length stays in any case.
pub proof fn law_file_without_directory_stays(b: Seq<u8>)
    ensures
        (forall|f: int| !#[trigger] ends_file(b, f)) ==> sanitized(b) == b,
        forall|e: int|
            #[trigger] ends_file(b, e) && (forall|f: int| e < f ==> !#[trigger] ends_file(b, f)) && (
            quad_value(b, e + 16) >= b.len() || quad_value(b, e + 16) + quad_value(b, e + 12)
                > b.len() || !directory_entry_at(b, quad_value(b, e + 16))) ==> sanitized(b) == b,
        sanitized(b).len() == b.len(),
{
    law_only_timestamp_flags_change(b);
    lemma_end_record(b);
    if let Some(e) = end_record(b) {
        assert(ends_file(b, e));
    }
    assert forall|e: int|
        #[trigger] ends_file(b, e) && (forall|f: int| e < f ==> !#[trigger] ends_file(b, f)) && (
        quad_value(b, e + 16) >= b.len() || quad_value(b, e + 16) + quad_value(b, e + 12) > b.len()
            || !directory_entry_at(b, quad_value(b, e + 16))) implies sanitized(b) == b by {
        assert(is_end_record(b, e));
        law_last_end_record_is_used(b, e);
        let f = end_record(b)->0;
        assert(ends_file(b, f));
        assert(f == e);
    }
}

} // verus!
