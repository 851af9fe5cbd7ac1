//! The package as a zip archive: reading its parts and writing a new one.

use crate::parts::{
    distinct_names, find_part, has_part, law_part_is_found, law_put_part_is_found, put_part, Part,
    PartSet,
};
use crate::text::{contains_name, outcome, strings, utf8};
use crate::timestamps::sanitized;
use std::io::{Cursor, Read, Write};
use vstd::prelude::*;
use zip::write::SimpleFileOptions;
use zip::{CompressionMethod, ZipArchive, ZipWriter};

verus! {

// ---- reading ----

/// What an archive holds: the names of its entries, in order, and what reading each
/// gives, the bytes or the text of the error.
#[verifier::ext_equal]
pub struct ZipDirectory {
    pub names: Seq<Seq<char>>,
    pub files: Map<Seq<char>, Result<Seq<u8>, Seq<char>>>,
}

/// What `ZipArchive::new` finds in the bytes of an archive, or the text of its error.
pub uninterp spec fn zip_open(bytes: Seq<u8>) -> Result<ZipDirectory, Seq<char>>;

/// What an open archive holds.
pub uninterp spec fn archive_directory(archive: ZipArchive<Cursor<Vec<u8>>>) -> ZipDirectory;

/// The archive reader of `zip`.
#[verifier::external_type_specification]
#[verifier::external_body]
#[verifier::reject_recursive_types(R)]
pub struct ExZipArchive<R>(ZipArchive<R>);

/// The standard library's reader and writer in memory.
#[verifier::external_type_specification]
#[verifier::external_body]
#[verifier::reject_recursive_types(T)]
pub struct ExCursor<T>(Cursor<T>);

/// `ZipArchive::new` on bytes in memory: what it finds depends on the bytes alone,
/// and no two entries have one name.
#[verifier::external_body]
pub(crate) fn open_archive(bytes: Vec<u8>) -> (r: Result<ZipArchive<Cursor<Vec<u8>>>, String>)
    ensures
        match r {
            Ok(a) => zip_open(bytes@) == Ok::<ZipDirectory, Seq<char>>(archive_directory(a))
                && archive_directory(a).names.no_duplicates(),
            Err(m) => zip_open(bytes@) == Err::<ZipDirectory, Seq<char>>(m@),
        },
{
    ZipArchive::new(Cursor::new(bytes)).map_err(|e| e.to_string())
}

/// `ZipArchive::file_names`, in the order of the archive's directory.
#[verifier::external_body]
pub(crate) fn archive_names(archive: &ZipArchive<Cursor<Vec<u8>>>) -> (r: Vec<String>)
    ensures
        strings(r@) == archive_directory(*archive).names,
{
    archive.file_names().map(|s| s.to_string()).collect()
}

pub const NOT_IN_ARCHIVE: &'static str = "specified file not found in archive";

/// What reading an entry gives.
pub open spec fn entry_of(dir: ZipDirectory, name: Seq<char>) -> Result<Seq<u8>, Seq<char>> {
    if dir.names.contains(name) {
        dir.files[name]
    } else {
        Err(NOT_IN_ARCHIVE@)
    }
}

/// `ZipArchive::by_name`, and `read_to_end` on the entry: its bytes, or the text of
/// the error. Reading changes nothing that a later call can see.
#[verifier::external_body]
pub(crate) fn read_part(archive: &mut ZipArchive<Cursor<Vec<u8>>>, name: &str) -> (r: Result<
    Vec<u8>,
    String,
>)
    ensures
        archive_directory(*final(archive)) == archive_directory(*old(archive)),
        outcome(r) == entry_of(archive_directory(*old(archive)), name@),
{
    let mut file = archive.by_name(name).map_err(|e| e.to_string())?;
    let mut buf = Vec::new();
    file.read_to_end(&mut buf).map_err(|e| e.to_string())?;
    Ok(buf)
}

/// The bytes of an entry, if it is there and can be read.
pub open spec fn readable_entry(dir: ZipDirectory, name: Seq<char>) -> Option<Seq<u8>> {
    match entry_of(dir, name) {
        Ok(b) => Some(b),
        Err(_) => None,
    }
}

/// The bytes of an entry, as [`readable_entry`] says.
pub fn read_entry(archive: &mut ZipArchive<Cursor<Vec<u8>>>, name: &str) -> (r: Option<Vec<u8>>)
    ensures
        archive_directory(*final(archive)) == archive_directory(*old(archive)),
        match r {
            Some(b) => readable_entry(archive_directory(*old(archive)), name@) == Some(b@),
            None => readable_entry(archive_directory(*old(archive)), name@) is None,
        },
{
    match read_part(archive, name) {
        Ok(b) => Some(b),
        Err(_) => None,
    }
}

/// The bytes of a part: a new version if there is one, or else the archive's.
pub open spec fn current(dir: ZipDirectory, parts: Seq<Part>, name: Seq<char>) -> Option<Seq<u8>> {
    match find_part(parts, name) {
        Some(b) => Some(b),
        None => readable_entry(dir, name),
    }
}

/// The bytes of a part, as [`current`] says.
pub fn read_current(
    archive: &mut ZipArchive<Cursor<Vec<u8>>>,
    parts: &PartSet,
    name: &str,
) -> (r: Option<Vec<u8>>)
    ensures
        archive_directory(*final(archive)) == archive_directory(*old(archive)),
        match r {
            Some(b) => current(archive_directory(*old(archive)), parts@, name@) == Some(b@),
            None => current(archive_directory(*old(archive)), parts@, name@) is None,
        },
{
    match parts.get(name) {
        Some(b) => Some(b),
        None => read_entry(archive, name),
    }
}

// ---- writing ----

/// How the bytes of an entry are stored.
#[derive(Clone, Copy, Debug, PartialEq, Eq, Structural)]
pub enum Compression {
    Stored,
    Deflated,
}

/// An entry to be written: a file with its bytes, or a directory.
#[verifier::ext_equal]
pub struct ZipEntry {
    pub name: Seq<char>,
    pub data: Seq<u8>,
    pub directory: bool,
    pub method: Compression,
}

/// The entry for a directory; there is nothing in it to compress.
pub open spec fn directory_entry(name: Seq<char>) -> ZipEntry {
    ZipEntry { name, data: Seq::empty(), directory: true, method: Compression::Stored }
}

/// The entry for a file; the bytes of files are deflated.
pub open spec fn file_entry(name: Seq<char>, data: Seq<u8>) -> ZipEntry {
    ZipEntry { name, data, directory: false, method: Compression::Deflated }
}

/// A zip archive that is being written in memory.
#[verifier::external_body]
pub struct PackageWriter {
    writer: ZipWriter<Cursor<Vec<u8>>>,
}

/// What has been written to an archive so far.
pub uninterp spec fn writer_entries(w: PackageWriter) -> Seq<ZipEntry>;

/// The bytes of a finished archive.
pub uninterp spec fn zip_bytes(entries: Seq<ZipEntry>) -> Seq<u8>;

pub open spec fn has_entry(entries: Seq<ZipEntry>, name: Seq<char>) -> bool {
    exists|i: int| 0 <= i < entries.len() && (#[trigger] entries[i]).name == name
}

/// No name occurs twice.
pub open spec fn distinct_entries(entries: Seq<ZipEntry>) -> bool {
    forall|i: int, j: int|
        0 <= i < j < entries.len() ==> (#[trigger] entries[i]).name != (#[trigger] entries[j]).name
}

/// The room that entries take at most: their bytes and a quarter more, since data that
/// cannot be compressed grows a little, their names twice, and headers.
pub open spec fn weight(entries: Seq<ZipEntry>) -> nat
    decreases entries.len(),
{
    if entries.len() == 0 {
        0
    } else {
        weight(entries.drop_last()) + entries.last().data.len() + entries.last().data.len() / 4 + 2
            * utf8(entries.last().name).len() + 1024
    }
}

/// Whether an archive stays below the size at which 32-bit fields overflow.
pub open spec fn moderate(entries: Seq<ZipEntry>) -> bool {
    weight(entries) <= 0xffff_ffff
}

/// Whether a name fits in the 16-bit length field of an entry.
pub open spec fn short_name(name: Seq<char>) -> bool {
    utf8(name).len() <= 65535
}

/// What the entries look like to a reader.
pub open spec fn directory_of(entries: Seq<ZipEntry>) -> ZipDirectory {
    ZipDirectory {
        names: entries.map_values(|e: ZipEntry| e.name),
        files: Map::new(
            |name: Seq<char>| has_entry(entries, name),
            |name: Seq<char>| Ok(entry_data(entries, name)),
        ),
    }
}

/// The bytes of the first entry with the given name.
pub open spec fn entry_data(entries: Seq<ZipEntry>, name: Seq<char>) -> Seq<u8>
    decreases entries.len(),
{
    if entries.len() == 0 {
        Seq::empty()
    } else if entries[0].name == name {
        entries[0].data
    } else {
        entry_data(entries.drop_first(), name)
    }
}

/// `ZipWriter::new` on an empty buffer.
#[verifier::external_body]
fn new_writer() -> (r: PackageWriter)
    ensures
        writer_entries(r) == Seq::<ZipEntry>::empty(),
{
    PackageWriter { writer: ZipWriter::new(Cursor::new(Vec::new())) }
}

/// `ZipWriter::add_directory`, for a name that ends in a slash: adds a directory, with
/// nothing to compress, unless the name is taken. It does not fail on an archive of
/// moderate size.
#[verifier::external_body]
fn add_directory(w: &mut PackageWriter, name: &str) -> (r: Result<(), String>)
    requires
        name@.len() > 0 && name@.last() == '/',
        short_name(name@),
    ensures
        ({
            let before = writer_entries(*old(w));
            let after = before.push(directory_entry(name@));
            match r {
                Ok(_) => writer_entries(*final(w)) == after && !has_entry(before, name@),
                Err(_) => has_entry(before, name@) || !moderate(after),
            }
        }),
{
    let options = SimpleFileOptions::default().compression_method(CompressionMethod::Deflated);
    w.writer.add_directory(name, options).map_err(|e| e.to_string())
}

/// `ZipWriter::start_file` with the given compression: opens a new, empty file unless
/// the name is taken. It does not fail on an archive of moderate size.
#[verifier::external_body]
fn start_file(w: &mut PackageWriter, name: &str, method: Compression) -> (r: Result<(), String>)
    requires
        short_name(name@),
    ensures
        ({
            let before = writer_entries(*old(w));
            let after = before.push(
                ZipEntry { name: name@, data: Seq::empty(), directory: false, method },
            );
            match r {
                Ok(_) => writer_entries(*final(w)) == after && !has_entry(before, name@),
                Err(_) => has_entry(before, name@) || !moderate(after),
            }
        }),
{
    let method = match method {
        Compression::Stored => CompressionMethod::Stored,
        Compression::Deflated => CompressionMethod::Deflated,
    };
    let options = SimpleFileOptions::default().compression_method(method);
    w.writer.start_file(name, options).map_err(|e| e.to_string())
}

/// `write_all` on a `ZipWriter`: gives the file that was just started its bytes. It
/// does not fail on an archive of moderate size.
#[verifier::external_body]
fn write_data(w: &mut PackageWriter, data: &[u8]) -> (r: Result<(), String>)
    requires
        writer_entries(*old(w)).len() > 0,
        !writer_entries(*old(w)).last().directory,
        writer_entries(*old(w)).last().data.len() == 0,
    ensures
        ({
            let before = writer_entries(*old(w));
            let after = before.drop_last().push(
                ZipEntry { data: data@, ..before.last() },
            );
            match r {
                Ok(_) => writer_entries(*final(w)) == after,
                Err(_) => !moderate(after),
            }
        }),
{
    w.writer.write_all(data).map_err(|e| e.to_string())
}

/// `ZipWriter::finish`: the bytes depend on the entries alone. It does not fail on
/// an archive of moderate size. Where the size of the bytes fits in 32 bits, reading them
/// gives the entries back, and there is no timestamp field in them to repair, since the
/// directory has no extra fields; with exactly 65535 entries, the number that also marks
/// a larger format, nothing is said of it.
#[verifier::external_body]
fn finish(w: PackageWriter) -> (r: Result<Vec<u8>, String>)
    ensures
        match r {
            Ok(b) => {
                &&& b@ == zip_bytes(writer_entries(w))
                &&& distinct_entries(writer_entries(w)) && writer_entries(w).len() != 65535
                    && b@.len() < 0xffff_ffff ==> zip_open(b@) == Ok::<ZipDirectory, Seq<char>>(
                    directory_of(writer_entries(w)),
                ) && sanitized(b@) == b@
            },
            Err(_) => !moderate(writer_entries(w)),
        },
{
    w.writer.finish().map(|c| c.into_inner()).map_err(|e| e.to_string())
}

/// What is to be written: the entries up to the first part that cannot be read, and
/// the text of that error.
#[verifier::ext_equal]
pub struct Plan {
    pub entries: Seq<ZipEntry>,
    pub error: Option<Seq<char>>,
}

/// The entries for the names of the archive: directories stay directories, and of
/// each file the new version is taken, if there is one.
pub open spec fn kept_entries(dir: ZipDirectory, names: Seq<Seq<char>>, parts: Seq<Part>) -> Plan
    decreases names.len(),
{
    if names.len() == 0 {
        Plan { entries: Seq::empty(), error: None }
    } else {
        let before = kept_entries(dir, names.drop_last(), parts);
        let name = names.last();
        if before.error is Some {
            before
        } else if name.len() > 0 && name.last() == '/' {
            Plan {
                entries: before.entries.push(directory_entry(name)),
                error: None,
            }
        } else {
            match find_part(parts, name) {
                Some(data) => Plan {
                    entries: before.entries.push(file_entry(name, data)),
                    error: None,
                },
                None => match entry_of(dir, name) {
                    Ok(data) => Plan {
                        entries: before.entries.push(file_entry(name, data)),
                        error: None,
                    },
                    Err(m) => Plan { entries: before.entries, error: Some(m) },
                },
            }
        }
    }
}

/// The entries for the parts that the archive does not have.
pub open spec fn added_entries(names: Seq<Seq<char>>, parts: Seq<Part>) -> Seq<ZipEntry>
    decreases parts.len(),
{
    if parts.len() == 0 {
        Seq::empty()
    } else {
        let before = added_entries(names, parts.drop_last());
        let p = parts.last();
        if names.contains(p.name) {
            before
        } else {
            before.push(file_entry(p.name, p.data))
        }
    }
}

/// The new package: what the archive had, with new versions where there are some,
/// and after it the parts that are new.
pub open spec fn package_plan(dir: ZipDirectory, names: Seq<Seq<char>>, parts: Seq<Part>) -> Plan {
    let kept = kept_entries(dir, names, parts);
    if kept.error is Some {
        kept
    } else {
        Plan { entries: kept.entries + added_entries(names, parts), error: None }
    }
}

/// Whether the names of all entries fit in their length fields.
pub open spec fn short_names(entries: Seq<ZipEntry>) -> bool {
    forall|i: int| 0 <= i < entries.len() ==> short_name((#[trigger] entries[i]).name)
}

/// Whether `r` is what writing the planned entries gives: the archive, if every part
/// could be read and no name occurs twice, or the error of the part that could not
/// be read. Beyond a moderate size the writer may refuse the archive.
pub open spec fn writes(plan: Plan, r: Result<Vec<u8>, String>) -> bool {
    match r {
        Ok(b) => {
            &&& plan.error is None
            &&& distinct_entries(plan.entries)
            &&& b@ == zip_bytes(plan.entries)
            &&& plan.entries.len() != 65535 && b@.len() < 0xffff_ffff ==> zip_open(b@) == Ok::<
                ZipDirectory,
                Seq<char>,
            >(directory_of(plan.entries)) && sanitized(b@) == b@
        },
        Err(m) => plan.error == Some(m@) || !distinct_entries(plan.entries) || !moderate(
            plan.entries,
        ),
    }
}

proof fn lemma_weight_concat(a: Seq<ZipEntry>, b: Seq<ZipEntry>)
    ensures
        weight(a + b) == weight(a) + weight(b),
    decreases b.len(),
{
    if b.len() == 0 {
        assert(a + b =~= a);
    } else {
        lemma_weight_concat(a, b.drop_last());
        assert((a + b).drop_last() == a + b.drop_last());
        assert((a + b).last() == b.last());
    }
}

/// A start of the entries weighs no more than all of them, and each of its names is
/// one of theirs.
proof fn lemma_start_of(part: Seq<ZipEntry>, all: Seq<ZipEntry>)
    requires
        part.len() <= all.len(),
        all.take(part.len() as int) == part,
    ensures
        weight(part) <= weight(all),
        distinct_entries(all) ==> distinct_entries(part),
        forall|i: int| 0 <= i < part.len() ==> (#[trigger] part[i]) == all[i],
{
    let rest = all.skip(part.len() as int);
    lemma_weight_concat(part, rest);
    assert(part + rest =~= all);
    assert forall|i: int| 0 <= i < part.len() implies (#[trigger] part[i]) == all[i] by {
        assert(all.take(part.len() as int)[i] == all[i]);
    }
}

/// What is planned for the first names is the start of what is planned for all.
proof fn lemma_kept_start(dir: ZipDirectory, names: Seq<Seq<char>>, parts: Seq<Part>, i: int)
    requires
        0 <= i <= names.len(),
    ensures
        ({
            let part = kept_entries(dir, names.take(i), parts);
            let all = kept_entries(dir, names, parts);
            &&& part.entries.len() <= all.entries.len()
            &&& all.entries.take(part.entries.len() as int) == part.entries
            &&& part.error is Some ==> all == part
        }),
    decreases names.len(),
{
    if i == names.len() {
        assert(names.take(i) == names);
        let all = kept_entries(dir, names, parts);
        assert(all.entries.take(all.entries.len() as int) == all.entries);
    } else {
        lemma_kept_start(dir, names.drop_last(), parts, i);
        assert(names.drop_last().take(i) == names.take(i));
        let part = kept_entries(dir, names.take(i), parts);
        let before = kept_entries(dir, names.drop_last(), parts);
        let all = kept_entries(dir, names, parts);
        assert(all.entries.take(part.entries.len() as int) =~= before.entries.take(
            part.entries.len() as int,
        ));
    }
}

/// What is added for the first parts is the start of what is added for all.
proof fn lemma_added_start(names: Seq<Seq<char>>, parts: Seq<Part>, i: int)
    requires
        0 <= i <= parts.len(),
    ensures
        ({
            let part = added_entries(names, parts.take(i));
            let all = added_entries(names, parts);
            part.len() <= all.len() && all.take(part.len() as int) == part
        }),
    decreases parts.len(),
{
    if i == parts.len() {
        assert(parts.take(i) == parts);
        let all = added_entries(names, parts);
        assert(all.take(all.len() as int) == all);
    } else {
        lemma_added_start(names, parts.drop_last(), i);
        assert(parts.drop_last().take(i) == parts.take(i));
        let part = added_entries(names, parts.take(i));
        let before = added_entries(names, parts.drop_last());
        let all = added_entries(names, parts);
        assert(all.take(part.len() as int) =~= before.take(part.len() as int));
    }
}

/// After an entry that the writer refused, the whole plan is at fault.
proof fn lemma_refused(before: Seq<ZipEntry>, entry: ZipEntry, tried: ZipEntry, all: Seq<ZipEntry>)
    requires
        before.len() < all.len(),
        all.take(before.len() as int + 1) == before.push(entry),
        tried.name == entry.name,
        tried.data.len() <= entry.data.len(),
        has_entry(before, entry.name) || !moderate(before.push(tried)),
    ensures
        !distinct_entries(all) || !moderate(all),
{
    lemma_start_of(before.push(entry), all);
    assert(before.push(entry).drop_last() == before);
    assert(before.push(tried).drop_last() == before);
    assert(weight(before.push(tried)) <= weight(before.push(entry)));
    if has_entry(before, entry.name) {
        let i = choose|i: int| 0 <= i < before.len() && (#[trigger] before[i]).name == entry.name;
        assert(before.push(entry)[i] == before[i]);
        assert(all[i].name == entry.name);
        assert(before.push(entry)[before.len() as int] == entry);
        assert(all[before.len() as int].name == entry.name);
    }
}

/// Starts a file and gives it its bytes.
fn write_file(w: &mut PackageWriter, name: &str, data: &[u8]) -> (r: Result<(), String>)
    requires
        short_name(name@),
    ensures
        ({
            let before = writer_entries(*old(w));
            let after = before.push(file_entry(name@, data@));
            match r {
                Ok(_) => writer_entries(*final(w)) == after && !has_entry(before, name@),
                Err(_) => has_entry(before, name@) || !moderate(after),
            }
        }),
{
    let ghost before = writer_entries(*w);
    let ghost tried = file_entry(name@, Seq::empty());
    let ghost entry = file_entry(name@, data@);
    proof {
        assert(before.push(tried).drop_last() == before);
        assert(before.push(entry).drop_last() == before);
    }
    match start_file(w, name, Compression::Deflated) {
        Ok(_) => {},
        Err(m) => {
            return Err(m);
        },
    }
    write_data(w, data)
}

/// Writes the new package, as [`writes`] says.
pub fn write_pptx(
    archive: &mut ZipArchive<Cursor<Vec<u8>>>,
    all_names: &Vec<String>,
    overrides: &PartSet,
) -> (r: Result<Vec<u8>, String>)
    requires
        short_names(
            package_plan(
                archive_directory(*old(archive)),
                strings(all_names@),
                overrides@,
            ).entries,
        ),
    ensures
        archive_directory(*final(archive)) == archive_directory(*old(archive)),
        writes(
            package_plan(archive_directory(*old(archive)), strings(all_names@), overrides@),
            r,
        ),
{
    let ghost dir = archive_directory(*archive);
    let ghost names = strings(all_names@);
    let ghost kept = kept_entries(dir, names, overrides@);
    let ghost plan = package_plan(dir, names, overrides@);
    assert(plan.entries.take(kept.entries.len() as int) =~= kept.entries);
    let mut w = new_writer();
    let mut i: usize = 0;
    while i < all_names.len()
        invariant
            i <= all_names@.len(),
            names == strings(all_names@),
            archive_directory(*archive) == dir,
            archive_directory(*old(archive)) == dir,
            kept == kept_entries(dir, names, overrides@),
            plan == package_plan(dir, names, overrides@),
            plan.entries.len() >= kept.entries.len(),
            plan.entries.take(kept.entries.len() as int) == kept.entries,
            short_names(plan.entries),
            kept_entries(dir, names.take(i as int), overrides@) == (Plan {
                entries: writer_entries(w),
                error: None,
            }),
            distinct_entries(writer_entries(w)),
        decreases all_names@.len() - i,
    {
        let name = all_names[i].as_str();
        let ghost before = writer_entries(w);
        proof {
            assert(names.take(i + 1).drop_last() == names.take(i as int));
            assert(names.take(i + 1).last() == name@);
            lemma_kept_start(dir, names, overrides@, i + 1);
        }
        let ghost next = kept_entries(dir, names.take(i + 1), overrides@);
        assert(plan.entries.take(next.entries.len() as int) =~= next.entries) by {
            assert(plan.entries.take(next.entries.len() as int) =~= kept.entries.take(
                next.entries.len() as int,
            ));
        }
        proof {
            lemma_start_of(next.entries, plan.entries);
        }
        if crate::text::ends_with(
            crate::text::chars_of(name).as_slice(),
            crate::text::chars_of("/").as_slice(),
        ) {
            proof {
                lemma_ends_in_slash(name@);
            }
            let ghost entry = directory_entry(name@);
            assert(next.entries == before.push(entry));
            assert(next.entries[before.len() as int] == entry);
            match add_directory(&mut w, name) {
                Ok(_) => {},
                Err(m) => {
                    proof {
                        lemma_refused(before, entry, entry, plan.entries);
                    }
                    return Err(m);
                },
            }
        } else {
            proof {
                lemma_ends_in_slash(name@);
            }
            let data = match overrides.get(name) {
                Some(b) => b,
                None => match read_part(archive, name) {
                    Ok(b) => b,
                    Err(m) => {
                        assert(next.error == Some(m@));
                        return Err(m);
                    },
                },
            };
            let ghost entry = file_entry(name@, data@);
            assert(next.entries == before.push(entry));
            assert(next.entries[before.len() as int] == entry);
            match write_file(&mut w, name, data.as_slice()) {
                Ok(_) => {},
                Err(m) => {
                    proof {
                        lemma_refused(before, entry, entry, plan.entries);
                    }
                    return Err(m);
                },
            }
        }
        i = i + 1;
    }
    assert(names.take(i as int) == names);
    let ghost added = added_entries(names, overrides@);
    assert(plan.entries == kept.entries + added);
    let mut j: usize = 0;
    assert(overrides@.take(0) =~= Seq::<Part>::empty());
    assert(kept.entries + Seq::<ZipEntry>::empty() =~= kept.entries);
    while j < overrides.len()
        invariant
            j <= overrides@.len(),
            names == strings(all_names@),
            archive_directory(*archive) == dir,
            archive_directory(*old(archive)) == dir,
            plan == package_plan(dir, names, overrides@),
            added == added_entries(names, overrides@),
            plan.entries == kept.entries + added,
            plan.error is None,
            short_names(plan.entries),
            writer_entries(w) == kept.entries + added_entries(names, overrides@.take(j as int)),
            distinct_entries(writer_entries(w)),
        decreases overrides@.len() - j,
    {
        let name = overrides.name_at(j);
        let ghost before = writer_entries(w);
        let ghost so_far = added_entries(names, overrides@.take(j as int));
        let ghost next = added_entries(names, overrides@.take(j + 1));
        proof {
            assert(overrides@.take(j + 1).drop_last() == overrides@.take(j as int));
            assert(overrides@.take(j + 1).last() == overrides@[j as int]);
            lemma_added_start(names, overrides@, j + 1);
        }
        if !contains_name(all_names, name) {
            let data = overrides.data_at(j);
            let ghost entry = file_entry(name@, data@);
            assert(next == so_far.push(entry));
            assert(plan.entries.take(before.len() as int + 1) =~= before.push(entry)) by {
                assert(added.take(next.len() as int) == next);
                assert(plan.entries.take(before.len() as int + 1) =~= kept.entries + added.take(
                    next.len() as int,
                ));
            }
            assert(plan.entries[before.len() as int] == entry) by {
                assert(plan.entries.take(before.len() as int + 1)[before.len() as int] == entry);
            }
            match write_file(&mut w, name, data) {
                Ok(_) => {},
                Err(m) => {
                    proof {
                        lemma_refused(before, entry, entry, plan.entries);
                    }
                    return Err(m);
                },
            }
            assert(writer_entries(w) =~= kept.entries + next);
        }
        j = j + 1;
    }
    assert(overrides@.take(j as int) == overrides@);
    assert(writer_entries(w) == plan.entries);
    finish(w)
}

fn is_short(name: &str) -> (r: bool)
    ensures
        r == short_name(name@),
{
    name.as_bytes().len() <= 65535
}

/// Whether the new package can be written: every name fits in its length field.
pub fn package_fits(
    archive: &mut ZipArchive<Cursor<Vec<u8>>>,
    all_names: &Vec<String>,
    overrides: &PartSet,
) -> (r: bool)
    ensures
        archive_directory(*final(archive)) == archive_directory(*old(archive)),
        r == short_names(
            package_plan(
                archive_directory(*old(archive)),
                strings(all_names@),
                overrides@,
            ).entries,
        ),
{
    let ghost dir = archive_directory(*archive);
    let ghost names = strings(all_names@);
    let ghost kept = kept_entries(dir, names, overrides@);
    let ghost plan = package_plan(dir, names, overrides@);
    assert(plan.entries.take(kept.entries.len() as int) =~= kept.entries);
    let mut i: usize = 0;
    while i < all_names.len()
        invariant
            i <= all_names@.len(),
            names == strings(all_names@),
            archive_directory(*archive) == dir,
            archive_directory(*old(archive)) == dir,
            kept == kept_entries(dir, names, overrides@),
            plan == package_plan(dir, names, overrides@),
            plan.entries.len() >= kept.entries.len(),
            plan.entries.take(kept.entries.len() as int) == kept.entries,
            kept_entries(dir, names.take(i as int), overrides@).error is None,
            short_names(kept_entries(dir, names.take(i as int), overrides@).entries),
        decreases all_names@.len() - i,
    {
        let name = all_names[i].as_str();
        let ghost before = kept_entries(dir, names.take(i as int), overrides@).entries;
        let ghost next = kept_entries(dir, names.take(i + 1), overrides@);
        proof {
            assert(names.take(i + 1).drop_last() == names.take(i as int));
            assert(names.take(i + 1).last() == name@);
            lemma_kept_start(dir, names, overrides@, i + 1);
            lemma_ends_in_slash(name@);
            assert(plan.entries.take(next.entries.len() as int) =~= kept.entries.take(
                next.entries.len() as int,
            ));
            lemma_start_of(next.entries, plan.entries);
        }
        if !crate::text::ends_with(
            crate::text::chars_of(name).as_slice(),
            crate::text::chars_of("/").as_slice(),
        ) && !overrides.contains(name) {
            proof {
                crate::parts::law_part_is_found(overrides@, name@);
            }
            if read_part(archive, name).is_err() {
                assert(next.error is Some);
                assert(plan.entries == before);
                return true;
            }
        }
        proof {
            crate::parts::law_part_is_found(overrides@, name@);
        }
        assert(next.error is None);
        assert(next.entries.len() == before.len() + 1);
        assert(next.entries[before.len() as int].name == name@);
        if !is_short(name) {
            assert(!short_name(plan.entries[before.len() as int].name));
            return false;
        }
        assert(short_names(next.entries)) by {
            assert forall|k: int| 0 <= k < next.entries.len() implies short_name(
                (#[trigger] next.entries[k]).name,
            ) by {
                if k < before.len() {
                    assert(next.entries[k] == before[k]);
                } else {
                    assert(k == before.len());
                }
            }
        }
        i = i + 1;
    }
    assert(names.take(i as int) == names);
    let ghost added = added_entries(names, overrides@);
    assert(plan.entries == kept.entries + added);
    let mut j: usize = 0;
    assert(overrides@.take(0) =~= Seq::<Part>::empty());
    while j < overrides.len()
        invariant
            j <= overrides@.len(),
            names == strings(all_names@),
            archive_directory(*archive) == dir,
            archive_directory(*old(archive)) == dir,
            plan == package_plan(dir, names, overrides@),
            added == added_entries(names, overrides@),
            plan.entries == kept.entries + added,
            short_names(kept.entries),
            short_names(added_entries(names, overrides@.take(j as int))),
        decreases overrides@.len() - j,
    {
        let name = overrides.name_at(j);
        let ghost so_far = added_entries(names, overrides@.take(j as int));
        let ghost next = added_entries(names, overrides@.take(j + 1));
        proof {
            assert(overrides@.take(j + 1).drop_last() == overrides@.take(j as int));
            assert(overrides@.take(j + 1).last() == overrides@[j as int]);
            lemma_added_start(names, overrides@, j + 1);
        }
        if !contains_name(all_names, name) {
            assert(next.len() == so_far.len() + 1);
            assert(next[so_far.len() as int].name == name@);
            if !is_short(name) {
                assert(added.take(next.len() as int)[so_far.len() as int] == next[so_far.len() as int]);
                assert(plan.entries[kept.entries.len() as int + so_far.len()].name == name@);
                return false;
            }
            assert forall|k: int| 0 <= k < next.len() implies short_name((#[trigger] next[k]).name) by {
                if k < so_far.len() {
                    assert(next[k] == so_far[k]);
                } else {
                    assert(k == so_far.len());
                }
            }
        }
        j = j + 1;
    }
    assert(overrides@.take(j as int) == overrides@);
    assert forall|k: int| 0 <= k < plan.entries.len() implies short_name(
        (#[trigger] plan.entries[k]).name,
    ) by {
        if k < kept.entries.len() {
            assert(plan.entries[k] == kept.entries[k]);
        } else {
            assert(plan.entries[k] == added[k - kept.entries.len()]);
        }
    }
    true
}

proof fn lemma_ends_in_slash(s: Seq<char>)
    ensures
        crate::text::has_suffix(s, "/"@) == (s.len() > 0 && s.last() == '/'),
{
    reveal_strlit("/");
    if s.len() > 0 {
        assert(s.skip(s.len() - 1)[0] == s.last());
        if s.last() == '/' {
            assert(s.skip(s.len() - 1) =~= "/"@);
        }
    }
}

// ---- what the new package guarantees ----

/// Whether a name is that of a directory.
pub open spec fn directory_name(name: Seq<char>) -> bool {
    name.len() > 0 && name.last() == '/'
}

/// What reading a name of the new package gives: an empty directory entry stays
/// empty, a part with a new version has that, and every other part is what it was.
pub open spec fn expected_entry(
    dir: ZipDirectory,
    names: Seq<Seq<char>>,
    parts: Seq<Part>,
    name: Seq<char>,
) -> Result<Seq<u8>, Seq<char>> {
    if names.contains(name) && directory_name(name) {
        Ok(Seq::empty())
    } else {
        match find_part(parts, name) {
            Some(data) => Ok(data),
            None => if names.contains(name) {
                entry_of(dir, name)
            } else {
                Err(NOT_IN_ARCHIVE@)
            },
        }
    }
}

/// The entry for a name: a directory where the name is that of one, or else a file.
pub open spec fn planned_entry(name: Seq<char>, data: Seq<u8>) -> ZipEntry {
    if directory_name(name) {
        directory_entry(name)
    } else {
        file_entry(name, data)
    }
}

proof fn lemma_kept_entries(dir: ZipDirectory, names: Seq<Seq<char>>, parts: Seq<Part>)
    requires
        kept_entries(dir, names, parts).error is None,
    ensures
        kept_entries(dir, names, parts).entries.len() == names.len(),
        forall|i: int|
            0 <= i < names.len() ==> {
                let e = #[trigger] kept_entries(dir, names, parts).entries[i];
                &&& e.name == names[i]
                &&& e == planned_entry(e.name, e.data)
                &&& directory_name(names[i]) ==> e.data == Seq::<u8>::empty()
                &&& !directory_name(names[i]) ==> match find_part(parts, names[i]) {
                    Some(data) => e.data == data,
                    None => entry_of(dir, names[i]) == Ok::<Seq<u8>, Seq<char>>(e.data),
                }
            },
    decreases names.len(),
{
    if names.len() > 0 {
        let init = names.drop_last();
        lemma_kept_entries(dir, init, parts);
        let before = kept_entries(dir, init, parts).entries;
        let all = kept_entries(dir, names, parts).entries;
        assert(all.len() == before.len() + 1);
        assert forall|i: int| 0 <= i < names.len() implies {
            let e = #[trigger] all[i];
            &&& e.name == names[i]
            &&& e == planned_entry(e.name, e.data)
            &&& directory_name(names[i]) ==> e.data == Seq::<u8>::empty()
            &&& !directory_name(names[i]) ==> match find_part(parts, names[i]) {
                Some(data) => e.data == data,
                None => entry_of(dir, names[i]) == Ok::<Seq<u8>, Seq<char>>(e.data),
            }
        } by {
            if i < before.len() {
                assert(all[i] == before[i]);
                assert(init[i] == names[i]);
            } else {
                assert(names[i] == names.last());
            }
        }
    }
}

proof fn lemma_kept_names(dir: ZipDirectory, names: Seq<Seq<char>>, parts: Seq<Part>)
    ensures
        kept_entries(dir, names, parts).entries.len() <= names.len(),
        forall|i: int|
            0 <= i < kept_entries(dir, names, parts).entries.len() ==> (#[trigger] kept_entries(
                dir,
                names,
                parts,
            ).entries[i]).name == names[i],
    decreases names.len(),
{
    if names.len() > 0 {
        let init = names.drop_last();
        lemma_kept_names(dir, init, parts);
        let before = kept_entries(dir, init, parts);
        let all = kept_entries(dir, names, parts).entries;
        if before.error is None {
            lemma_kept_entries(dir, init, parts);
        }
        assert forall|i: int| 0 <= i < all.len() implies (#[trigger] all[i]).name == names[i] by {
            if i < before.entries.len() {
                assert(all[i] == before.entries[i]);
                assert(init[i] == names[i]);
            }
        }
    }
}

proof fn lemma_added_entries(names: Seq<Seq<char>>, parts: Seq<Part>)
    requires
        distinct_names(parts),
    ensures
        distinct_entries(added_entries(names, parts)),
        forall|i: int|
            0 <= i < added_entries(names, parts).len() ==> {
                let e = #[trigger] added_entries(names, parts)[i];
                !names.contains(e.name) && find_part(parts, e.name) == Some(e.data) && e
                    == file_entry(e.name, e.data)
            },
        forall|k: int|
            0 <= k < parts.len() && !names.contains((#[trigger] parts[k]).name) ==> has_entry(
                added_entries(names, parts),
                parts[k].name,
            ),
    decreases parts.len(),
{
    if parts.len() > 0 {
        let init = parts.drop_last();
        let p = parts.last();
        assert(distinct_names(init)) by {
            assert forall|i: int, j: int| 0 <= i < j < init.len() implies (#[trigger] init[i]).name
                != (#[trigger] init[j]).name by {
                assert(init[i] == parts[i] && init[j] == parts[j]);
            }
        }
        lemma_added_entries(names, init);
        let before = added_entries(names, init);
        let all = added_entries(names, parts);
        assert(!crate::parts::has_part(init, p.name)) by {
            if crate::parts::has_part(init, p.name) {
                let k = choose|k: int| 0 <= k < init.len() && (#[trigger] init[k]).name == p.name;
                assert(parts[k].name == parts[parts.len() - 1].name);
            }
        }
        assert(parts =~= crate::parts::put_part(init, p.name, p.data)) by {
            assert(init.push(Part { name: p.name, data: p.data }) =~= parts);
        }
        assert forall|i: int| 0 <= i < before.len() implies find_part(
            parts,
            (#[trigger] before[i]).name,
        ) == Some(before[i].data) && before[i].name != p.name by {
            crate::parts::law_part_is_found(init, before[i].name);
            crate::parts::law_put_part_is_found(init, p.name, p.data, before[i].name);
        }
        crate::parts::law_put_part_is_found(init, p.name, p.data, p.name);
        assert forall|i: int| 0 <= i < all.len() implies {
            let e = #[trigger] all[i];
            !names.contains(e.name) && find_part(parts, e.name) == Some(e.data) && e
                == file_entry(e.name, e.data)
        } by {
            if i < before.len() {
                assert(all[i] == before[i]);
            }
        }
        assert forall|i: int, j: int| 0 <= i < j < all.len() implies (#[trigger] all[i]).name != (
        #[trigger] all[j]).name by {
            assert(all[i] == before[i]);
            if j < before.len() {
                assert(all[j] == before[j]);
            }
        }
        assert forall|k: int|
            0 <= k < parts.len() && !names.contains((#[trigger] parts[k]).name) implies has_entry(
            all,
            parts[k].name,
        ) by {
            if k < init.len() {
                assert(init[k] == parts[k]);
                let i = choose|i: int|
                    0 <= i < before.len() && (#[trigger] before[i]).name == parts[k].name;
                assert(all[i].name == parts[k].name);
            } else {
                assert(all[before.len() as int].name == parts[k].name);
            }
        }
    }
}

/// In the new package of an archive no name occurs twice.
pub proof fn law_package_names_are_distinct(
    dir: ZipDirectory,
    names: Seq<Seq<char>>,
    parts: Seq<Part>,
)
    requires
        names.no_duplicates(),
        distinct_names(parts),
    ensures
        distinct_entries(package_plan(dir, names, parts).entries),
{
    let kept = kept_entries(dir, names, parts);
    let added = added_entries(names, parts);
    let all = package_plan(dir, names, parts).entries;
    lemma_kept_names(dir, names, parts);
    lemma_added_entries(names, parts);
    assert forall|i: int, j: int| 0 <= i < j < all.len() implies (#[trigger] all[i]).name != (
    #[trigger] all[j]).name by {
        let n = kept.entries.len() as int;
        if j < n {
            assert(all[i] == kept.entries[i] && all[j] == kept.entries[j]);
            assert(names[i] != names[j]);
        } else if i < n {
            assert(all[i] == kept.entries[i] && all[j] == added[j - n]);
            assert(names.contains(names[i]));
        } else {
            assert(all[i] == added[i - n] && all[j] == added[j - n]);
        }
    }
}

proof fn lemma_entry_data(entries: Seq<ZipEntry>, i: int)
    requires
        distinct_entries(entries),
        0 <= i < entries.len(),
    ensures
        entry_data(entries, entries[i].name) == entries[i].data,
    decreases entries.len(),
{
    if i > 0 {
        let rest = entries.drop_first();
        assert(entries[0].name != entries[i].name);
        assert forall|a: int, b: int| 0 <= a < b < rest.len() implies (#[trigger] rest[a]).name != (
        #[trigger] rest[b]).name by {
            assert(rest[a] == entries[a + 1] && rest[b] == entries[b + 1]);
        }
        assert(rest[i - 1] == entries[i]);
        lemma_entry_data(rest, i - 1);
    }
}

/// The new package, when it is read, has the names of the archive in their order and
/// after them the new ones, and every name reads as [`expected_entry`] says.
pub proof fn law_package_reads_back(
    dir: ZipDirectory,
    names: Seq<Seq<char>>,
    parts: Seq<Part>,
    name: Seq<char>,
)
    requires
        names.no_duplicates(),
        distinct_names(parts),
        package_plan(dir, names, parts).error is None,
    ensures
        ({
            let read = directory_of(package_plan(dir, names, parts).entries);
            &&& read.names.len() >= names.len()
            &&& read.names.take(names.len() as int) == names
            &&& entry_of(read, name) == expected_entry(dir, names, parts, name)
        }),
{
    let kept = kept_entries(dir, names, parts).entries;
    let added = added_entries(names, parts);
    let all = package_plan(dir, names, parts).entries;
    let read = directory_of(all);
    lemma_kept_entries(dir, names, parts);
    lemma_added_entries(names, parts);
    law_package_names_are_distinct(dir, names, parts);
    crate::parts::law_part_is_found(parts, name);
    assert(all == kept + added);
    assert(read.names.take(names.len() as int) =~= names) by {
        assert forall|i: int| 0 <= i < names.len() implies read.names[i] == names[i] by {
            assert(all[i] == kept[i]);
        }
    }
    if names.contains(name) {
        let i = choose|i: int| 0 <= i < names.len() && names[i] == name;
        assert(all[i] == kept[i]);
        assert(kept[i].name == name);
        assert(read.names[i] == name);
        lemma_entry_data(all, i);
        assert(has_entry(all, name));
    } else if crate::parts::has_part(parts, name) {
        let k = choose|k: int| 0 <= k < parts.len() && (#[trigger] parts[k]).name == name;
        assert(has_entry(added, name));
        let j = choose|j: int| 0 <= j < added.len() && (#[trigger] added[j]).name == name;
        let i = kept.len() as int + j;
        assert(all[i] == added[j]);
        assert(read.names[i] == name);
        lemma_entry_data(all, i);
        assert(has_entry(all, name));
    } else {
        if read.names.contains(name) {
            let i = choose|i: int| 0 <= i < read.names.len() && read.names[i] == name;
            if i < kept.len() {
                assert(all[i] == kept[i]);
                assert(names[i] == name);
            } else {
                let j = i - kept.len();
                assert(all[i] == added[j]);
                assert(added[j].name == name);
            }
        }
    }
}

/// Where no name of the planned entries occurs twice, none of the archive does.
pub proof fn lemma_names_of_distinct_plan(
    dir: ZipDirectory,
    names: Seq<Seq<char>>,
    parts: Seq<Part>,
)
    requires
        package_plan(dir, names, parts).error is None,
        distinct_entries(package_plan(dir, names, parts).entries),
    ensures
        names.no_duplicates(),
{
    let kept = kept_entries(dir, names, parts).entries;
    let all = package_plan(dir, names, parts).entries;
    lemma_kept_entries(dir, names, parts);
    assert forall|i: int, j: int|
        0 <= i < names.len() && 0 <= j < names.len() && i != j implies names[i] != names[j] by {
        assert(all[i] == kept[i] && all[j] == kept[j]);
        if i < j {
            assert(all[i].name != all[j].name);
        } else {
            assert(all[j].name != all[i].name);
        }
    }
}

/// What is planned for a package of which some parts get the bytes that they have.
pub proof fn lemma_plan_again(
    dir: ZipDirectory,
    names: Seq<Seq<char>>,
    parts: Seq<Part>,
    later: Seq<Part>,
)
    requires
        names.no_duplicates(),
        distinct_names(parts),
        package_plan(dir, names, parts).error is None,
        forall|name: Seq<char>|
            directory_name(name) ==> #[trigger] find_part(parts, name) is None,
        forall|name: Seq<char>| #[trigger]
            find_part(later, name) is Some ==> find_part(later, name) == find_part(parts, name),
    ensures
        ({
            let plan = package_plan(dir, names, parts);
            let read = directory_of(plan.entries);
            package_plan(read, read.names, later) == plan
        }),
{
    let plan = package_plan(dir, names, parts);
    let all = plan.entries;
    let read = directory_of(all);
    law_package_names_are_distinct(dir, names, parts);
    lemma_planned_entries(dir, names, parts);
    lemma_kept_again(all, parts, later, all.len() as int);
    assert(read.names.take(all.len() as int) =~= read.names);
    assert(all.take(all.len() as int) =~= all);
    assert forall|k: int| 0 <= k < later.len() implies read.names.contains(
        (#[trigger] later[k]).name,
    ) by {
        let name = later[k].name;
        assert(crate::parts::has_part(later, name));
        crate::parts::law_part_is_found(later, name);
        law_package_reads_back(dir, names, parts, name);
    }
    lemma_nothing_added(read.names, later);
    assert(all + Seq::<ZipEntry>::empty() =~= all);
}

proof fn lemma_planned_entries(dir: ZipDirectory, names: Seq<Seq<char>>, parts: Seq<Part>)
    requires
        distinct_names(parts),
        package_plan(dir, names, parts).error is None,
        forall|name: Seq<char>|
            directory_name(name) ==> #[trigger] find_part(parts, name) is None,
    ensures
        forall|i: int|
            0 <= i < package_plan(dir, names, parts).entries.len() ==> {
                let e = #[trigger] package_plan(dir, names, parts).entries[i];
                &&& e == planned_entry(e.name, e.data)
                &&& find_part(parts, e.name) is Some && !directory_name(e.name) ==> find_part(
                    parts,
                    e.name,
                ) == Some(e.data)
            },
{
    let kept = kept_entries(dir, names, parts).entries;
    let added = added_entries(names, parts);
    let all = package_plan(dir, names, parts).entries;
    lemma_kept_entries(dir, names, parts);
    lemma_added_entries(names, parts);
    assert forall|i: int| 0 <= i < all.len() implies {
        let e = #[trigger] all[i];
        &&& e == planned_entry(e.name, e.data)
        &&& find_part(parts, e.name) is Some && !directory_name(e.name) ==> find_part(
            parts,
            e.name,
        ) == Some(e.data)
    } by {
        if i < kept.len() {
            assert(all[i] == kept[i]);
        } else {
            assert(all[i] == added[i - kept.len()]);
            assert(find_part(parts, all[i].name) is Some);
        }
    }
}

proof fn lemma_kept_again(all: Seq<ZipEntry>, parts: Seq<Part>, later: Seq<Part>, n: int)
    requires
        0 <= n <= all.len(),
        distinct_entries(all),
        forall|i: int|
            0 <= i < all.len() ==> {
                let e = #[trigger] all[i];
                &&& e == planned_entry(e.name, e.data)
                &&& find_part(parts, e.name) is Some && !directory_name(e.name) ==> find_part(
                    parts,
                    e.name,
                ) == Some(e.data)
            },
        forall|name: Seq<char>| #[trigger]
            find_part(later, name) is Some ==> find_part(later, name) == find_part(parts, name),
    ensures
        kept_entries(directory_of(all), directory_of(all).names.take(n), later) == (Plan {
            entries: all.take(n),
            error: None,
        }),
    decreases n,
{
    let read = directory_of(all);
    if n == 0 {
        assert(read.names.take(0) =~= Seq::<Seq<char>>::empty());
        assert(all.take(0) =~= Seq::<ZipEntry>::empty());
    } else {
        let i = n - 1;
        let e = all[i];
        lemma_kept_again(all, parts, later, i);
        assert(read.names.take(n).drop_last() =~= read.names.take(i));
        assert(read.names.take(n).last() == e.name);
        assert(all.take(n) =~= all.take(i).push(e));
        lemma_entry_data(all, i);
        assert(read.names[i] == e.name);
        assert(read.names.contains(e.name));
        assert(has_entry(all, e.name));
        assert(entry_of(read, e.name) == Ok::<Seq<u8>, Seq<char>>(e.data));
    }
}

proof fn lemma_nothing_added(names: Seq<Seq<char>>, parts: Seq<Part>)
    requires
        forall|k: int| 0 <= k < parts.len() ==> names.contains((#[trigger] parts[k]).name),
    ensures
        added_entries(names, parts) == Seq::<ZipEntry>::empty(),
    decreases parts.len(),
{
    if parts.len() > 0 {
        assert forall|k: int| 0 <= k < parts.drop_last().len() implies names.contains(
            (#[trigger] parts.drop_last()[k]).name,
        ) by {
            assert(parts.drop_last()[k] == parts[k]);
        }
        lemma_nothing_added(names, parts.drop_last());
        assert(names.contains(parts[parts.len() - 1].name));
    }
}

/// Whether an entry of the archive goes into the new package: it is a directory, has a new
/// version, or can be read.
pub open spec fn goes_in(dir: ZipDirectory, parts: Seq<Part>, name: Seq<char>) -> bool {
    directory_name(name) || find_part(parts, name) is Some || entry_of(dir, name) is Ok
}

proof fn lemma_plan_error(dir: ZipDirectory, names: Seq<Seq<char>>, parts: Seq<Part>, i: int)
    requires
        0 <= i <= names.len(),
        forall|k: int| 0 <= k < i ==> goes_in(dir, parts, #[trigger] names[k]),
        i < names.len() ==> !goes_in(dir, parts, names[i]),
    ensures
        i < names.len() ==> kept_entries(dir, names, parts).error == Some(
            entry_of(dir, names[i])->Err_0,
        ),
        i == names.len() ==> kept_entries(dir, names, parts).error is None,
    decreases names.len(),
{
    if names.len() > 0 {
        let init = names.drop_last();
        assert(names[names.len() - 1] == names.last());
        if i == names.len() {
            assert forall|k: int| 0 <= k < i - 1 implies goes_in(dir, parts, #[trigger] init[k]) by {
                assert(init[k] == names[k]);
            }
            lemma_plan_error(dir, init, parts, i - 1);
        } else {
            assert forall|k: int| 0 <= k < i implies goes_in(dir, parts, #[trigger] init[k]) by {
                assert(init[k] == names[k]);
            }
            if i < init.len() {
                assert(init[i] == names[i]);
            }
            lemma_plan_error(dir, init, parts, i);
        }
    }
}

/// The new package is refused with the error of the first entry that is no directory, has no
/// new version and cannot be read, and only where there is such an entry.
pub proof fn law_first_unreadable_entry_stops_the_package(
    dir: ZipDirectory,
    names: Seq<Seq<char>>,
    parts: Seq<Part>,
    i: int,
)
    requires
        0 <= i < names.len(),
    ensures
        (forall|k: int| 0 <= k < i ==> goes_in(dir, parts, #[trigger] names[k])) && !goes_in(
            dir,
            parts,
            names[i],
        ) ==> package_plan(dir, names, parts).error == Some(entry_of(dir, names[i])->Err_0),
        (forall|k: int| 0 <= k < names.len() ==> goes_in(dir, parts, #[trigger] names[k]))
            ==> package_plan(dir, names, parts).error is None,
{
    if (forall|k: int| 0 <= k < i ==> goes_in(dir, parts, #[trigger] names[k])) && !goes_in(
        dir,
        parts,
        names[i],
    ) {
        lemma_plan_error(dir, names, parts, i);
    }
    if forall|k: int| 0 <= k < names.len() ==> goes_in(dir, parts, #[trigger] names[k]) {
        lemma_plan_error(dir, names, parts, names.len() as int);
    }
}

/// In the new package just the entries of the archive whose names end in a slash are
/// directories, and every file is deflated.
pub proof fn law_files_are_deflated(
    dir: ZipDirectory,
    names: Seq<Seq<char>>,
    parts: Seq<Part>,
    i: int,
)
    requires
        package_plan(dir, names, parts).error is None,
        0 <= i < package_plan(dir, names, parts).entries.len(),
    ensures
        ({
            let e = package_plan(dir, names, parts).entries[i];
            &&& i < names.len() ==> e.name == names[i] && (e.directory <==> e.name.len() > 0
                && e.name[e.name.len() - 1] == '/')
            &&& i >= names.len() ==> !e.directory && !names.contains(e.name)
            &&& !e.directory ==> e.method == Compression::Deflated
            &&& e.directory ==> e.data.len() == 0
        }),
{
    lemma_kept_entries(dir, names, parts);
    lemma_added_are_files(names, parts);
    let kept = kept_entries(dir, names, parts).entries;
    let added = added_entries(names, parts);
    let e = package_plan(dir, names, parts).entries[i];
    if i < names.len() {
        assert(e == kept[i]);
    } else {
        assert(e == added[i - kept.len()]);
    }
}

proof fn lemma_added_are_files(names: Seq<Seq<char>>, parts: Seq<Part>)
    ensures
        forall|i: int|
            0 <= i < added_entries(names, parts).len() ==> {
                let e = #[trigger] added_entries(names, parts)[i];
                !e.directory && e.method == Compression::Deflated && !names.contains(e.name)
            },
    decreases parts.len(),
{
    if parts.len() > 0 {
        lemma_added_are_files(names, parts.drop_last());
        let before = added_entries(names, parts.drop_last());
        let all = added_entries(names, parts);
        assert forall|i: int| 0 <= i < all.len() implies {
            let e = #[trigger] all[i];
            !e.directory && e.method == Compression::Deflated && !names.contains(e.name)
        } by {
            if i < before.len() {
                assert(all[i] == before[i]);
            }
        }
    }
}

/// A new version of a part stands for it; without one the archive's entry does.
pub proof fn law_new_version_stands_for_the_part(
    dir: ZipDirectory,
    parts: Seq<Part>,
    name: Seq<char>,
    data: Seq<u8>,
)
    ensures
        current(dir, put_part(parts, name, data), name) == Some(data),
        !has_part(parts, name) && dir.names.contains(name) && dir.files[name] == Ok::<
            Seq<u8>,
            Seq<char>,
        >(data) ==> current(dir, parts, name) == Some(data),
        !has_part(parts, name) && !dir.names.contains(name) ==> current(dir, parts, name) is None,
{
    law_put_part_is_found(parts, name, data, name);
    law_part_is_found(parts, name);
}

/// Names fit just as long as each is of at most 65535 bytes.
pub proof fn law_names_fit_in_sixteen_bits(entries: Seq<ZipEntry>)
    ensures
        short_names(entries) <==> forall|i: int|
            0 <= i < entries.len() ==> utf8((#[trigger] entries[i]).name).len() <= 0xffff,
{
}

} // verus!
