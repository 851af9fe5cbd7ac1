//! Puts the text of one page into the notes slide of its slide.

use crate::archive::{archive_directory, current, directory_name, read_current, ZipDirectory};
use crate::master::{done, Change, CONTENT_TYPES, NOTES_MASTER, NO_CONTENT_TYPES, XML_SUFFIX};
use crate::notes::{
    add_content_type_override, build_notes_rels_xml, notes_rels, notes_with_text,
    set_notes_body_text, slide_read, with_notes_type,
};
use crate::numbering::numbered;
use crate::parts::{
    distinct_names, find_part, has_part, law_last_part_wins, law_part_is_found,
    law_put_part_is_found, law_put_part_keeps_names_distinct, law_replaced_part_keeps_names,
    lemma_put_parts_commute, part_names, put_part, Part, PartSet,
};
use crate::presentation::paths;
use crate::rels::{
    build_rels_xml, distinct_ids, empty_rels_xml_bytes, find_type, get_rels_map,
    law_next_rid_is_unused, law_put_rel_keeps_ids_distinct, law_read_ids_are_distinct,
    law_resolved_target_is_no_directory, law_written_type_is_found, next_rid, next_unused_rid,
    nonempty, put_rel, reads_written_rels, rels_of, rels_xml, resolve_rel_target, resolved, walked,
    written_rels, Rel, RelMap, Relationship,
};
use crate::rewrite::{law_last_text_wins, law_new_slide_takes_another_text, rewritable};
use crate::slide::{build_new_notes_slide_xml, notes_slide};
use crate::text::{
    chars_of, contains_name, decimal, decimal_text, decoded, ends_with, has_prefix, has_suffix,
    is_digit, joined, law_decimal_reads_back, lemma_split_at_separator,
    lemma_split_without_separator, number_u32, parse_u32, split, split_at_char, starts_with,
    strings, text_of, texts, utf8, utf8_bytes,
};
use crate::xml::{escaped, lemma_escaped_plain, unescaped_char, xml_items};
use std::collections::HashMap;
use std::io::Cursor;
use vstd::prelude::*;
use vstd::slice::slice_subrange;
use vstd::string::StringExecFns;
use zip::ZipArchive;

verus! {

broadcast use vstd::std_specs::hash::group_hash_axioms;

// ---- numbers of notes slides ----

pub const NOTES_START: &'static str = "ppt/notesSlides/notesSlide";

/// The number in the name of a notes slide.
pub open spec fn note_number(name: Seq<char>) -> Option<u32> {
    if has_prefix(name, NOTES_START@) {
        let rest = name.skip(NOTES_START@.len() as int);
        if has_suffix(rest, XML_SUFFIX@) {
            number_u32(rest.take(rest.len() - XML_SUFFIX@.len()))
        } else {
            None
        }
    } else {
        None
    }
}

/// The largest number of a notes slide among the names; 0 if there is none.
pub open spec fn largest_note(names: Seq<Seq<char>>) -> u32
    decreases names.len(),
{
    if names.len() == 0 {
        0
    } else {
        let before = largest_note(names.drop_last());
        match note_number(names.last()) {
            Some(n) if n > before => n,
            _ => before,
        }
    }
}

/// The largest number of a notes slide in the package.
pub open spec fn largest_in_package(names: Seq<Seq<char>>, parts: Seq<Part>) -> u32 {
    largest_note(names + part_names(parts))
}

fn number_of_note(name: &str) -> (r: Option<u32>)
    ensures
        r == note_number(name@),
{
    let chars = chars_of(name);
    let prefix = chars_of(NOTES_START);
    let suffix = chars_of(XML_SUFFIX);
    if !starts_with(chars.as_slice(), prefix.as_slice()) {
        return None;
    }
    let rest = slice_subrange(chars.as_slice(), prefix.len(), chars.len());
    assert(rest@ == name@.skip(NOTES_START@.len() as int));
    if !ends_with(rest, suffix.as_slice()) {
        return None;
    }
    assert(rest@.subrange(0, rest@.len() - suffix@.len()) == rest@.take(rest@.len() - suffix@.len()));
    parse_u32(slice_subrange(rest, 0, rest.len() - suffix.len()))
}

fn find_largest_note(all_names: &Vec<String>, overrides: &PartSet) -> (r: u32)
    ensures
        r == largest_in_package(strings(all_names@), overrides@),
{
    let ghost names = strings(all_names@);
    let ghost all = names + part_names(overrides@);
    let mut largest: u32 = 0;
    let mut i: usize = 0;
    while i < all_names.len()
        invariant
            i <= all_names@.len(),
            names == strings(all_names@),
            all == names + part_names(overrides@),
            largest == largest_note(all.take(i as int)),
        decreases all_names@.len() - i,
    {
        assert(all.take(i + 1).drop_last() == all.take(i as int));
        assert(all.take(i + 1).last() == all_names@[i as int]@);
        match number_of_note(all_names[i].as_str()) {
            Some(n) => {
                if n > largest {
                    largest = n;
                }
            },
            None => {},
        }
        i = i + 1;
    }
    let mut j: usize = 0;
    while j < overrides.len()
        invariant
            j <= overrides@.len(),
            names == strings(all_names@),
            all == names + part_names(overrides@),
            largest == largest_note(all.take(names.len() + j)),
        decreases overrides@.len() - j,
    {
        assert(all.take(names.len() + j + 1).drop_last() == all.take(names.len() + j));
        assert(all.take(names.len() + j + 1).last() == overrides@[j as int].name);
        match number_of_note(overrides.name_at(j)) {
            Some(n) => {
                if n > largest {
                    largest = n;
                }
            },
            None => {},
        }
        j = j + 1;
    }
    assert(all.take(names.len() + j) == all);
    largest
}

// ---- what applying a note does ----

pub const SLIDE_RELS_START: &'static str = "ppt/slides/_rels/";

pub const RELS_SUFFIX: &'static str = ".rels";

pub const SLIDES_DIR: &'static str = "ppt/slides";

pub const NOTES_TYPE_SUFFIX: &'static str = "/notesSlide";

pub const NOTES_TYPE: &'static str =
    "http://schemas.openxmlformats.org/officeDocument/2006/relationships/notesSlide";

pub const NOTES_RELS_PATH_START: &'static str = "ppt/notesSlides/_rels/notesSlide";

pub const NOTES_RELS_PATH_END: &'static str = ".xml.rels";

pub const NOTES_TARGET_START: &'static str = "../notesSlides/notesSlide";

pub const NOTES_PART_START: &'static str = "/ppt/notesSlides/notesSlide";

pub const SLIDE_WORD: &'static str = "슬라이드 ";

pub const NO_SLIDE_END: &'static str = "번이 존재하지 않음";

pub const NO_NOTES_PART_END: &'static str = " 를 찾을 수 없음";

pub const NO_MASTER_END: &'static str = "번: 이 PPT에 메모 인프라가 없습니다. PowerPoint에서 아무 슬라이드 메모칸에나 한 글자 입력 후 저장하고 다시 시도해주세요.";

/// The file name in a path.
pub open spec fn file_name(path: Seq<char>) -> Seq<char> {
    split(path, '/').last()
}

/// The path of the relationships of a slide.
pub open spec fn slide_rels_path(slide_path: Seq<char>) -> Seq<char> {
    SLIDE_RELS_START@ + file_name(slide_path) + RELS_SUFFIX@
}

/// The relationships of a slide; none where the package has no part for them.
pub open spec fn slide_rels(dir: ZipDirectory, parts: Seq<Part>, slide_path: Seq<char>) -> Seq<Rel> {
    match current(dir, parts, slide_rels_path(slide_path)) {
        Some(b) => rels_of(b),
        None => rels_of(utf8(rels_xml(Seq::empty()))),
    }
}

/// Whether the relationships of a slide are read as they were written, should they have
/// been.
pub open spec fn rels_read_back(dir: ZipDirectory, parts: Seq<Part>, slide_path: Seq<char>) -> bool {
    forall|rels: Seq<Rel>|
        distinct_ids(rels) && current(dir, parts, slide_rels_path(slide_path)) == Some(
            utf8(#[trigger] rels_xml(rels)),
        ) ==> slide_rels(dir, parts, slide_path) == written_rels(rels)
}

/// What giving a page its notes is sure of reading: the relationships of the slide as they
/// were written, should they have been, and its notes slide, should it have one.
pub open spec fn note_reads(
    dir: ZipDirectory,
    slides: Map<u32, Seq<char>>,
    parts: Seq<Part>,
    page: u32,
) -> bool {
    slides.contains_key(page) ==> {
        &&& rels_read_back(dir, parts, slides[page])
        &&& find_type(slide_rels(dir, parts, slides[page]), NOTES_TYPE_SUFFIX@) matches Some(rel)
            ==> (current(dir, parts, resolved(SLIDES_DIR@, rel.target)) matches Some(xml)
            ==> slide_read(xml))
    }
}

/// What giving a page a new notes slide is sure of reading: the content types.
pub open spec fn types_read(
    dir: ZipDirectory,
    names: Seq<Seq<char>>,
    slides: Map<u32, Seq<char>>,
    parts: Seq<Part>,
    page: u32,
) -> bool {
    slides.contains_key(page) && find_type(
        slide_rels(dir, parts, slides[page]),
        NOTES_TYPE_SUFFIX@,
    ) is None && has_master(names, parts) ==> (current(dir, parts, CONTENT_TYPES@) matches Some(
        types,
    ) ==> decoded(types))
}

/// Whether the notes of a page can be replaced again and again: its notes slide, should it
/// have one, can get its text again and again, and is not the part with the relationships
/// of the slide.
pub open spec fn note_rewritable(
    dir: ZipDirectory,
    slides: Map<u32, Seq<char>>,
    parts: Seq<Part>,
    page: u32,
) -> bool {
    find_type(slide_rels(dir, parts, slides[page]), NOTES_TYPE_SUFFIX@) matches Some(rel) ==> {
        &&& resolved(SLIDES_DIR@, rel.target) != slide_rels_path(slides[page])
        &&& current(dir, parts, resolved(SLIDES_DIR@, rel.target)) matches Some(xml)
            ==> rewritable(xml)
    }
}

/// Whether the package has a notes master.
pub open spec fn has_master(names: Seq<Seq<char>>, parts: Seq<Part>) -> bool {
    names.contains(NOTES_MASTER@) || has_part(parts, NOTES_MASTER@)
}

/// What comes of giving the notes slide that a relationship points to a new text.
pub open spec fn existing_changed(
    dir: ZipDirectory,
    parts: Seq<Part>,
    target: Seq<char>,
    text: Seq<char>,
) -> Change {
    let path = resolved(SLIDES_DIR@, target);
    match current(dir, parts, path) {
        None => Change { parts, result: Err(path + NO_NOTES_PART_END@) },
        Some(xml) => match notes_with_text(xml, text) {
            Err(m) => Change { parts, result: Err(m) },
            Ok(b) => Change { parts: put_part(parts, path, b), result: Ok(()) },
        },
    }
}

/// The relationship from a slide to its new notes slide with number `n`.
pub open spec fn new_notes_rel(rels: Seq<Rel>, n: nat) -> Rel {
    Rel {
        id: next_rid(rels),
        ty: NOTES_TYPE@,
        target: numbered(NOTES_TARGET_START@, n, XML_SUFFIX@),
    }
}

/// The parts with a new notes slide with number `n`, its relationships, and those of its
/// slide, which were `rels`.
pub open spec fn with_notes_parts(
    parts: Seq<Part>,
    slide_path: Seq<char>,
    rels: Seq<Rel>,
    text: Seq<char>,
    n: nat,
) -> Seq<Part> {
    put_part(
        put_part(
            put_part(parts, numbered(NOTES_START@, n, XML_SUFFIX@), utf8(notes_slide(text))),
            numbered(NOTES_RELS_PATH_START@, n, NOTES_RELS_PATH_END@),
            utf8(notes_rels(file_name(slide_path))),
        ),
        slide_rels_path(slide_path),
        utf8(rels_xml(put_rel(rels, new_notes_rel(rels, n)))),
    )
}

/// What comes of giving a slide a new notes slide with number `n`.
pub open spec fn new_added(
    dir: ZipDirectory,
    parts: Seq<Part>,
    slide_path: Seq<char>,
    text: Seq<char>,
    n: nat,
) -> Change {
    let added = with_notes_parts(
        parts,
        slide_path,
        slide_rels(dir, parts, slide_path),
        text,
        n,
    );
    match current(dir, added, CONTENT_TYPES@) {
        None => Change { parts: added, result: Err(NO_CONTENT_TYPES@) },
        Some(types) => Change {
            parts: put_part(
                added,
                CONTENT_TYPES@,
                with_notes_type(types, numbered(NOTES_PART_START@, n, XML_SUFFIX@)),
            ),
            result: Ok(()),
        },
    }
}

/// What comes of giving a page its notes: the notes slide of the page's slide gets
/// the text, and where there is none a new one is made.
pub open spec fn note_applied(
    dir: ZipDirectory,
    names: Seq<Seq<char>>,
    slides: Map<u32, Seq<char>>,
    parts: Seq<Part>,
    page: u32,
    text: Seq<char>,
) -> Change {
    if !slides.contains_key(page) {
        Change { parts, result: Err(SLIDE_WORD@ + decimal(page as nat) + NO_SLIDE_END@) }
    } else {
        let slide_path = slides[page];
        match find_type(slide_rels(dir, parts, slide_path), NOTES_TYPE_SUFFIX@) {
            Some(rel) => existing_changed(dir, parts, rel.target, text),
            None => if has_master(names, parts) {
                new_added(
                    dir,
                    parts,
                    slide_path,
                    text,
                    largest_in_package(names, parts) as nat + 1,
                )
            } else {
                Change { parts, result: Err(SLIDE_WORD@ + decimal(page as nat) + NO_MASTER_END@) }
            },
        }
    }
}

/// Whether a page can get its notes: if it needs a new notes slide, there is a number
/// left for it.
pub open spec fn number_left(
    dir: ZipDirectory,
    names: Seq<Seq<char>>,
    slides: Map<u32, Seq<char>>,
    parts: Seq<Part>,
    page: u32,
) -> bool {
    slides.contains_key(page) && find_type(
        slide_rels(dir, parts, slides[page]),
        NOTES_TYPE_SUFFIX@,
    ) is None && has_master(names, parts) ==> largest_in_package(names, parts) < u32::MAX
}

fn name_of_file(path: &str) -> (r: String)
    ensures
        r@ == file_name(path@),
{
    let pieces = split_at_char(chars_of(path).as_slice(), '/');
    let last = &pieces[pieces.len() - 1];
    assert(texts(pieces@).last() == last@);
    text_of(last.as_slice())
}

fn path_of_slide_rels(slide_file_name: &str) -> (r: String)
    ensures
        r@ == SLIDE_RELS_START@ + slide_file_name@ + RELS_SUFFIX@,
{
    let mut s = SLIDE_RELS_START.to_string();
    s.append(slide_file_name);
    s.append(RELS_SUFFIX);
    s
}

fn read_slide_rels(
    archive: &mut ZipArchive<Cursor<Vec<u8>>>,
    overrides: &PartSet,
    slide_path: &str,
) -> (r: RelMap)
    ensures
        archive_directory(*final(archive)) == archive_directory(*old(archive)),
        r@ == slide_rels(archive_directory(*old(archive)), overrides@, slide_path@),
        r.wf(),
        rels_read_back(archive_directory(*old(archive)), overrides@, slide_path@),
{
    let path = path_of_slide_rels(name_of_file(slide_path).as_str());
    let bytes = match read_current(archive, overrides, path.as_str()) {
        Some(b) => b,
        None => empty_rels_xml_bytes(),
    };
    get_rels_map(bytes.as_slice())
}

fn number_text(start: &str, n: u32, end: &str) -> (r: String)
    ensures
        r@ == numbered(start@, n as nat, end@),
{
    let mut s = start.to_string();
    s.append(decimal_text(n as u128).as_str());
    s.append(end);
    s
}

fn master_present(all_names: &Vec<String>, overrides: &PartSet) -> (r: bool)
    ensures
        r == has_master(strings(all_names@), overrides@),
{
    contains_name(all_names, NOTES_MASTER) || overrides.contains(NOTES_MASTER)
}

fn change_existing(
    archive: &mut ZipArchive<Cursor<Vec<u8>>>,
    overrides: &mut PartSet,
    target: &str,
    text: &str,
) -> (r: Result<(), String>)
    requires
        old(overrides).wf(),
    ensures
        archive_directory(*final(archive)) == archive_directory(*old(archive)),
        final(overrides).wf(),
        (Change { parts: final(overrides)@, result: done(r) }) == existing_changed(
            archive_directory(*old(archive)),
            old(overrides)@,
            target@,
            text@,
        ),
        current(
            archive_directory(*old(archive)),
            old(overrides)@,
            resolved(SLIDES_DIR@, target@),
        ) matches Some(xml) ==> slide_read(xml),
{
    let path = resolve_rel_target(SLIDES_DIR, target);
    match read_current(archive, overrides, path.as_str()) {
        None => {
            let mut m = path;
            m.append(NO_NOTES_PART_END);
            Err(m)
        },
        Some(xml) => match set_notes_body_text(xml.as_slice(), text) {
            Err(m) => Err(m),
            Ok(b) => {
                overrides.insert(path, b);
                Ok(())
            },
        },
    }
}

fn add_new(
    archive: &mut ZipArchive<Cursor<Vec<u8>>>,
    overrides: &mut PartSet,
    slide_path: &str,
    text: &str,
    n: u32,
) -> (r: Result<(), String>)
    requires
        old(overrides).wf(),
    ensures
        archive_directory(*final(archive)) == archive_directory(*old(archive)),
        final(overrides).wf(),
        (Change { parts: final(overrides)@, result: done(r) }) == new_added(
            archive_directory(*old(archive)),
            old(overrides)@,
            slide_path@,
            text@,
            n as nat,
        ),
        current(archive_directory(*old(archive)), old(overrides)@, CONTENT_TYPES@) matches Some(
            types,
        ) ==> decoded(types),
{
    let ghost dir = archive_directory(*archive);
    let ghost start = overrides@;
    let mut rels = read_slide_rels(archive, overrides, slide_path);
    let slide_file_name = name_of_file(slide_path);
    overrides.insert(
        number_text(NOTES_START, n, XML_SUFFIX),
        utf8_bytes(build_new_notes_slide_xml(text).as_str()),
    );
    overrides.insert(
        number_text(NOTES_RELS_PATH_START, n, NOTES_RELS_PATH_END),
        utf8_bytes(build_notes_rels_xml(slide_file_name.as_str()).as_str()),
    );
    let rid = next_unused_rid(&rels);
    rels.insert(
        Relationship {
            id: rid,
            ty: NOTES_TYPE.to_string(),
            target: number_text(NOTES_TARGET_START, n, XML_SUFFIX),
        },
    );
    overrides.insert(
        path_of_slide_rels(slide_file_name.as_str()),
        utf8_bytes(build_rels_xml(&rels).as_str()),
    );
    proof {
        let before = slide_rels(dir, start, slide_path@);
        lemma_names_differ(slide_path@, n as nat, n as nat);
        lemma_notes_parts(start, slide_path@, before, text@, n as nat, CONTENT_TYPES@);
    }
    match read_current(archive, overrides, CONTENT_TYPES) {
        None => Err(NO_CONTENT_TYPES.to_string()),
        Some(types) => {
            let updated = add_content_type_override(
                types.as_slice(),
                number_text(NOTES_PART_START, n, XML_SUFFIX).as_str(),
            );
            overrides.insert(CONTENT_TYPES.to_string(), updated);
            Ok(())
        },
    }
}

fn page_message(start: &str, page: u32, end: &str) -> (r: String)
    ensures
        r@ == start@ + decimal(page as nat) + end@,
{
    number_text(start, page, end)
}

/// Gives a page its notes, as [`note_applied`] says. Where the page got its notes before,
/// it is as if it had not.
pub fn apply_note(
    archive: &mut ZipArchive<Cursor<Vec<u8>>>,
    all_names: &Vec<String>,
    slide_path_by_page: &HashMap<u32, String>,
    overrides: &mut PartSet,
    page: u32,
    text: &str,
) -> (r: Result<(), String>)
    requires
        old(overrides).wf(),
        number_left(
            archive_directory(*old(archive)),
            strings(all_names@),
            paths(slide_path_by_page@),
            old(overrides)@,
            page,
        ),
    ensures
        archive_directory(*final(archive)) == archive_directory(*old(archive)),
        final(overrides).wf(),
        (Change { parts: final(overrides)@, result: done(r) }) == note_applied(
            archive_directory(*old(archive)),
            strings(all_names@),
            paths(slide_path_by_page@),
            old(overrides)@,
            page,
            text@,
        ),
        note_reads(
            archive_directory(*old(archive)),
            paths(slide_path_by_page@),
            old(overrides)@,
            page,
        ),
        types_read(
            archive_directory(*old(archive)),
            strings(all_names@),
            paths(slide_path_by_page@),
            old(overrides)@,
            page,
        ),
        forall|earlier: Seq<Part>, first: Seq<char>|
            paths(slide_path_by_page@).contains_key(page) && note_rewritable(
                archive_directory(*old(archive)),
                paths(slide_path_by_page@),
                earlier,
                page,
            ) && #[trigger] note_applied(
                archive_directory(*old(archive)),
                strings(all_names@),
                paths(slide_path_by_page@),
                earlier,
                page,
                first,
            ) == (Change { parts: old(overrides)@, result: Ok(()) }) ==> r is Ok && (Change {
                parts: final(overrides)@,
                result: done(r),
            }) == note_applied(
                archive_directory(*old(archive)),
                strings(all_names@),
                paths(slide_path_by_page@),
                earlier,
                page,
                text@,
            ),
{
    let ghost dir = archive_directory(*archive);
    let ghost names = strings(all_names@);
    let ghost slides = paths(slide_path_by_page@);
    let ghost parts = overrides@;
    let r = match slide_path_by_page.get(&page) {
        None => Err(page_message(SLIDE_WORD, page, NO_SLIDE_END)),
        Some(slide_path) => {
            assert(paths(slide_path_by_page@)[page] == slide_path@);
            let rels = read_slide_rels(archive, overrides, slide_path.as_str());
            match rels.target_of_type(NOTES_TYPE_SUFFIX) {
                Some(target) => change_existing(archive, overrides, target.as_str(), text),
                None => {
                    if master_present(all_names, overrides) {
                        let largest: u32 = find_largest_note(all_names, overrides);
                        add_new(archive, overrides, slide_path.as_str(), text, largest + 1)
                    } else {
                        Err(page_message(SLIDE_WORD, page, NO_MASTER_END))
                    }
                },
            }
        },
    };
    proof {
        assert forall|earlier: Seq<Part>, first: Seq<char>|
            slides.contains_key(page) && note_rewritable(dir, slides, earlier, page)
                && #[trigger] note_applied(dir, names, slides, earlier, page, first) == (Change {
                parts,
                result: Ok(()),
            }) implies r is Ok && (Change { parts: overrides@, result: done(r) }) == note_applied(
            dir,
            names,
            slides,
            earlier,
            page,
            text@,
        ) by {
            law_second_note_replaces_the_first(
                dir,
                names,
                slides,
                earlier,
                page,
                first,
                text@,
            );
        }
    }
    r
}

/// Whether a page can get its notes, as [`number_left`] says.
pub fn note_fits(
    archive: &mut ZipArchive<Cursor<Vec<u8>>>,
    all_names: &Vec<String>,
    slide_path_by_page: &HashMap<u32, String>,
    overrides: &PartSet,
    page: u32,
) -> (r: bool)
    ensures
        archive_directory(*final(archive)) == archive_directory(*old(archive)),
        r == number_left(
            archive_directory(*old(archive)),
            strings(all_names@),
            paths(slide_path_by_page@),
            overrides@,
            page,
        ),
{
    match slide_path_by_page.get(&page) {
        None => true,
        Some(slide_path) => {
            assert(paths(slide_path_by_page@)[page] == slide_path@);
            let rels = read_slide_rels(archive, overrides, slide_path.as_str());
            match rels.target_of_type(NOTES_TYPE_SUFFIX) {
                Some(_) => true,
                None => !master_present(all_names, overrides) || find_largest_note(
                    all_names,
                    overrides,
                ) < u32::MAX,
            }
        },
    }
}

// ---- what applying a note guarantees ----

proof fn lemma_number_of_new_note(n: nat)
    requires
        n <= u32::MAX,
    ensures
        note_number(numbered(NOTES_START@, n, XML_SUFFIX@)) == Some(n as u32),
{
    let name = numbered(NOTES_START@, n, XML_SUFFIX@);
    let rest = name.skip(NOTES_START@.len() as int);
    law_decimal_reads_back(n);
    assert(name.take(NOTES_START@.len() as int) == NOTES_START@);
    assert(rest == decimal(n) + XML_SUFFIX@);
    assert(rest.skip(rest.len() - XML_SUFFIX@.len()) == XML_SUFFIX@);
    assert(rest.take(rest.len() - XML_SUFFIX@.len()) == decimal(n));
}

proof fn lemma_largest_note(names: Seq<Seq<char>>, name: Seq<char>)
    requires
        names.contains(name),
    ensures
        note_number(name) matches Some(n) ==> n <= largest_note(names),
    decreases names.len(),
{
    let i = choose|i: int| 0 <= i < names.len() && names[i] == name;
    if i < names.len() - 1 {
        assert(names.drop_last()[i] == name);
        lemma_largest_note(names.drop_last(), name);
    }
}

/// A new notes slide takes no name that the package has.
pub proof fn law_new_notes_slide_is_new(names: Seq<Seq<char>>, parts: Seq<Part>)
    requires
        largest_in_package(names, parts) < u32::MAX,
    ensures
        ({
            let path = numbered(
                NOTES_START@,
                largest_in_package(names, parts) as nat + 1,
                XML_SUFFIX@,
            );
            !names.contains(path) && !has_part(parts, path)
        }),
{
    let n = largest_in_package(names, parts) as nat + 1;
    let path = numbered(NOTES_START@, n, XML_SUFFIX@);
    let all = names + part_names(parts);
    lemma_number_of_new_note(n);
    crate::master::lemma_taken(names, parts, path);
    if all.contains(path) {
        lemma_largest_note(all, path);
    }
}

/// Whether giving a page its notes touches the named part.
pub open spec fn note_touches(
    dir: ZipDirectory,
    names: Seq<Seq<char>>,
    slides: Map<u32, Seq<char>>,
    parts: Seq<Part>,
    page: u32,
    name: Seq<char>,
) -> bool {
    let n = largest_in_package(names, parts) as nat + 1;
    slides.contains_key(page) && match find_type(
        slide_rels(dir, parts, slides[page]),
        NOTES_TYPE_SUFFIX@,
    ) {
        Some(rel) => name == resolved(SLIDES_DIR@, rel.target),
        None => {
            ||| name == numbered(NOTES_START@, n, XML_SUFFIX@)
            ||| name == numbered(NOTES_RELS_PATH_START@, n, NOTES_RELS_PATH_END@)
            ||| name == slide_rels_path(slides[page])
            ||| name == CONTENT_TYPES@
        },
    }
}

/// Giving a page its notes leaves every other part as it was: where the slide has a
/// notes slide, all but that; and where it has none, all but the new notes slide,
/// its relationships, those of the slide, and the content types.
pub proof fn law_note_leaves_other_parts(
    dir: ZipDirectory,
    names: Seq<Seq<char>>,
    slides: Map<u32, Seq<char>>,
    parts: Seq<Part>,
    page: u32,
    text: Seq<char>,
    other: Seq<char>,
)
    requires
        !note_touches(dir, names, slides, parts, page, other),
    ensures
        find_part(note_applied(dir, names, slides, parts, page, text).parts, other) == find_part(
            parts,
            other,
        ),
{
    if slides.contains_key(page) {
        match find_type(slide_rels(dir, parts, slides[page]), NOTES_TYPE_SUFFIX@) {
            Some(rel) => {
                let path = resolved(SLIDES_DIR@, rel.target);
                if let Some(xml) = current(dir, parts, path) {
                    if let Ok(b) = notes_with_text(xml, text) {
                        law_put_part_is_found(parts, path, b, other);
                    }
                }
            },
            None => {
                if has_master(names, parts) {
                    let n = largest_in_package(names, parts) as nat + 1;
                    lemma_new_added(dir, parts, slides[page], text, n, other);
                    lemma_notes_parts(
                        parts,
                        slides[page],
                        slide_rels(dir, parts, slides[page]),
                        text,
                        n,
                        other,
                    );
                }
            },
        }
    }
}

/// Notes slides, their relationships, those of slides, and the content types have different
/// names.
pub proof fn lemma_names_differ(slide_path: Seq<char>, n: nat, m: nat)
    ensures
        numbered(NOTES_START@, n, XML_SUFFIX@) != numbered(
            NOTES_RELS_PATH_START@,
            m,
            NOTES_RELS_PATH_END@,
        ),
        numbered(NOTES_START@, n, XML_SUFFIX@) != slide_rels_path(slide_path),
        numbered(NOTES_RELS_PATH_START@, m, NOTES_RELS_PATH_END@) != slide_rels_path(slide_path),
        numbered(NOTES_START@, n, XML_SUFFIX@) != CONTENT_TYPES@,
        numbered(NOTES_RELS_PATH_START@, m, NOTES_RELS_PATH_END@) != CONTENT_TYPES@,
        slide_rels_path(slide_path) != CONTENT_TYPES@,
{
    let a = numbered(NOTES_START@, n, XML_SUFFIX@);
    let b = numbered(NOTES_RELS_PATH_START@, m, NOTES_RELS_PATH_END@);
    let c = slide_rels_path(slide_path);
    reveal_strlit("ppt/notesSlides/notesSlide");
    reveal_strlit("ppt/notesSlides/_rels/notesSlide");
    reveal_strlit("ppt/slides/_rels/");
    reveal_strlit("[Content_Types].xml");
    assert(a[16] == 'n');
    assert(b[16] == '_');
    assert(a[4] == 'n' && b[4] == 'n');
    assert(c[4] == 's');
    assert(a[0] == 'p' && b[0] == 'p' && c[0] == 'p');
    assert(CONTENT_TYPES@[0] == '[');
}

/// What is found under a name once a notes slide, its relationships and those of its
/// slide are in, and that no name occurs twice on that account.
proof fn lemma_notes_parts(
    parts: Seq<Part>,
    slide_path: Seq<char>,
    rels: Seq<Rel>,
    text: Seq<char>,
    n: nat,
    name: Seq<char>,
)
    ensures
        ({
            let added = with_notes_parts(parts, slide_path, rels, text, n);
            &&& find_part(added, name) == if name == slide_rels_path(slide_path) {
                Some(utf8(rels_xml(put_rel(rels, new_notes_rel(rels, n)))))
            } else if name == numbered(NOTES_RELS_PATH_START@, n, NOTES_RELS_PATH_END@) {
                Some(utf8(notes_rels(file_name(slide_path))))
            } else if name == numbered(NOTES_START@, n, XML_SUFFIX@) {
                Some(utf8(notes_slide(text)))
            } else {
                find_part(parts, name)
            }
            &&& distinct_names(parts) ==> distinct_names(added)
        }),
{
    let path = numbered(NOTES_START@, n, XML_SUFFIX@);
    let rels_path = numbered(NOTES_RELS_PATH_START@, n, NOTES_RELS_PATH_END@);
    let slide = utf8(notes_slide(text));
    let rels_data = utf8(notes_rels(file_name(slide_path)));
    let new_rels = utf8(rels_xml(put_rel(rels, new_notes_rel(rels, n))));
    let p1 = put_part(parts, path, slide);
    let p2 = put_part(p1, rels_path, rels_data);
    law_put_part_is_found(parts, path, slide, name);
    law_put_part_is_found(p1, rels_path, rels_data, name);
    law_put_part_is_found(p2, slide_rels_path(slide_path), new_rels, name);
    if distinct_names(parts) {
        law_put_part_keeps_names_distinct(parts, path, slide);
        law_put_part_keeps_names_distinct(p1, rels_path, rels_data);
        law_put_part_keeps_names_distinct(p2, slide_rels_path(slide_path), new_rels);
    }
}

/// What is found under a name once a slide got a new notes slide.
proof fn lemma_new_added(
    dir: ZipDirectory,
    parts: Seq<Part>,
    slide_path: Seq<char>,
    text: Seq<char>,
    n: nat,
    name: Seq<char>,
)
    ensures
        ({
            let change = new_added(dir, parts, slide_path, text, n);
            let added = with_notes_parts(
                parts,
                slide_path,
                slide_rels(dir, parts, slide_path),
                text,
                n,
            );
            &&& name != CONTENT_TYPES@ ==> find_part(change.parts, name) == find_part(added, name)
            &&& change.result is Ok <==> current(dir, parts, CONTENT_TYPES@) is Some
            &&& distinct_names(parts) ==> distinct_names(change.parts)
        }),
{
    let rels = slide_rels(dir, parts, slide_path);
    let added = with_notes_parts(parts, slide_path, rels, text, n);
    lemma_names_differ(slide_path, n, n);
    lemma_notes_parts(parts, slide_path, rels, text, n, CONTENT_TYPES@);
    if let Some(types) = current(dir, added, CONTENT_TYPES@) {
        let new_types = with_notes_type(types, numbered(NOTES_PART_START@, n, XML_SUFFIX@));
        law_put_part_is_found(added, CONTENT_TYPES@, new_types, name);
        if distinct_names(added) {
            law_put_part_keeps_names_distinct(added, CONTENT_TYPES@, new_types);
        }
    }
}

/// In a package whose content types can be read, a page whose notes could not be
/// put in leaves every part as it was.
pub proof fn law_failed_note_changes_nothing(
    dir: ZipDirectory,
    names: Seq<Seq<char>>,
    slides: Map<u32, Seq<char>>,
    parts: Seq<Part>,
    page: u32,
    text: Seq<char>,
)
    requires
        current(dir, parts, CONTENT_TYPES@) is Some,
        note_applied(dir, names, slides, parts, page, text).result is Err,
    ensures
        note_applied(dir, names, slides, parts, page, text).parts == parts,
{
    if slides.contains_key(page) {
        let n = largest_in_package(names, parts) as nat + 1;
        lemma_new_added(dir, parts, slides[page], text, n, CONTENT_TYPES@);
    }
}

/// Where a slide has no notes slide yet, a page that got its notes has a new one with
/// the page's text.
pub proof fn law_new_notes_slide_holds_the_text(
    dir: ZipDirectory,
    parts: Seq<Part>,
    slide_path: Seq<char>,
    text: Seq<char>,
    n: nat,
)
    ensures
        find_part(
            new_added(dir, parts, slide_path, text, n).parts,
            numbered(NOTES_START@, n, XML_SUFFIX@),
        ) == Some(utf8(notes_slide(text))),
{
    let path = numbered(NOTES_START@, n, XML_SUFFIX@);
    lemma_names_differ(slide_path, n, n);
    lemma_new_added(dir, parts, slide_path, text, n, path);
    lemma_notes_parts(parts, slide_path, slide_rels(dir, parts, slide_path), text, n, path);
}

/// Giving a page its notes does not make a name occur twice.
pub proof fn law_note_keeps_names_distinct(
    dir: ZipDirectory,
    names: Seq<Seq<char>>,
    slides: Map<u32, Seq<char>>,
    parts: Seq<Part>,
    page: u32,
    text: Seq<char>,
)
    requires
        distinct_names(parts),
    ensures
        distinct_names(note_applied(dir, names, slides, parts, page, text).parts),
{
    if slides.contains_key(page) {
        let slide_path = slides[page];
        let rels = slide_rels(dir, parts, slide_path);
        match find_type(rels, NOTES_TYPE_SUFFIX@) {
            Some(rel) => {
                let path = resolved(SLIDES_DIR@, rel.target);
                if let Some(xml) = current(dir, parts, path) {
                    if let Ok(b) = notes_with_text(xml, text) {
                        law_put_part_keeps_names_distinct(parts, path, b);
                    }
                }
            },
            None => {
                let n = largest_in_package(names, parts) as nat + 1;
                lemma_new_added(dir, parts, slide_path, text, n, CONTENT_TYPES@);
            },
        }
    }
}

/// The part that holds the notes of a page once they are put in.
pub open spec fn notes_part(
    dir: ZipDirectory,
    names: Seq<Seq<char>>,
    slides: Map<u32, Seq<char>>,
    parts: Seq<Part>,
    page: u32,
) -> Seq<char> {
    match find_type(slide_rels(dir, parts, slides[page]), NOTES_TYPE_SUFFIX@) {
        Some(rel) => resolved(SLIDES_DIR@, rel.target),
        None => numbered(NOTES_START@, largest_in_package(names, parts) as nat + 1, XML_SUFFIX@),
    }
}

/// What that part holds: the notes slide of the page with its text replaced, or a new
/// one with the text.
pub open spec fn notes_data(
    dir: ZipDirectory,
    slides: Map<u32, Seq<char>>,
    parts: Seq<Part>,
    page: u32,
    text: Seq<char>,
) -> Seq<u8> {
    match find_type(slide_rels(dir, parts, slides[page]), NOTES_TYPE_SUFFIX@) {
        Some(rel) => notes_with_text(
            current(dir, parts, resolved(SLIDES_DIR@, rel.target))->0,
            text,
        )->Ok_0,
        None => utf8(notes_slide(text)),
    }
}

/// Once a page got its notes, its notes part holds them.
pub proof fn law_applied_note_is_stored(
    dir: ZipDirectory,
    names: Seq<Seq<char>>,
    slides: Map<u32, Seq<char>>,
    parts: Seq<Part>,
    page: u32,
    text: Seq<char>,
)
    requires
        note_applied(dir, names, slides, parts, page, text).result is Ok,
    ensures
        find_part(
            note_applied(dir, names, slides, parts, page, text).parts,
            notes_part(dir, names, slides, parts, page),
        ) == Some(notes_data(dir, slides, parts, page, text)),
{
    match find_type(slide_rels(dir, parts, slides[page]), NOTES_TYPE_SUFFIX@) {
        Some(rel) => {
            let path = resolved(SLIDES_DIR@, rel.target);
            law_put_part_is_found(
                parts,
                path,
                notes_data(dir, slides, parts, page, text),
                path,
            );
        },
        None => {
            law_new_notes_slide_holds_the_text(
                dir,
                parts,
                slides[page],
                text,
                largest_in_package(names, parts) as nat + 1,
            );
        },
    }
}

/// The part that holds the notes of a page is never a directory.
pub proof fn lemma_notes_part_is_no_directory(
    dir: ZipDirectory,
    names: Seq<Seq<char>>,
    slides: Map<u32, Seq<char>>,
    parts: Seq<Part>,
    page: u32,
)
    ensures
        !directory_name(notes_part(dir, names, slides, parts, page)),
{
    match find_type(slide_rels(dir, parts, slides[page]), NOTES_TYPE_SUFFIX@) {
        Some(rel) => {
            law_resolved_target_is_no_directory(SLIDES_DIR@, rel.target);
        },
        None => {
            reveal_strlit(".xml");
            let path = notes_part(dir, names, slides, parts, page);
            assert(path.last() == XML_SUFFIX@.last());
        },
    }
}

/// What the slide's relationships are once it has a new notes slide.
proof fn lemma_new_slide_rels(
    dir: ZipDirectory,
    parts: Seq<Part>,
    slide_path: Seq<char>,
    text: Seq<char>,
    n: nat,
)
    ensures
        find_part(new_added(dir, parts, slide_path, text, n).parts, slide_rels_path(slide_path))
            == Some(
            utf8(
                rels_xml(
                    put_rel(
                        slide_rels(dir, parts, slide_path),
                        new_notes_rel(slide_rels(dir, parts, slide_path), n),
                    ),
                ),
            ),
        ),
{
    let path = slide_rels_path(slide_path);
    lemma_names_differ(slide_path, n, n);
    lemma_new_added(dir, parts, slide_path, text, n, path);
    lemma_notes_parts(parts, slide_path, slide_rels(dir, parts, slide_path), text, n, path);
}

proof fn lemma_notes_type()
    ensures
        escaped(NOTES_TYPE@, true) == NOTES_TYPE@,
        has_suffix(NOTES_TYPE@, NOTES_TYPE_SUFFIX@),
        forall|i: int|
            0 <= i < NOTES_TYPE_SUFFIX@.len() ==> unescaped_char(#[trigger] NOTES_TYPE_SUFFIX@[i]),
{
    reveal_strlit("http://schemas.openxmlformats.org/officeDocument/2006/relationships/notesSlide");
    reveal_strlit("/notesSlide");
    lemma_escaped_plain(NOTES_TYPE@, true);
    assert(NOTES_TYPE@.skip(NOTES_TYPE@.len() - NOTES_TYPE_SUFFIX@.len()) =~= NOTES_TYPE_SUFFIX@);
}

/// The target of a new notes slide leads from the slides to the notes slide.
proof fn lemma_notes_target(n: nat)
    ensures
        escaped(numbered(NOTES_TARGET_START@, n, XML_SUFFIX@), true) == numbered(
            NOTES_TARGET_START@,
            n,
            XML_SUFFIX@,
        ),
        resolved(SLIDES_DIR@, numbered(NOTES_TARGET_START@, n, XML_SUFFIX@)) == numbered(
            NOTES_START@,
            n,
            XML_SUFFIX@,
        ),
{
    let target = numbered(NOTES_TARGET_START@, n, XML_SUFFIX@);
    let d = decimal(n);
    law_decimal_reads_back(n);
    assert(forall|i: int| 0 <= i < d.len() ==> is_digit(#[trigger] d[i]));
    reveal_strlit("../notesSlides/notesSlide");
    reveal_strlit(".xml");
    reveal_strlit("ppt/slides");
    reveal_strlit("ppt/notesSlides/notesSlide");
    reveal_strlit("..");
    reveal_strlit(".");
    assert forall|i: int| 0 <= i < target.len() implies unescaped_char(#[trigger] target[i]) by {
        let a = NOTES_TARGET_START@.len() as int;
        if i < a {
            assert(target[i] == NOTES_TARGET_START@[i]);
        } else if i < a + d.len() {
            assert(target[i] == d[i - a]);
        } else {
            assert(target[i] == XML_SUFFIX@[i - a - d.len()]);
        }
    }
    lemma_escaped_plain(target, true);
    let ppt = seq!['p', 'p', 't'];
    let slides = seq!['s', 'l', 'i', 'd', 'e', 's'];
    let up = seq!['.', '.'];
    let dir = seq!['n', 'o', 't', 'e', 's', 'S', 'l', 'i', 'd', 'e', 's'];
    let file = seq!['n', 'o', 't', 'e', 's', 'S', 'l', 'i', 'd', 'e'] + d + XML_SUFFIX@;
    assert(SLIDES_DIR@ =~= ppt.push('/') + slides);
    assert(target =~= up.push('/') + (dir.push('/') + file));
    assert(!ppt.contains('/'));
    assert(!slides.contains('/'));
    assert(!up.contains('/'));
    assert(!dir.contains('/'));
    assert(!file.contains('/')) by {
        assert forall|i: int| 0 <= i < file.len() implies file[i] != '/' by {
            if i < 10 {
            } else if i < 10 + d.len() {
                assert(file[i] == d[i - 10]);
            } else {
                assert(file[i] == XML_SUFFIX@[i - 10 - d.len()]);
            }
        }
    }
    lemma_split_at_separator(ppt, slides, '/');
    lemma_split_without_separator(ppt, '/');
    lemma_split_without_separator(slides, '/');
    lemma_split_at_separator(up, dir.push('/') + file, '/');
    lemma_split_at_separator(dir, file, '/');
    lemma_split_without_separator(up, '/');
    lemma_split_without_separator(dir, '/');
    lemma_split_without_separator(file, '/');
    let base = split(SLIDES_DIR@, '/');
    let segments = split(target, '/');
    assert(base =~= seq![ppt, slides]);
    assert(segments =~= seq![up, dir, file]);
    assert(base.drop_last() =~= seq![ppt]);
    assert(base.drop_last().drop_last() =~= Seq::<Seq<char>>::empty());
    assert(nonempty(base.drop_last().drop_last()) == Seq::<Seq<char>>::empty());
    assert(nonempty(base.drop_last()) =~= seq![ppt]);
    assert(nonempty(base) =~= seq![ppt, slides]);
    let s2 = segments.drop_last();
    let s1 = s2.drop_last();
    let s0 = s1.drop_last();
    assert(s0 =~= Seq::<Seq<char>>::empty());
    let at = nonempty(base);
    assert(walked(at, s0) == at);
    assert(s1.last() == up);
    assert(up =~= ".."@);
    assert(walked(at, s1) =~= seq![ppt]);
    assert(s2.last() == dir);
    assert(dir.len() != ".."@.len() && dir.len() != "."@.len());
    assert(walked(at, s2) =~= seq![ppt, dir]);
    assert(segments.last() == file);
    assert(file.len() > 10);
    assert(file.len() != ".."@.len() && file.len() != "."@.len());
    let w = walked(at, segments);
    assert(w =~= seq![ppt, dir, file]);
    assert(w.drop_last() =~= seq![ppt, dir]);
    assert(w.drop_last().drop_last() =~= seq![ppt]);
    assert(joined(w.drop_last().drop_last(), '/') == ppt);
    assert(joined(w.drop_last(), '/') == ppt.push('/') + dir);
    assert(joined(w, '/') == (ppt.push('/') + dir).push('/') + file);
    assert(joined(w, '/') =~= numbered(NOTES_START@, n, XML_SUFFIX@));
}

/// Once a slide has got a new notes slide, that is the part which a later note for its
/// page goes to, as long as the slide's relationships stay what they became.
pub proof fn law_new_notes_slide_is_found_again(
    dir: ZipDirectory,
    names: Seq<Seq<char>>,
    slides: Map<u32, Seq<char>>,
    parts: Seq<Part>,
    page: u32,
    text: Seq<char>,
    later: Seq<Part>,
)
    requires
        slides.contains_key(page),
        find_type(slide_rels(dir, parts, slides[page]), NOTES_TYPE_SUFFIX@) is None,
        note_applied(dir, names, slides, parts, page, text).result is Ok,
        find_part(later, slide_rels_path(slides[page])) == find_part(
            note_applied(dir, names, slides, parts, page, text).parts,
            slide_rels_path(slides[page]),
        ),
        rels_read_back(dir, later, slides[page]),
    ensures
        notes_part(dir, names, slides, later, page) == notes_part(dir, names, slides, parts, page),
{
    lemma_new_slide_rels(
        dir,
        parts,
        slides[page],
        text,
        largest_in_package(names, parts) as nat + 1,
    );
    lemma_new_notes_slide_is_found(dir, names, slides, parts, page, text, dir, later);
}

/// Where the relationships of a slide are read as they became with a new notes slide, they
/// lead to that notes slide.
pub proof fn lemma_new_notes_slide_is_found(
    dir: ZipDirectory,
    names: Seq<Seq<char>>,
    slides: Map<u32, Seq<char>>,
    parts: Seq<Part>,
    page: u32,
    text: Seq<char>,
    later_dir: ZipDirectory,
    later: Seq<Part>,
)
    requires
        slides.contains_key(page),
        find_type(slide_rels(dir, parts, slides[page]), NOTES_TYPE_SUFFIX@) is None,
        note_applied(dir, names, slides, parts, page, text).result is Ok,
        current(later_dir, later, slide_rels_path(slides[page])) == find_part(
            note_applied(dir, names, slides, parts, page, text).parts,
            slide_rels_path(slides[page]),
        ),
        rels_read_back(later_dir, later, slides[page]),
    ensures
        ({
            let found = find_type(slide_rels(later_dir, later, slides[page]), NOTES_TYPE_SUFFIX@);
            &&& found is Some
            &&& resolved(SLIDES_DIR@, found->0.target) == notes_part(
                dir,
                names,
                slides,
                parts,
                page,
            )
        }),
{
    let slide_path = slides[page];
    let n = largest_in_package(names, parts) as nat + 1;
    let rels = slide_rels(dir, parts, slide_path);
    let new = new_notes_rel(rels, n);
    lemma_new_slide_rels(dir, parts, slide_path, text, n);
    lemma_notes_type();
    lemma_notes_target(n);
    lemma_slide_rels_distinct(dir, parts, slide_path);
    law_next_rid_is_unused(rels);
    law_put_rel_keeps_ids_distinct(rels, new);
    law_written_type_is_found(rels, new, NOTES_TYPE_SUFFIX@);
    let all = put_rel(rels, new);
    assert(current(later_dir, later, slide_rels_path(slide_path)) == Some(utf8(rels_xml(all))));
    assert(slide_rels(later_dir, later, slide_path) == written_rels(all));
}

proof fn lemma_slide_rels_distinct(dir: ZipDirectory, parts: Seq<Part>, slide_path: Seq<char>)
    ensures
        distinct_ids(slide_rels(dir, parts, slide_path)),
{
    match current(dir, parts, slide_rels_path(slide_path)) {
        Some(b) => {
            law_read_ids_are_distinct(xml_items(b, true));
        },
        None => {
            law_read_ids_are_distinct(xml_items(utf8(rels_xml(Seq::empty())), true));
        },
    }
}

/// A new notes slide with another text in place of its own is the new notes slide with the
/// other text, and the parts around it are the same.
proof fn lemma_new_slide_replaced(
    dir: ZipDirectory,
    parts: Seq<Part>,
    slide_path: Seq<char>,
    first: Seq<char>,
    text: Seq<char>,
    n: nat,
)
    requires
        new_added(dir, parts, slide_path, first, n).result is Ok,
    ensures
        new_added(dir, parts, slide_path, text, n) == (Change {
            parts: put_part(
                new_added(dir, parts, slide_path, first, n).parts,
                numbered(NOTES_START@, n, XML_SUFFIX@),
                utf8(notes_slide(text)),
            ),
            result: Ok(()),
        }),
{
    let rels = slide_rels(dir, parts, slide_path);
    let path = numbered(NOTES_START@, n, XML_SUFFIX@);
    let rels_path = numbered(NOTES_RELS_PATH_START@, n, NOTES_RELS_PATH_END@);
    let slide_rels_at = slide_rels_path(slide_path);
    let old_data = utf8(notes_slide(first));
    let data = utf8(notes_slide(text));
    let rels_data = utf8(notes_rels(file_name(slide_path)));
    let new_rels = utf8(rels_xml(put_rel(rels, new_notes_rel(rels, n))));
    let p1 = put_part(parts, path, old_data);
    let p2 = put_part(p1, rels_path, rels_data);
    let p3 = with_notes_parts(parts, slide_path, rels, first, n);
    lemma_names_differ(slide_path, n, n);
    law_put_part_is_found(parts, path, old_data, path);
    law_put_part_is_found(p1, rels_path, rels_data, path);
    law_put_part_is_found(p2, slide_rels_at, new_rels, path);
    law_part_is_found(p1, path);
    law_part_is_found(p2, path);
    law_part_is_found(p3, path);
    law_last_part_wins(parts, path, old_data, data);
    lemma_put_parts_commute(p1, path, data, rels_path, rels_data);
    lemma_put_parts_commute(p2, path, data, slide_rels_at, new_rels);
    assert(put_part(p3, path, data) == with_notes_parts(parts, slide_path, rels, text, n));
    lemma_notes_parts(parts, slide_path, rels, first, n, CONTENT_TYPES@);
    lemma_notes_parts(parts, slide_path, rels, text, n, CONTENT_TYPES@);
    let types = current(dir, p3, CONTENT_TYPES@)->0;
    let new_types = with_notes_type(types, numbered(NOTES_PART_START@, n, XML_SUFFIX@));
    lemma_put_parts_commute(p3, path, data, CONTENT_TYPES@, new_types);
}

/// A second note for a page goes through, and gives what it gives without the first: it
/// changes the notes part of the page alone, to that part with the second text, and adds
/// no part.
pub proof fn law_second_note_replaces_the_first(
    dir: ZipDirectory,
    names: Seq<Seq<char>>,
    slides: Map<u32, Seq<char>>,
    parts: Seq<Part>,
    page: u32,
    first: Seq<char>,
    text: Seq<char>,
)
    requires
        slides.contains_key(page),
        note_rewritable(dir, slides, parts, page),
        note_applied(dir, names, slides, parts, page, first).result is Ok,
        note_reads(
            dir,
            slides,
            note_applied(dir, names, slides, parts, page, first).parts,
            page,
        ),
    ensures
        ({
            let once = note_applied(dir, names, slides, parts, page, first).parts;
            let twice = note_applied(dir, names, slides, once, page, text);
            let path = notes_part(dir, names, slides, parts, page);
            &&& twice.result is Ok
            &&& twice == note_applied(dir, names, slides, parts, page, text)
            &&& part_names(twice.parts) == part_names(once)
            &&& notes_part(dir, names, slides, once, page) == path
            &&& forall|other: Seq<char>|
                other != path ==> #[trigger] find_part(twice.parts, other) == find_part(once, other)
            &&& find_part(once, path) is Some
            &&& find_part(twice.parts, path) is Some
            &&& notes_with_text(find_part(once, path)->0, text) == Ok::<Seq<u8>, Seq<char>>(
                find_part(twice.parts, path)->0,
            )
            &&& note_rewritable(dir, slides, once, page)
        }),
{
    let slide_path = slides[page];
    let once = note_applied(dir, names, slides, parts, page, first).parts;
    let path = notes_part(dir, names, slides, parts, page);
    let old_data = notes_data(dir, slides, parts, page, first);
    law_applied_note_is_stored(dir, names, slides, parts, page, first);
    match find_type(slide_rels(dir, parts, slide_path), NOTES_TYPE_SUFFIX@) {
        Some(rel) => {
            let xml = current(dir, parts, path)->0;
            law_put_part_is_found(parts, path, old_data, slide_rels_path(slide_path));
            assert(slide_rels(dir, once, slide_path) == slide_rels(dir, parts, slide_path));
            law_last_text_wins(xml, first, old_data, text);
            law_last_part_wins(parts, path, old_data, notes_with_text(xml, text)->Ok_0);
        },
        None => {
            let n = largest_in_package(names, parts) as nat + 1;
            lemma_new_slide_rels(dir, parts, slide_path, first, n);
            lemma_new_notes_slide_is_found(dir, names, slides, parts, page, first, dir, once);
            law_new_slide_takes_another_text(first, text);
            lemma_new_slide_replaced(dir, parts, slide_path, first, text, n);
            lemma_names_differ(slide_path, n, n);
        },
    }
    let data = notes_with_text(old_data, text)->Ok_0;
    let twice = note_applied(dir, names, slides, once, page, text);
    assert(twice.parts == put_part(once, path, data));
    law_part_is_found(once, path);
    law_replaced_part_keeps_names(once, path, data);
    assert forall|other: Seq<char>| other != path implies #[trigger] find_part(twice.parts, other)
        == find_part(once, other) by {
        law_put_part_is_found(once, path, data, other);
    }
    law_put_part_is_found(once, path, data, path);
}

/// A part that is there stays there when a page gets its notes, and no part that is put in
/// is a directory.
pub proof fn lemma_note_keeps_parts(
    dir: ZipDirectory,
    names: Seq<Seq<char>>,
    slides: Map<u32, Seq<char>>,
    parts: Seq<Part>,
    page: u32,
    text: Seq<char>,
    name: Seq<char>,
)
    ensures
        find_part(parts, name) is Some ==> find_part(
            note_applied(dir, names, slides, parts, page, text).parts,
            name,
        ) is Some,
        directory_name(name) ==> find_part(
            note_applied(dir, names, slides, parts, page, text).parts,
            name,
        ) == find_part(parts, name),
{
    if note_touches(dir, names, slides, parts, page, name) {
        let slide_path = slides[page];
        let n = largest_in_package(names, parts) as nat + 1;
        lemma_notes_part_is_no_directory(dir, names, slides, parts, page);
        match find_type(slide_rels(dir, parts, slide_path), NOTES_TYPE_SUFFIX@) {
            Some(rel) => {
                if let Some(xml) = current(dir, parts, name) {
                    if let Ok(b) = notes_with_text(xml, text) {
                        law_put_part_is_found(parts, name, b, name);
                    }
                }
            },
            None => {
                if has_master(names, parts) {
                    let rels = slide_rels(dir, parts, slide_path);
                    let added = with_notes_parts(parts, slide_path, rels, text, n);
                    lemma_new_added(dir, parts, slide_path, text, n, name);
                    lemma_notes_parts(parts, slide_path, rels, text, n, name);
                    if let Some(types) = current(dir, added, CONTENT_TYPES@) {
                        let new_types = with_notes_type(
                            types,
                            numbered(NOTES_PART_START@, n, XML_SUFFIX@),
                        );
                        law_put_part_is_found(added, CONTENT_TYPES@, new_types, name);
                    }
                    reveal_strlit(".xml");
                    reveal_strlit(".xml.rels");
                    reveal_strlit(".rels");
                    reveal_strlit("[Content_Types].xml");
                    assert(numbered(NOTES_RELS_PATH_START@, n, NOTES_RELS_PATH_END@).last()
                        == NOTES_RELS_PATH_END@.last());
                    assert(slide_rels_path(slide_path).last() == RELS_SUFFIX@.last());
                    assert(CONTENT_TYPES@.last() == 'l');
                }
            },
        }
    } else {
        law_note_leaves_other_parts(dir, names, slides, parts, page, text, name);
    }
}

/// With a notes master and content types in the package, a page without a notes slide gets
/// one.
pub proof fn lemma_new_note_succeeds(
    dir: ZipDirectory,
    names: Seq<Seq<char>>,
    slides: Map<u32, Seq<char>>,
    parts: Seq<Part>,
    page: u32,
    text: Seq<char>,
)
    requires
        slides.contains_key(page),
        find_type(slide_rels(dir, parts, slides[page]), NOTES_TYPE_SUFFIX@) is None,
        has_master(names, parts),
        current(dir, parts, CONTENT_TYPES@) is Some,
    ensures
        note_applied(dir, names, slides, parts, page, text).result is Ok,
{
    let n = largest_in_package(names, parts) as nat + 1;
    lemma_new_added(dir, parts, slides[page], text, n, CONTENT_TYPES@);
}

/// The part that holds the notes of a page is one that giving it its notes touches, and it
/// is not the part with the relationships of the slide.
pub proof fn lemma_notes_part_is_touched(
    dir: ZipDirectory,
    names: Seq<Seq<char>>,
    slides: Map<u32, Seq<char>>,
    parts: Seq<Part>,
    page: u32,
)
    requires
        slides.contains_key(page),
        note_rewritable(dir, slides, parts, page),
    ensures
        note_touches(
            dir,
            names,
            slides,
            parts,
            page,
            notes_part(dir, names, slides, parts, page),
        ),
        notes_part(dir, names, slides, parts, page) != slide_rels_path(slides[page]),
{
    let n = largest_in_package(names, parts) as nat + 1;
    lemma_names_differ(slides[page], n, n);
}

/// A slide that got a new notes slide has a part with its relationships.
pub proof fn lemma_new_slide_has_rels(
    dir: ZipDirectory,
    names: Seq<Seq<char>>,
    slides: Map<u32, Seq<char>>,
    parts: Seq<Part>,
    page: u32,
    text: Seq<char>,
)
    requires
        slides.contains_key(page),
        find_type(slide_rels(dir, parts, slides[page]), NOTES_TYPE_SUFFIX@) is None,
        note_applied(dir, names, slides, parts, page, text).result is Ok,
    ensures
        find_part(
            note_applied(dir, names, slides, parts, page, text).parts,
            slide_rels_path(slides[page]),
        ) is Some,
{
    lemma_new_slide_rels(
        dir,
        parts,
        slides[page],
        text,
        largest_in_package(names, parts) as nat + 1,
    );
}

// ---- where the notes of a page go ----

/// The file name in a path is what follows its last slash, or the whole path where there is
/// none, and the relationships of a slide stand under it.
pub proof fn law_file_name_follows_the_last_slash(dir: Seq<char>, name: Seq<char>)
    requires
        !name.contains('/'),
    ensures
        file_name(dir.push('/') + name) == name,
        file_name(name) == name,
        slide_rels_path(dir.push('/') + name) == "ppt/slides/_rels/"@ + name + ".rels"@,
{
    lemma_split_at_separator(dir, name, '/');
    lemma_split_without_separator(name, '/');
    let pieces = split(dir, '/') + split(name, '/');
    assert(pieces[pieces.len() - 1] == name);
}

/// A notes slide is numbered by what stands between the start and the end of its name, read
/// as a number; no other name has a number.
pub proof fn law_number_stands_in_the_name(name: Seq<char>, t: Seq<char>)
    ensures
        note_number("ppt/notesSlides/notesSlide"@ + t + ".xml"@) == number_u32(t),
        note_number(name) is Some ==> exists|d: Seq<char>|
            name == #[trigger] ("ppt/notesSlides/notesSlide"@ + d + ".xml"@) && number_u32(d)
                == note_number(name),
{
    let start = "ppt/notesSlides/notesSlide"@;
    let end = ".xml"@;
    let whole = start + t + end;
    let rest = whole.skip(start.len() as int);
    assert(whole.take(start.len() as int) =~= start);
    assert(rest =~= t + end);
    assert(rest.skip(rest.len() - end.len()) =~= end);
    assert(rest.take(rest.len() - end.len()) =~= t);
    if note_number(name) is Some {
        let more = name.skip(start.len() as int);
        let d = more.take(more.len() - end.len());
        assert(name =~= name.take(start.len() as int) + more);
        assert(more =~= d + more.skip(more.len() - end.len()));
        assert(name =~= start + d + end);
    }
}

/// The largest number is that of one of the names, or 0, and no name has a larger one, however
/// many there are.
pub proof fn law_largest_number_is_the_largest(names: Seq<Seq<char>>)
    ensures
        forall|i: int|
            0 <= i < names.len() && note_number(#[trigger] names[i]) is Some ==> note_number(
                names[i],
            )->0 <= largest_note(names),
        largest_note(names) == 0 || exists|i: int|
            0 <= i < names.len() && note_number(#[trigger] names[i]) == Some(largest_note(names)),
    decreases names.len(),
{
    assert forall|i: int|
        0 <= i < names.len() && note_number(#[trigger] names[i]) is Some implies note_number(
        names[i],
    )->0 <= largest_note(names) by {
        assert(names.contains(names[i]));
        lemma_largest_note(names, names[i]);
    }
    if names.len() > 0 {
        let init = names.drop_last();
        law_largest_number_is_the_largest(init);
        if largest_note(names) == largest_note(init) {
            if largest_note(init) != 0 {
                let i = choose|i: int|
                    0 <= i < init.len() && note_number(#[trigger] init[i]) == Some(
                        largest_note(init),
                    );
                assert(names[i] == init[i]);
            }
        } else {
            assert(names[names.len() - 1] == names.last());
        }
    }
}

/// Where the slide of a page has a notes slide, that gets the text and no other part changes;
/// where the notes slide is missing or cannot take it, nothing changes and the error says why.
pub proof fn law_existing_notes_slide_gets_the_text(
    dir: ZipDirectory,
    names: Seq<Seq<char>>,
    slides: Map<u32, Seq<char>>,
    parts: Seq<Part>,
    page: u32,
    text: Seq<char>,
    rel: Rel,
)
    requires
        slides.contains_key(page),
        find_type(slide_rels(dir, parts, slides[page]), "/notesSlide"@) == Some(rel),
    ensures
        ({
            let path = resolved("ppt/slides"@, rel.target);
            let after = note_applied(dir, names, slides, parts, page, text);
            match current(dir, parts, path) {
                None => after.parts == parts && after.result == Err::<(), Seq<char>>(
                    path + " 를 찾을 수 없음"@,
                ),
                Some(xml) => match notes_with_text(xml, text) {
                    Err(m) => after.parts == parts && after.result == Err::<(), Seq<char>>(m),
                    Ok(b) => {
                        &&& after.result is Ok
                        &&& find_part(after.parts, path) == Some(b)
                        &&& forall|other: Seq<char>|
                            other != path ==> #[trigger] find_part(after.parts, other) == find_part(
                                parts,
                                other,
                            )
                    },
                },
            }
        }),
{
    let path = resolved("ppt/slides"@, rel.target);
    if let Some(xml) = current(dir, parts, path) {
        if let Ok(b) = notes_with_text(xml, text) {
            law_put_part_is_found(parts, path, b, path);
            assert forall|other: Seq<char>| other != path implies #[trigger] find_part(
                note_applied(dir, names, slides, parts, page, text).parts,
                other,
            ) == find_part(parts, other) by {
                law_put_part_is_found(parts, path, b, other);
            }
        }
    }
}

/// Where the slide of a page has no notes slide, it gets one with the number after the
/// largest in the package: with the text, with relationships that lead to the slide, with a
/// relationship from the slide to it beside those that the slide has, and with an entry in
/// the content types.
pub proof fn law_new_notes_slide_is_linked(
    dir: ZipDirectory,
    names: Seq<Seq<char>>,
    slides: Map<u32, Seq<char>>,
    parts: Seq<Part>,
    page: u32,
    text: Seq<char>,
    types: Seq<u8>,
)
    requires
        slides.contains_key(page),
        find_type(slide_rels(dir, parts, slides[page]), "/notesSlide"@) is None,
        names.contains("ppt/notesMasters/notesMaster1.xml"@) || has_part(
            parts,
            "ppt/notesMasters/notesMaster1.xml"@,
        ),
        current(dir, parts, "[Content_Types].xml"@) == Some(types),
    ensures
        ({
            let n = decimal(largest_note(names + part_names(parts)) as nat + 1);
            let rels = slide_rels(dir, parts, slides[page]);
            let after = note_applied(dir, names, slides, parts, page, text);
            let link = Rel {
                id: next_rid(rels),
                ty: "http://schemas.openxmlformats.org/officeDocument/2006/relationships/notesSlide"@,
                target: "../notesSlides/notesSlide"@ + n + ".xml"@,
            };
            &&& after.result is Ok
            &&& find_part(after.parts, "ppt/notesSlides/notesSlide"@ + n + ".xml"@) == Some(
                utf8(notes_slide(text)),
            )
            &&& find_part(after.parts, "ppt/notesSlides/_rels/notesSlide"@ + n + ".xml.rels"@)
                == Some(utf8(notes_rels(file_name(slides[page]))))
            &&& find_part(after.parts, slide_rels_path(slides[page])) == Some(
                utf8(rels_xml(rels.push(link))),
            )
            &&& find_part(after.parts, "[Content_Types].xml"@) == Some(
                with_notes_type(types, "/ppt/notesSlides/notesSlide"@ + n + ".xml"@),
            )
        }),
{
    let slide_path = slides[page];
    let n = largest_in_package(names, parts) as nat + 1;
    let rels = slide_rels(dir, parts, slide_path);
    let path = numbered(NOTES_START@, n, XML_SUFFIX@);
    let rels_path = numbered(NOTES_RELS_PATH_START@, n, NOTES_RELS_PATH_END@);
    lemma_names_differ(slide_path, n, n);
    lemma_new_added(dir, parts, slide_path, text, n, path);
    lemma_new_added(dir, parts, slide_path, text, n, rels_path);
    lemma_new_added(dir, parts, slide_path, text, n, slide_rels_path(slide_path));
    lemma_notes_parts(parts, slide_path, rels, text, n, path);
    lemma_notes_parts(parts, slide_path, rels, text, n, rels_path);
    lemma_notes_parts(parts, slide_path, rels, text, n, slide_rels_path(slide_path));
    lemma_notes_parts(parts, slide_path, rels, text, n, CONTENT_TYPES@);
    law_next_rid_is_unused(rels);
    assert(put_rel(rels, new_notes_rel(rels, n)) == rels.push(new_notes_rel(rels, n)));
    let added = with_notes_parts(parts, slide_path, rels, text, n);
    law_put_part_is_found(
        added,
        CONTENT_TYPES@,
        with_notes_type(types, numbered(NOTES_PART_START@, n, XML_SUFFIX@)),
        CONTENT_TYPES@,
    );
}

/// A page that the deck does not have, and a new notes slide in a package without a notes
/// master, are refused with the number of the page, and nothing changes.
pub proof fn law_note_without_a_place_is_refused(
    dir: ZipDirectory,
    names: Seq<Seq<char>>,
    slides: Map<u32, Seq<char>>,
    parts: Seq<Part>,
    page: u32,
    text: Seq<char>,
)
    ensures
        ({
            let after = note_applied(dir, names, slides, parts, page, text);
            &&& !slides.contains_key(page) ==> after.parts == parts && after.result == Err::<
                (),
                Seq<char>,
            >("슬라이드 "@ + decimal(page as nat) + "번이 존재하지 않음"@)
            &&& slides.contains_key(page) && find_type(
                slide_rels(dir, parts, slides[page]),
                "/notesSlide"@,
            ) is None && !names.contains("ppt/notesMasters/notesMaster1.xml"@) && !has_part(
                parts,
                "ppt/notesMasters/notesMaster1.xml"@,
            ) ==> after.parts == parts && after.result == Err::<(), Seq<char>>(
                "슬라이드 "@ + decimal(page as nat)
                    + "번: 이 PPT에 메모 인프라가 없습니다. PowerPoint에서 아무 슬라이드 메모칸에나 한 글자 입력 후 저장하고 다시 시도해주세요."@,
            )
        }),
{
}

/// A new notes slide is refused where the content types cannot be read.
pub proof fn law_new_notes_slide_needs_content_types(
    dir: ZipDirectory,
    names: Seq<Seq<char>>,
    slides: Map<u32, Seq<char>>,
    parts: Seq<Part>,
    page: u32,
    text: Seq<char>,
)
    requires
        slides.contains_key(page),
        find_type(slide_rels(dir, parts, slides[page]), "/notesSlide"@) is None,
        names.contains("ppt/notesMasters/notesMaster1.xml"@) || has_part(
            parts,
            "ppt/notesMasters/notesMaster1.xml"@,
        ),
        current(dir, parts, "[Content_Types].xml"@) is None,
    ensures
        note_applied(dir, names, slides, parts, page, text).result == Err::<(), Seq<char>>(
            "[Content_Types].xml 읽기 실패"@,
        ),
{
    let n = largest_in_package(names, parts) as nat + 1;
    lemma_names_differ(slides[page], n, n);
    lemma_notes_parts(
        parts,
        slides[page],
        slide_rels(dir, parts, slides[page]),
        text,
        n,
        CONTENT_TYPES@,
    );
}

/// A page can get its notes unless it needs a new notes slide and the largest number there is
/// is taken.
pub proof fn law_number_is_left_below_the_largest(
    dir: ZipDirectory,
    names: Seq<Seq<char>>,
    slides: Map<u32, Seq<char>>,
    parts: Seq<Part>,
    page: u32,
)
    ensures
        !number_left(dir, names, slides, parts, page) ==> slides.contains_key(page) && find_type(
            slide_rels(dir, parts, slides[page]),
            "/notesSlide"@,
        ) is None && largest_note(names + part_names(parts)) == 0xffff_ffff,
{
}

/// A slide whose relationships the package does not have has none.
pub proof fn law_slide_without_relationships_has_none(
    dir: ZipDirectory,
    parts: Seq<Part>,
    slide_path: Seq<char>,
)
    requires
        current(dir, parts, slide_rels_path(slide_path)) is None,
        reads_written_rels(
            utf8(rels_xml(Seq::empty())),
            rels_of(utf8(rels_xml(Seq::empty()))),
        ),
    ensures
        slide_rels(dir, parts, slide_path).len() == 0,
{
    let none = Seq::<Rel>::empty();
    assert(distinct_ids(none));
    assert(rels_of(utf8(rels_xml(none))) == written_rels(none));
}

} // verus!
