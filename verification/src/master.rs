//! The notes master: the part that every notes slide refers to.

use crate::archive::{
    archive_directory, current, directory_name, read_current, readable_entry, ZipDirectory,
};
use crate::notes::{replace_in_xml, TYPES_END};
use crate::numbering::{first_free, free_number, law_free_number_is_least, numbered};
use crate::parts::{
    distinct_names, find_part, has_part, law_part_is_found, law_put_part_is_found,
    law_put_part_keeps_names_distinct, part_names, put_part, Part, PartSet,
};
use crate::presentation::{NO_PRESENTATION, NO_PRESENTATION_RELS, PRESENTATION, PRESENTATION_RELS};
use crate::rels::{
    build_rels_xml, get_rels_map, law_next_rid_is_unused, lemma_directory_beside, lemma_plain_rel,
    lemma_two_rels_xml, next_rid, next_unused_rid, path_names, put_rel, rels_of, rels_xml, resolved,
    written_rel, Rel, Relationship, RELS_START,
};
use crate::text::{
    chars_of, contains_name, copy_bytes, decimal, decimal_text, decoded, find, find_text,
    from_utf8_lossy, is_digit, law_decimal_reads_back, law_first_occurrence_is_found,
    law_first_occurrence_is_replaced, occurs_at, replaced_first, strings, utf8, utf8_bytes,
    utf8_lossy,
};
use crate::xml::plain_text;
use std::io::Cursor;
use vstd::prelude::*;
use vstd::string::StringExecFns;
use zip::ZipArchive;

verus! {

/// A notes master and its theme, for packages that have none.
pub struct NotesTemplate {
    pub master: Vec<u8>,
    pub theme: Vec<u8>,
}

/// What a [`NotesTemplate`] holds.
pub struct Template {
    pub master: Seq<u8>,
    pub theme: Seq<u8>,
}

impl View for NotesTemplate {
    type V = Template;

    open spec fn view(&self) -> Template {
        Template { master: self.master@, theme: self.theme@ }
    }
}

/// New versions of parts, and whether the step that made them went through.
#[verifier::ext_equal]
pub struct Change {
    pub parts: Seq<Part>,
    pub result: Result<(), Seq<char>>,
}

/// What the result of a step says.
pub open spec fn done(r: Result<(), String>) -> Result<(), Seq<char>> {
    match r {
        Ok(_) => Ok(()),
        Err(m) => Err(m@),
    }
}

pub const THEME_START: &'static str = "ppt/theme/theme";

pub const XML_SUFFIX: &'static str = ".xml";

pub const NOTES_MASTER: &'static str = "ppt/notesMasters/notesMaster1.xml";

pub const NOTES_MASTER_RELS: &'static str = "ppt/notesMasters/_rels/notesMaster1.xml.rels";

pub const CONTENT_TYPES: &'static str = "[Content_Types].xml";

pub const NO_CONTENT_TYPES: &'static str = "[Content_Types].xml 읽기 실패";

pub const MASTER_RELS_START: &'static str = r#"<?xml version="1.0" encoding="UTF-8" standalone="yes"?>
<Relationships xmlns="http://schemas.openxmlformats.org/package/2006/relationships"><Relationship Id="rId1" Type="http://schemas.openxmlformats.org/officeDocument/2006/relationships/theme" Target="../theme/theme"#;

pub const MASTER_RELS_END: &'static str = r#".xml"/></Relationships>"#;

pub const MASTER_TYPE: &'static str =
    "http://schemas.openxmlformats.org/officeDocument/2006/relationships/notesMaster";

pub const MASTER_TARGET: &'static str = "notesMasters/notesMaster1.xml";

pub const MASTER_LIST_END: &'static str = "</p:sldMasterIdLst>";

pub const MASTER_ID_START: &'static str =
    "</p:sldMasterIdLst><p:notesMasterIdLst><p:notesMasterId r:id=\"";

pub const MASTER_ID_END: &'static str = "\"/></p:notesMasterIdLst>";

pub const UNKNOWN_PRESENTATION: &'static str = "presentation.xml 구조를 인식할 수 없습니다";

pub const MASTER_TYPES_START: &'static str = r#"<Override PartName="/ppt/notesMasters/notesMaster1.xml" ContentType="application/vnd.openxmlformats-officedocument.presentationml.notesMaster+xml"/><Override PartName="/ppt/theme/theme"#;

pub const MASTER_TYPES_END: &'static str = r#".xml" ContentType="application/vnd.openxmlformats-officedocument.theme+xml"/></Types>"#;

/// The number of the theme that comes with the notes master: the least that no part
/// of the package has.
pub open spec fn theme_number(names: Seq<Seq<char>>, parts: Seq<Part>) -> nat {
    free_number(names + part_names(parts), THEME_START@, XML_SUFFIX@)
}

/// The path of the theme with the given number.
pub open spec fn theme_path(n: nat) -> Seq<char> {
    numbered(THEME_START@, n, XML_SUFFIX@)
}

/// The parts with the theme, the notes master and its relationships.
pub open spec fn with_master_parts(parts: Seq<Part>, n: nat, template: Template) -> Seq<Part> {
    let with_theme = put_part(parts, theme_path(n), template.theme);
    let with_rels = put_part(
        with_theme,
        NOTES_MASTER_RELS@,
        utf8(MASTER_RELS_START@ + decimal(n) + MASTER_RELS_END@),
    );
    put_part(with_rels, NOTES_MASTER@, template.master)
}

/// The relationships of the presentation with one to the notes master.
pub open spec fn with_master_rel(rels: Seq<Rel>) -> Seq<Rel> {
    put_rel(rels, Rel { id: next_rid(rels), ty: MASTER_TYPE@, target: MASTER_TARGET@ })
}

/// The presentation with a list of notes masters, after the list of slide masters.
pub open spec fn with_master_id(presentation: Seq<char>, rid: Seq<char>) -> Seq<char> {
    replaced_first(presentation, MASTER_LIST_END@, MASTER_ID_START@ + rid + MASTER_ID_END@)
}

/// The content types with the notes master and its theme.
pub open spec fn with_master_types(content_types: Seq<char>, n: nat) -> Seq<char> {
    replaced_first(
        content_types,
        TYPES_END@,
        MASTER_TYPES_START@ + decimal(n) + MASTER_TYPES_END@,
    )
}

/// What comes of putting a notes master into a package.
pub open spec fn master_injected(
    dir: ZipDirectory,
    names: Seq<Seq<char>>,
    parts: Seq<Part>,
    template: Template,
) -> Change {
    let n = theme_number(names, parts);
    let p1 = with_master_parts(parts, n, template);
    match current(dir, p1, PRESENTATION_RELS@) {
        None => Change { parts: p1, result: Err(NO_PRESENTATION_RELS@) },
        Some(pres_rels) => {
            let rels = rels_of(pres_rels);
            let p2 = put_part(p1, PRESENTATION_RELS@, utf8(rels_xml(with_master_rel(rels))));
            match current(dir, p2, PRESENTATION@) {
                None => Change { parts: p2, result: Err(NO_PRESENTATION@) },
                Some(pres) => {
                    let text = utf8_lossy(pres);
                    if find(text, MASTER_LIST_END@) is None {
                        Change { parts: p2, result: Err(UNKNOWN_PRESENTATION@) }
                    } else {
                        let p3 = put_part(
                            p2,
                            PRESENTATION@,
                            utf8(with_master_id(text, next_rid(rels))),
                        );
                        match current(dir, p3, CONTENT_TYPES@) {
                            None => Change { parts: p3, result: Err(NO_CONTENT_TYPES@) },
                            Some(types) => Change {
                                parts: put_part(
                                    p3,
                                    CONTENT_TYPES@,
                                    utf8(with_master_types(utf8_lossy(types), n)),
                                ),
                                result: Ok(()),
                            },
                        }
                    }
                },
            }
        },
    }
}

/// The number of the theme, as [`theme_number`] says.
fn find_theme_number(all_names: &Vec<String>, overrides: &PartSet) -> (r: u128)
    ensures
        r == theme_number(strings(all_names@), overrides@),
{
    let ghost taken = strings(all_names@) + part_names(overrides@);
    let tries: u128 = all_names.len() as u128 + overrides.len() as u128;
    let mut n: u128 = 1;
    loop
        invariant
            1 <= n <= tries + 1,
            tries == all_names@.len() + overrides@.len(),
            tries <= usize::MAX + usize::MAX,
            taken == strings(all_names@) + part_names(overrides@),
            free_number(taken, THEME_START@, XML_SUFFIX@) == first_free(
                taken,
                THEME_START@,
                XML_SUFFIX@,
                n as nat,
                (tries + 1 - n) as nat,
            ),
        decreases tries + 1 - n,
    {
        let candidate = path_of_theme(n);
        proof {
            lemma_taken(strings(all_names@), overrides@, candidate@);
        }
        if n > tries || !(contains_name(all_names, candidate.as_str()) || overrides.contains(
            candidate.as_str(),
        )) {
            return n;
        }
        n = n + 1;
    }
}

/// A name is taken if the archive has it or a new part has it.
pub proof fn lemma_taken(names: Seq<Seq<char>>, parts: Seq<Part>, name: Seq<char>)
    ensures
        (names + part_names(parts)).contains(name) == (names.contains(name) || has_part(parts, name)),
{
    let all = names + part_names(parts);
    law_part_is_found(parts, name);
    if names.contains(name) {
        let i = choose|i: int| 0 <= i < names.len() && names[i] == name;
        assert(all[i] == name);
    }
    if part_names(parts).contains(name) {
        let i = choose|i: int| 0 <= i < part_names(parts).len() && part_names(parts)[i] == name;
        assert(all[names.len() + i] == name);
    }
    if all.contains(name) {
        let i = choose|i: int| 0 <= i < all.len() && all[i] == name;
        if i < names.len() {
            assert(names[i] == name);
        } else {
            assert(part_names(parts)[i - names.len()] == name);
        }
    }
}

fn path_of_theme(n: u128) -> (r: String)
    ensures
        r@ == theme_path(n as nat),
{
    let mut s = THEME_START.to_string();
    s.append(decimal_text(n).as_str());
    s.append(XML_SUFFIX);
    s
}

fn enclosed_number(start: &str, n: u128, end: &str) -> (r: String)
    ensures
        r@ == start@ + decimal(n as nat) + end@,
{
    let mut s = start.to_string();
    s.append(decimal_text(n).as_str());
    s.append(end);
    s
}

/// The theme, the notes master and the relationships leave the presentation as it was.
proof fn lemma_presentation_before_master(
    dir: ZipDirectory,
    parts: Seq<Part>,
    n: nat,
    template: Template,
    later: Seq<Part>,
)
    requires
        exists|data: Seq<u8>|
            later == put_part(with_master_parts(parts, n, template), PRESENTATION_RELS@, data),
    ensures
        current(dir, later, PRESENTATION@) == current(dir, parts, PRESENTATION@),
{
    let data = choose|data: Seq<u8>|
        later == put_part(with_master_parts(parts, n, template), PRESENTATION_RELS@, data);
    let rels_data = utf8(MASTER_RELS_START@ + decimal(n) + MASTER_RELS_END@);
    let a = put_part(parts, theme_path(n), template.theme);
    let b = put_part(a, NOTES_MASTER_RELS@, rels_data);
    lemma_master_parts_are_files(n);
    law_put_part_is_found(parts, theme_path(n), template.theme, PRESENTATION@);
    law_put_part_is_found(a, NOTES_MASTER_RELS@, rels_data, PRESENTATION@);
    law_put_part_is_found(b, NOTES_MASTER@, template.master, PRESENTATION@);
    law_put_part_is_found(
        with_master_parts(parts, n, template),
        PRESENTATION_RELS@,
        data,
        PRESENTATION@,
    );
}

/// So do the theme, the notes master and the presentation leave the content types.
proof fn lemma_types_before_master(
    dir: ZipDirectory,
    parts: Seq<Part>,
    n: nat,
    template: Template,
    later: Seq<Part>,
)
    requires
        exists|rels: Seq<u8>, pres: Seq<u8>|
            later == #[trigger] put_part(
                #[trigger] put_part(
                    with_master_parts(parts, n, template),
                    PRESENTATION_RELS@,
                    rels,
                ),
                PRESENTATION@,
                pres,
            ),
    ensures
        current(dir, later, CONTENT_TYPES@) == current(dir, parts, CONTENT_TYPES@),
{
    let p1 = with_master_parts(parts, n, template);
    let (rels, pres) = choose|rels: Seq<u8>, pres: Seq<u8>|
        later == #[trigger] put_part(
            #[trigger] put_part(p1, PRESENTATION_RELS@, rels),
            PRESENTATION@,
            pres,
        );
    let rels_data = utf8(MASTER_RELS_START@ + decimal(n) + MASTER_RELS_END@);
    let a = put_part(parts, theme_path(n), template.theme);
    let b = put_part(a, NOTES_MASTER_RELS@, rels_data);
    let p2 = put_part(p1, PRESENTATION_RELS@, rels);
    lemma_master_parts_are_files(n);
    law_put_part_is_found(parts, theme_path(n), template.theme, CONTENT_TYPES@);
    law_put_part_is_found(a, NOTES_MASTER_RELS@, rels_data, CONTENT_TYPES@);
    law_put_part_is_found(b, NOTES_MASTER@, template.master, CONTENT_TYPES@);
    law_put_part_is_found(p1, PRESENTATION_RELS@, rels, CONTENT_TYPES@);
    law_put_part_is_found(p2, PRESENTATION@, pres, CONTENT_TYPES@);
}

/// Puts a notes master into a package, as [`master_injected`] says.
pub fn inject_notes_master(
    archive: &mut ZipArchive<Cursor<Vec<u8>>>,
    all_names: &Vec<String>,
    overrides: &mut PartSet,
    template: &NotesTemplate,
) -> (r: Result<(), String>)
    requires
        old(overrides).wf(),
    ensures
        archive_directory(*final(archive)) == archive_directory(*old(archive)),
        final(overrides).wf(),
        (Change { parts: final(overrides)@, result: done(r) }) == master_injected(
            archive_directory(*old(archive)),
            strings(all_names@),
            old(overrides)@,
            template@,
        ),
        r is Ok ==> decoded(
            current(archive_directory(*old(archive)), old(overrides)@, PRESENTATION@)->0,
        ) && decoded(
            current(archive_directory(*old(archive)), old(overrides)@, CONTENT_TYPES@)->0,
        ),
{
    let ghost dir = archive_directory(*archive);
    let ghost start = overrides@;
    let n: u128 = find_theme_number(all_names, overrides);
    overrides.insert(path_of_theme(n), copy_bytes(template.theme.as_slice()));
    overrides.insert(
        NOTES_MASTER_RELS.to_string(),
        utf8_bytes(enclosed_number(MASTER_RELS_START, n, MASTER_RELS_END).as_str()),
    );
    overrides.insert(NOTES_MASTER.to_string(), copy_bytes(template.master.as_slice()));

    let pres_rels = match read_current(archive, overrides, PRESENTATION_RELS) {
        Some(b) => b,
        None => {
            return Err(NO_PRESENTATION_RELS.to_string());
        },
    };
    let mut map = get_rels_map(pres_rels.as_slice());
    let rid = next_unused_rid(&map);
    map.insert(
        Relationship {
            id: rid.clone(),
            ty: MASTER_TYPE.to_string(),
            target: MASTER_TARGET.to_string(),
        },
    );
    overrides.insert(
        PRESENTATION_RELS.to_string(),
        utf8_bytes(build_rels_xml(&map).as_str()),
    );

    let pres = match read_current(archive, overrides, PRESENTATION) {
        Some(b) => b,
        None => {
            return Err(NO_PRESENTATION.to_string());
        },
    };
    proof {
        lemma_presentation_before_master(dir, start, n as nat, template@, overrides@);
    }
    let pres_chars = chars_of(from_utf8_lossy(pres.as_slice()).as_str());
    if find_text(pres_chars.as_slice(), chars_of(MASTER_LIST_END).as_slice()).is_none() {
        return Err(UNKNOWN_PRESENTATION.to_string());
    }
    let mut insertion = MASTER_ID_START.to_string();
    insertion.append(rid.as_str());
    insertion.append(MASTER_ID_END);
    overrides.insert(
        PRESENTATION.to_string(),
        replace_in_xml(pres.as_slice(), MASTER_LIST_END, insertion.as_str()),
    );

    proof {
        lemma_types_before_master(dir, start, n as nat, template@, overrides@);
    }
    let types = match read_current(archive, overrides, CONTENT_TYPES) {
        Some(b) => b,
        None => {
            return Err(NO_CONTENT_TYPES.to_string());
        },
    };
    overrides.insert(
        CONTENT_TYPES.to_string(),
        replace_in_xml(
            types.as_slice(),
            TYPES_END,
            enclosed_number(MASTER_TYPES_START, n, MASTER_TYPES_END).as_str(),
        ),
    );
    Ok(())
}

/// The theme of the notes master takes no name that the package has.
pub proof fn law_theme_is_new(names: Seq<Seq<char>>, parts: Seq<Part>)
    ensures
        !names.contains(theme_path(theme_number(names, parts))),
        !has_part(parts, theme_path(theme_number(names, parts))),
{
    let taken = names + part_names(parts);
    law_free_number_is_least(taken, THEME_START@, XML_SUFFIX@);
    lemma_taken(names, parts, theme_path(theme_number(names, parts)));
}

/// Whether putting a notes master into a package touches the named part.
pub open spec fn master_touches(names: Seq<Seq<char>>, parts: Seq<Part>, name: Seq<char>) -> bool {
    ||| name == theme_path(theme_number(names, parts))
    ||| name == NOTES_MASTER_RELS@
    ||| name == NOTES_MASTER@
    ||| name == PRESENTATION_RELS@
    ||| name == PRESENTATION@
    ||| name == CONTENT_TYPES@
}

/// Putting a notes master into a package leaves every other part as it was.
pub proof fn law_master_leaves_other_parts(
    dir: ZipDirectory,
    names: Seq<Seq<char>>,
    parts: Seq<Part>,
    template: Template,
    other: Seq<char>,
)
    requires
        !master_touches(names, parts, other),
    ensures
        find_part(master_injected(dir, names, parts, template).parts, other)
            == find_part(parts, other),
{
    let n = theme_number(names, parts);
    let rels_data = utf8(MASTER_RELS_START@ + decimal(n) + MASTER_RELS_END@);
    let a = put_part(parts, theme_path(n), template.theme);
    let b = put_part(a, NOTES_MASTER_RELS@, rels_data);
    let p1 = with_master_parts(parts, n, template);
    law_put_part_is_found(parts, theme_path(n), template.theme, other);
    law_put_part_is_found(a, NOTES_MASTER_RELS@, rels_data, other);
    law_put_part_is_found(b, NOTES_MASTER@, template.master, other);
    if let Some(pres_rels) = current(dir, p1, PRESENTATION_RELS@) {
        let rels = rels_of(pres_rels);
        let new_rels = utf8(rels_xml(with_master_rel(rels)));
        let p2 = put_part(p1, PRESENTATION_RELS@, new_rels);
        law_put_part_is_found(p1, PRESENTATION_RELS@, new_rels, other);
        if let Some(pres) = current(dir, p2, PRESENTATION@) {
            let new_pres = utf8(with_master_id(utf8_lossy(pres), next_rid(rels)));
            let p3 = put_part(p2, PRESENTATION@, new_pres);
            law_put_part_is_found(p2, PRESENTATION@, new_pres, other);
            if let Some(types) = current(dir, p3, CONTENT_TYPES@) {
                let new_types = utf8(with_master_types(utf8_lossy(types), n));
                law_put_part_is_found(p3, CONTENT_TYPES@, new_types, other);
            }
        }
    }
}

/// Putting a notes master into a package does not make a name occur twice.
pub proof fn law_master_keeps_names_distinct(
    dir: ZipDirectory,
    names: Seq<Seq<char>>,
    parts: Seq<Part>,
    template: Template,
)
    requires
        distinct_names(parts),
    ensures
        distinct_names(master_injected(dir, names, parts, template).parts),
{
    let n = theme_number(names, parts);
    let rels_data = utf8(MASTER_RELS_START@ + decimal(n) + MASTER_RELS_END@);
    let a = put_part(parts, theme_path(n), template.theme);
    let b = put_part(a, NOTES_MASTER_RELS@, rels_data);
    let p1 = with_master_parts(parts, n, template);
    law_put_part_keeps_names_distinct(parts, theme_path(n), template.theme);
    law_put_part_keeps_names_distinct(a, NOTES_MASTER_RELS@, rels_data);
    law_put_part_keeps_names_distinct(b, NOTES_MASTER@, template.master);
    if let Some(pres_rels) = current(dir, p1, PRESENTATION_RELS@) {
        let rels = rels_of(pres_rels);
        let new_rels = utf8(rels_xml(with_master_rel(rels)));
        let p2 = put_part(p1, PRESENTATION_RELS@, new_rels);
        law_put_part_keeps_names_distinct(p1, PRESENTATION_RELS@, new_rels);
        if let Some(pres) = current(dir, p2, PRESENTATION@) {
            let new_pres = utf8(with_master_id(utf8_lossy(pres), next_rid(rels)));
            let p3 = put_part(p2, PRESENTATION@, new_pres);
            law_put_part_keeps_names_distinct(p2, PRESENTATION@, new_pres);
            if let Some(types) = current(dir, p3, CONTENT_TYPES@) {
                let new_types = utf8(with_master_types(utf8_lossy(types), n));
                law_put_part_keeps_names_distinct(p3, CONTENT_TYPES@, new_types);
            }
        }
    }
}

/// A package that got a notes master has it, and has content types; and no part that is put
/// in is a directory.
pub proof fn lemma_master_is_in(
    dir: ZipDirectory,
    names: Seq<Seq<char>>,
    parts: Seq<Part>,
    template: Template,
    other: Seq<char>,
)
    requires
        master_injected(dir, names, parts, template).result is Ok,
    ensures
        ({
            let injected = master_injected(dir, names, parts, template).parts;
            &&& find_part(injected, NOTES_MASTER@) is Some
            &&& find_part(injected, CONTENT_TYPES@) is Some
            &&& directory_name(other) ==> find_part(injected, other) == find_part(parts, other)
        }),
{
    let n = theme_number(names, parts);
    let rels_data = utf8(MASTER_RELS_START@ + decimal(n) + MASTER_RELS_END@);
    let a = put_part(parts, theme_path(n), template.theme);
    let b = put_part(a, NOTES_MASTER_RELS@, rels_data);
    let p1 = with_master_parts(parts, n, template);
    let rels = rels_of(current(dir, p1, PRESENTATION_RELS@)->0);
    let new_rels = utf8(rels_xml(with_master_rel(rels)));
    let p2 = put_part(p1, PRESENTATION_RELS@, new_rels);
    let pres = current(dir, p2, PRESENTATION@)->0;
    let new_pres = utf8(with_master_id(utf8_lossy(pres), next_rid(rels)));
    let p3 = put_part(p2, PRESENTATION@, new_pres);
    let types = current(dir, p3, CONTENT_TYPES@)->0;
    let new_types = utf8(with_master_types(utf8_lossy(types), n));
    lemma_master_parts_are_files(n);
    law_put_part_is_found(b, NOTES_MASTER@, template.master, NOTES_MASTER@);
    law_put_part_is_found(p1, PRESENTATION_RELS@, new_rels, NOTES_MASTER@);
    law_put_part_is_found(p2, PRESENTATION@, new_pres, NOTES_MASTER@);
    law_put_part_is_found(p3, CONTENT_TYPES@, new_types, NOTES_MASTER@);
    law_put_part_is_found(p3, CONTENT_TYPES@, new_types, CONTENT_TYPES@);
    if directory_name(other) {
        law_master_leaves_other_parts(dir, names, parts, template, other);
    }
}

proof fn lemma_master_parts_are_files(n: nat)
    ensures
        !directory_name(theme_path(n)),
        !directory_name(NOTES_MASTER_RELS@),
        !directory_name(NOTES_MASTER@),
        !directory_name(PRESENTATION_RELS@),
        !directory_name(PRESENTATION@),
        !directory_name(CONTENT_TYPES@),
        NOTES_MASTER@ != PRESENTATION_RELS@,
        NOTES_MASTER@ != PRESENTATION@,
        NOTES_MASTER@ != CONTENT_TYPES@,
        PRESENTATION@ != theme_path(n),
        PRESENTATION@ != NOTES_MASTER_RELS@,
        PRESENTATION@ != PRESENTATION_RELS@,
        PRESENTATION@ != CONTENT_TYPES@,
        PRESENTATION_RELS@ != theme_path(n),
        PRESENTATION_RELS@ != NOTES_MASTER_RELS@,
        PRESENTATION_RELS@ != CONTENT_TYPES@,
        CONTENT_TYPES@ != theme_path(n),
        CONTENT_TYPES@ != NOTES_MASTER_RELS@,
{
    reveal_strlit("ppt/theme/theme");
    assert(theme_path(n)[0] == 'p' && theme_path(n)[4] == 't');
    reveal_strlit(".xml");
    assert(theme_path(n).last() == XML_SUFFIX@.last());
    reveal_strlit("ppt/notesMasters/_rels/notesMaster1.xml.rels");
    reveal_strlit("ppt/notesMasters/notesMaster1.xml");
    reveal_strlit("ppt/_rels/presentation.xml.rels");
    reveal_strlit("ppt/presentation.xml");
    reveal_strlit("[Content_Types].xml");
    assert(NOTES_MASTER@.len() == 33);
    assert(PRESENTATION_RELS@.len() == 31);
    assert(PRESENTATION@.len() == 20);
    assert(CONTENT_TYPES@.len() == 19);
    assert(NOTES_MASTER_RELS@.len() == 44);
    assert(CONTENT_TYPES@[0] == '[');
    assert(PRESENTATION@[4] == 'p' && PRESENTATION_RELS@[4] == '_');
    assert(NOTES_MASTER_RELS@.last() == 's');
    assert(NOTES_MASTER@.last() == 'l');
    assert(PRESENTATION_RELS@.last() == 's');
    assert(PRESENTATION@.last() == 'l');
    assert(CONTENT_TYPES@.last() == 'l');
}

/// What the presentation and its relationships are once a package got a notes master.
pub proof fn lemma_injected_presentation(
    dir: ZipDirectory,
    names: Seq<Seq<char>>,
    template: Template,
)
    requires
        master_injected(dir, names, Seq::empty(), template).result is Ok,
    ensures
        ({
            let injected = master_injected(dir, names, Seq::empty(), template).parts;
            let rels = rels_of(readable_entry(dir, PRESENTATION_RELS@)->0);
            let text = utf8_lossy(readable_entry(dir, PRESENTATION@)->0);
            &&& find_part(injected, PRESENTATION@) == Some(
                utf8(with_master_id(text, next_rid(rels))),
            )
            &&& find_part(injected, PRESENTATION_RELS@) == Some(
                utf8(rels_xml(with_master_rel(rels))),
            )
        }),
{
    let parts = Seq::<Part>::empty();
    let n = theme_number(names, parts);
    let rels_data = utf8(MASTER_RELS_START@ + decimal(n) + MASTER_RELS_END@);
    let a = put_part(parts, theme_path(n), template.theme);
    let b = put_part(a, NOTES_MASTER_RELS@, rels_data);
    let p1 = with_master_parts(parts, n, template);
    lemma_master_parts_are_files(n);
    law_put_part_is_found(parts, theme_path(n), template.theme, PRESENTATION_RELS@);
    law_put_part_is_found(a, NOTES_MASTER_RELS@, rels_data, PRESENTATION_RELS@);
    law_put_part_is_found(b, NOTES_MASTER@, template.master, PRESENTATION_RELS@);
    assert(find_part(parts, PRESENTATION_RELS@) is None);
    assert(find_part(parts, PRESENTATION@) is None);
    let rels = rels_of(readable_entry(dir, PRESENTATION_RELS@)->0);
    let new_rels = utf8(rels_xml(with_master_rel(rels)));
    let p2 = put_part(p1, PRESENTATION_RELS@, new_rels);
    lemma_presentation_before_master(dir, parts, n, template, p2);
    let pres = readable_entry(dir, PRESENTATION@)->0;
    let new_pres = utf8(with_master_id(utf8_lossy(pres), next_rid(rels)));
    let p3 = put_part(p2, PRESENTATION@, new_pres);
    let types = current(dir, p3, CONTENT_TYPES@)->0;
    let new_types = utf8(with_master_types(utf8_lossy(types), n));
    law_put_part_is_found(p1, PRESENTATION_RELS@, new_rels, PRESENTATION_RELS@);
    law_put_part_is_found(p2, PRESENTATION@, new_pres, PRESENTATION_RELS@);
    law_put_part_is_found(p2, PRESENTATION@, new_pres, PRESENTATION@);
    law_put_part_is_found(p3, CONTENT_TYPES@, new_types, PRESENTATION_RELS@);
    law_put_part_is_found(p3, CONTENT_TYPES@, new_types, PRESENTATION@);
}

// ---- what the notes master leads to ----

/// The relationship of the notes master to its theme.
pub open spec fn rel_to_theme(n: nat) -> Rel {
    Rel { id: "rId1"@, ty: "http://schemas.openxmlformats.org/officeDocument/2006/relationships/theme"@, target: "../theme/theme"@ + decimal(n) + ".xml"@ }
}

#[verifier::spinoff_prover]
#[verifier::rlimit(100)]
proof fn lemma_master_rels_start()
    ensures
        MASTER_RELS_START@ == RELS_START@ + ("<Relationship Id=\""@ + "rId1"@ + "\" Type=\""@ + "http://schemas.openxmlformats.org/officeDocument/2006/relationships/theme"@ + "\" Target=\""@ + "../theme/theme"@),
{
    reveal_strlit(
        r#"<?xml version="1.0" encoding="UTF-8" standalone="yes"?>
<Relationships xmlns="http://schemas.openxmlformats.org/package/2006/relationships"><Relationship Id="rId1" Type="http://schemas.openxmlformats.org/officeDocument/2006/relationships/theme" Target="../theme/theme"#,
    );
    reveal_strlit(
        r#"<?xml version="1.0" encoding="UTF-8" standalone="yes"?>
<Relationships xmlns="http://schemas.openxmlformats.org/package/2006/relationships">"#,
    );
    reveal_strlit("<Relationship Id=\"");
    reveal_strlit("rId1");
    reveal_strlit("\" Type=\"");
    reveal_strlit("http://schemas.openxmlformats.org/officeDocument/2006/relationships/theme");
    reveal_strlit("\" Target=\"");
    reveal_strlit("../theme/theme");
    assert(MASTER_RELS_START@ =~= RELS_START@ + ("<Relationship Id=\""@ + "rId1"@ + "\" Type=\""@ + "http://schemas.openxmlformats.org/officeDocument/2006/relationships/theme"@ + "\" Target=\""@ + "../theme/theme"@));
}

#[verifier::spinoff_prover]
proof fn lemma_rel_to_theme_is_plain(n: nat)
    ensures
        written_rel(rel_to_theme(n)) == rel_to_theme(n),
{
    let r = rel_to_theme(n);
    reveal_strlit("rId1");
    reveal_strlit("http://schemas.openxmlformats.org/officeDocument/2006/relationships/theme");
    reveal_strlit("../theme/theme");
    reveal_strlit(".xml");
    law_decimal_reads_back(n);
    let d = decimal(n);
    assert(plain_text(r.id));
    assert(plain_text(r.ty));
    assert forall|i: int| 0 <= i < r.target.len() implies (#[trigger] r.target[i]) != '&'
        && r.target[i] != '<' && r.target[i] != '>' && r.target[i] != '"' by {
        if 14 <= i < 14 + d.len() {
            assert(r.target[i] == d[i - 14]);
            assert(is_digit(d[i - 14]));
        } else if i >= 14 + d.len() {
            assert(r.target[i] == ".xml"@[i - 14 - d.len()]);
        }
    }
    lemma_plain_rel(r);
}

proof fn lemma_master_rels(n: nat)
    ensures
        MASTER_RELS_START@ + decimal(n) + MASTER_RELS_END@ == rels_xml(seq![rel_to_theme(n)]),
{
    let r = rel_to_theme(n);
    lemma_master_rels_start();
    lemma_rel_to_theme_is_plain(n);
    lemma_two_rels_xml(r, r);
    assert(MASTER_RELS_END@ =~= ".xml"@ + "\"/>"@ + "</Relationships>"@) by {
        reveal_strlit(r#".xml"/></Relationships>"#);
        reveal_strlit(".xml");
        reveal_strlit("\"/>");
        reveal_strlit("</Relationships>");
    }
    assert(MASTER_RELS_START@ + decimal(n) + MASTER_RELS_END@ =~= rels_xml(seq![r]));
}

#[verifier::spinoff_prover]
proof fn lemma_theme_name(n: nat)
    ensures
        path_names(seq!["notesMasters"@]),
        path_names(seq!["theme"@, "theme"@ + decimal(n) + ".xml"@]),
{
    reveal_strlit("notesMasters");
    reveal_strlit("..");
    reveal_strlit(".");
    reveal_strlit("theme");
    reveal_strlit(".xml");
    law_decimal_reads_back(n);
    let d = decimal(n);
    let name = "theme"@ + d + ".xml"@;
    assert forall|i: int| 0 <= i < name.len() implies name[i] != '/' by {
        if i < 5 {
            assert(name[i] == "theme"@[i]);
        } else if i < 5 + d.len() {
            assert(name[i] == d[i - 5]);
            assert(is_digit(d[i - 5]));
        } else {
            assert(name[i] == ".xml"@[i - 5 - d.len()]);
        }
    }
    assert(!name.contains('/'));
    assert(name.len() > 5);
    assert("."@.len() == 1 && ".."@.len() == 2 && "theme"@.len() == 5 && "notesMasters"@.len() == 12);
    assert(seq!["theme"@, name][0] == "theme"@ && seq!["theme"@, name][1] == name);
    assert(seq!["notesMasters"@][0] == "notesMasters"@);
}

#[verifier::spinoff_prover]
proof fn lemma_to_theme(n: nat)
    ensures
        resolved("ppt/notesMasters"@, rel_to_theme(n).target) == "ppt/theme/theme"@ + decimal(n)
            + ".xml"@,
{
    let name = "theme"@ + decimal(n) + ".xml"@;
    lemma_theme_name(n);
    lemma_directory_beside("notesMasters"@, "theme"@, name);
    reveal_strlit("ppt");
    reveal_strlit("theme");
    assert("ppt/notesMasters"@ =~= "ppt"@.push('/') + "notesMasters"@) by {
        reveal_strlit("ppt/notesMasters");
        reveal_strlit("notesMasters");
    }
    assert("../theme/theme"@ =~= ".."@.push('/') + "theme"@.push('/') + "theme"@) by {
        reveal_strlit("../theme/theme");
        reveal_strlit("..");
    }
    assert("ppt/theme/theme"@ =~= "ppt"@.push('/') + "theme"@.push('/') + "theme"@) by {
        reveal_strlit("ppt/theme/theme");
    }
    assert(rel_to_theme(n).target =~= ".."@.push('/') + "theme"@.push('/') + name);
    assert("ppt/theme/theme"@ + decimal(n) + ".xml"@ =~= "ppt"@.push('/') + "theme"@.push('/') + name);
}

proof fn lemma_master_names(n: nat)
    ensures
        NOTES_MASTER@ != NOTES_MASTER_RELS@,
        NOTES_MASTER@ != theme_path(n),
        NOTES_MASTER_RELS@ != theme_path(n),
        NOTES_MASTER_RELS@ != PRESENTATION_RELS@,
{
    reveal_strlit("ppt/theme/theme");
    reveal_strlit("ppt/notesMasters/_rels/notesMaster1.xml.rels");
    reveal_strlit("ppt/notesMasters/notesMaster1.xml");
    reveal_strlit("ppt/_rels/presentation.xml.rels");
    assert(theme_path(n)[4] == 't');
    assert(NOTES_MASTER@[4] == 'n' && NOTES_MASTER_RELS@[4] == 'n');
    assert(NOTES_MASTER@.len() == 33 && NOTES_MASTER_RELS@.len() == 44 && PRESENTATION_RELS@.len()
        == 31);
}

/// A package that gets a notes master gets the template's, under the name of the first; its
/// theme, with the least number that no part of the package has; relationships of the notes
/// master of which there is one, to that theme; a relationship of the presentation to the
/// notes master beside those that it has; and that relationship's id in the presentation.
pub proof fn law_notes_master_is_put_in(
    dir: ZipDirectory,
    names: Seq<Seq<char>>,
    parts: Seq<Part>,
    template: Template,
)
    requires
        master_injected(dir, names, parts, template).result is Ok,
    ensures
        ({
            let injected = master_injected(dir, names, parts, template).parts;
            let n = theme_number(names, parts);
            let theme = "ppt/theme/theme"@ + decimal(n) + ".xml"@;
            let rels = rels_of(current(dir, parts, "ppt/_rels/presentation.xml.rels"@)->0);
            let pres = utf8_lossy(current(dir, parts, "ppt/presentation.xml"@)->0);
            let types = utf8_lossy(current(dir, parts, "[Content_Types].xml"@)->0);
            let link = Rel {
                id: next_rid(rels),
                ty: "http://schemas.openxmlformats.org/officeDocument/2006/relationships/notesMaster"@,
                target: "notesMasters/notesMaster1.xml"@,
            };
            &&& n >= 1
            &&& forall|m: nat|
                1 <= m < n ==> (names + part_names(parts)).contains(
                    #[trigger] numbered("ppt/theme/theme"@, m, ".xml"@),
                )
            &&& !names.contains(theme)
            &&& !has_part(parts, theme)
            &&& find_part(injected, theme) == Some(template.theme)
            &&& find_part(injected, "ppt/notesMasters/notesMaster1.xml"@) == Some(template.master)
            &&& find_part(injected, "ppt/notesMasters/_rels/notesMaster1.xml.rels"@) == Some(
                utf8(rels_xml(seq![rel_to_theme(n)])),
            )
            &&& resolved("ppt/notesMasters"@, rel_to_theme(n).target) == theme
            &&& find_part(injected, "ppt/_rels/presentation.xml.rels"@) == Some(
                utf8(rels_xml(rels.push(link))),
            )
            &&& find_part(injected, "ppt/presentation.xml"@) == Some(
                utf8(with_master_id(pres, next_rid(rels))),
            )
            &&& find_part(injected, "[Content_Types].xml"@) == Some(
                utf8(with_master_types(types, n)),
            )
        }),
{
    let n = theme_number(names, parts);
    let rels_data = utf8(MASTER_RELS_START@ + decimal(n) + MASTER_RELS_END@);
    let a = put_part(parts, theme_path(n), template.theme);
    let b = put_part(a, NOTES_MASTER_RELS@, rels_data);
    let p1 = with_master_parts(parts, n, template);
    lemma_master_parts_are_files(n);
    lemma_master_names(n);
    lemma_master_rels(n);
    lemma_to_theme(n);
    law_theme_is_new(names, parts);
    law_free_number_is_least(names + part_names(parts), THEME_START@, XML_SUFFIX@);
    law_put_part_is_found(parts, theme_path(n), template.theme, PRESENTATION_RELS@);
    law_put_part_is_found(a, NOTES_MASTER_RELS@, rels_data, PRESENTATION_RELS@);
    law_put_part_is_found(b, NOTES_MASTER@, template.master, PRESENTATION_RELS@);
    let rels = rels_of(current(dir, parts, PRESENTATION_RELS@)->0);
    let new_rels = utf8(rels_xml(with_master_rel(rels)));
    law_next_rid_is_unused(rels);
    let p2 = put_part(p1, PRESENTATION_RELS@, new_rels);
    lemma_presentation_before_master(dir, parts, n, template, p2);
    let pres = current(dir, parts, PRESENTATION@)->0;
    let new_pres = utf8(with_master_id(utf8_lossy(pres), next_rid(rels)));
    let p3 = put_part(p2, PRESENTATION@, new_pres);
    lemma_types_before_master(dir, parts, n, template, p3);
    let types = current(dir, parts, CONTENT_TYPES@)->0;
    let new_types = utf8(with_master_types(utf8_lossy(types), n));
    let theme = theme_path(n);
    law_put_part_is_found(parts, theme, template.theme, theme);
    law_put_part_is_found(a, NOTES_MASTER_RELS@, rels_data, theme);
    law_put_part_is_found(b, NOTES_MASTER@, template.master, theme);
    law_put_part_is_found(p1, PRESENTATION_RELS@, new_rels, theme);
    law_put_part_is_found(p2, PRESENTATION@, new_pres, theme);
    law_put_part_is_found(p3, CONTENT_TYPES@, new_types, theme);
    law_put_part_is_found(a, NOTES_MASTER_RELS@, rels_data, NOTES_MASTER_RELS@);
    law_put_part_is_found(b, NOTES_MASTER@, template.master, NOTES_MASTER_RELS@);
    law_put_part_is_found(p1, PRESENTATION_RELS@, new_rels, NOTES_MASTER_RELS@);
    law_put_part_is_found(p2, PRESENTATION@, new_pres, NOTES_MASTER_RELS@);
    law_put_part_is_found(p3, CONTENT_TYPES@, new_types, NOTES_MASTER_RELS@);
    law_put_part_is_found(b, NOTES_MASTER@, template.master, NOTES_MASTER@);
    law_put_part_is_found(p1, PRESENTATION_RELS@, new_rels, NOTES_MASTER@);
    law_put_part_is_found(p2, PRESENTATION@, new_pres, NOTES_MASTER@);
    law_put_part_is_found(p3, CONTENT_TYPES@, new_types, NOTES_MASTER@);
    law_put_part_is_found(p1, PRESENTATION_RELS@, new_rels, PRESENTATION_RELS@);
    law_put_part_is_found(p2, PRESENTATION@, new_pres, PRESENTATION_RELS@);
    law_put_part_is_found(p3, CONTENT_TYPES@, new_types, PRESENTATION_RELS@);
    law_put_part_is_found(p2, PRESENTATION@, new_pres, PRESENTATION@);
    law_put_part_is_found(p3, CONTENT_TYPES@, new_types, PRESENTATION@);
    law_put_part_is_found(p3, CONTENT_TYPES@, new_types, CONTENT_TYPES@);
}

/// The list of notes masters stands right after the first end of the list of slide masters,
/// and the entries of the content types right before their first end. Everything else in the
/// two is as it was.
pub proof fn law_notes_master_is_listed(
    a: Seq<char>,
    b: Seq<char>,
    rid: Seq<char>,
    n: nat,
)
    ensures
        (forall|k: int|
            k < a.len() ==> !#[trigger] occurs_at(
                a + "</p:sldMasterIdLst>"@ + b,
                "</p:sldMasterIdLst>"@,
                k,
            )) ==> with_master_id(a + "</p:sldMasterIdLst>"@ + b, rid) == a + (
        "</p:sldMasterIdLst><p:notesMasterIdLst><p:notesMasterId r:id=\""@ + rid
            + "\"/></p:notesMasterIdLst>"@) + b,
        (forall|k: int| k < a.len() ==> !#[trigger] occurs_at(a + "</Types>"@ + b, "</Types>"@, k))
            ==> with_master_types(a + "</Types>"@ + b, n) == a + (MASTER_TYPES_START@ + decimal(n)
            + MASTER_TYPES_END@) + b,
{
    law_first_occurrence_is_replaced(
        a,
        b,
        MASTER_LIST_END@,
        MASTER_ID_START@ + rid + MASTER_ID_END@,
    );
    law_first_occurrence_is_replaced(
        a,
        b,
        TYPES_END@,
        MASTER_TYPES_START@ + decimal(n) + MASTER_TYPES_END@,
    );
}

/// A package that cannot get a notes master is refused with what is missing: the
/// relationships of the presentation, the presentation, the end of its list of slide masters,
/// or the content types, in this order. Otherwise it gets one.
pub proof fn law_notes_master_is_refused(
    dir: ZipDirectory,
    names: Seq<Seq<char>>,
    parts: Seq<Part>,
    template: Template,
)
    ensures
        ({
            let result = master_injected(dir, names, parts, template).result;
            let pres = current(dir, parts, "ppt/presentation.xml"@);
            if current(dir, parts, "ppt/_rels/presentation.xml.rels"@) is None {
                result == Err::<(), Seq<char>>("presentation.xml.rels 읽기 실패"@)
            } else if pres is None {
                result == Err::<(), Seq<char>>("presentation.xml 읽기 실패"@)
            } else if forall|k: int|
                !#[trigger] occurs_at(utf8_lossy(pres->0), "</p:sldMasterIdLst>"@, k) {
                result == Err::<(), Seq<char>>("presentation.xml 구조를 인식할 수 없습니다"@)
            } else if current(dir, parts, "[Content_Types].xml"@) is None {
                result == Err::<(), Seq<char>>("[Content_Types].xml 읽기 실패"@)
            } else {
                result is Ok
            }
        }),
{
    let n = theme_number(names, parts);
    let rels_data = utf8(MASTER_RELS_START@ + decimal(n) + MASTER_RELS_END@);
    let a = put_part(parts, theme_path(n), template.theme);
    let b = put_part(a, NOTES_MASTER_RELS@, rels_data);
    let p1 = with_master_parts(parts, n, template);
    lemma_master_parts_are_files(n);
    law_put_part_is_found(parts, theme_path(n), template.theme, PRESENTATION_RELS@);
    law_put_part_is_found(a, NOTES_MASTER_RELS@, rels_data, PRESENTATION_RELS@);
    law_put_part_is_found(b, NOTES_MASTER@, template.master, PRESENTATION_RELS@);
    if let Some(pres_rels) = current(dir, parts, PRESENTATION_RELS@) {
        let rels = rels_of(pres_rels);
        let p2 = put_part(p1, PRESENTATION_RELS@, utf8(rels_xml(with_master_rel(rels))));
        lemma_presentation_before_master(dir, parts, n, template, p2);
        if let Some(pres) = current(dir, parts, PRESENTATION@) {
            law_first_occurrence_is_found(utf8_lossy(pres), MASTER_LIST_END@);
            let new_pres = utf8(with_master_id(utf8_lossy(pres), next_rid(rels)));
            let p3 = put_part(p2, PRESENTATION@, new_pres);
            lemma_types_before_master(dir, parts, n, template, p3);
        }
    }
}

} // verus!
