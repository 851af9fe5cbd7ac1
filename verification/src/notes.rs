//! Notes parts: their relationships and content type, and the text of existing ones.

use crate::markup::marks_text;
use crate::rels::{
    distinct_ids, id_number, law_number_of_an_id, lemma_directory_beside, lemma_plain_rel,
    lemma_sorted_pair, lemma_two_rels_xml, reads_written_rels, rel_text, rels_of, rels_xml,
    resolved, written_rel, written_rels, Rel, RELS_START,
};
use crate::rewrite::{
    bytes_kept_around_body, law_bytes_around_body_are_kept, law_last_text_wins,
    law_new_slide_takes_another_text, rewritable,
};
use crate::slide::{build_text_body, notes_slide, text_body};
use crate::text::{
    chars_of, decimal, decoded, extend_bytes, find, from_utf8_lossy,
    law_first_occurrence_is_replaced, lemma_decoded_text, occurs_at, outcome, replace_first,
    replaced_first, same_bytes, same_chars, text_of, utf8, utf8_bytes, utf8_lossy,
};
use crate::xml::{
    attribute_decoded, attribute_value, escaped, first_with_key, get_attr, items, joinable,
    law_attribute_text_is_read, law_first_attribute_is_read, plain_text, read_events, reads_markup,
    token_markup, without_key, well_formed, xml_error, xml_escape_attr, xml_items, xml_stream,
    XmlEvent, XmlItem, XmlKind, XmlToken,
};
use vstd::prelude::*;
use vstd::string::StringExecFns;

verus! {

pub const NOTES_RELS_START: &'static str = r#"<?xml version="1.0" encoding="UTF-8" standalone="yes"?>
<Relationships xmlns="http://schemas.openxmlformats.org/package/2006/relationships"><Relationship Id="rId1" Type="http://schemas.openxmlformats.org/officeDocument/2006/relationships/notesMaster" Target="../notesMasters/notesMaster1.xml"/><Relationship Id="rId2" Type="http://schemas.openxmlformats.org/officeDocument/2006/relationships/slide" Target="../slides/"#;

pub const NOTES_RELS_END: &'static str = r#""/></Relationships>"#;

/// The relationships of a notes slide: to the notes master and to its slide.
pub open spec fn notes_rels(slide_file_name: Seq<char>) -> Seq<char> {
    NOTES_RELS_START@ + slide_file_name + NOTES_RELS_END@
}

/// The relationships of a notes slide, as [`notes_rels`] says.
pub fn build_notes_rels_xml(slide_file_name: &str) -> (r: String)
    ensures
        r@ == notes_rels(slide_file_name@),
{
    let mut s = NOTES_RELS_START.to_string();
    s.append(slide_file_name);
    s.append(NOTES_RELS_END);
    s
}

// ---- what a notes slide leads to ----

/// The relationship of a notes slide to the notes master.
pub open spec fn rel_to_master() -> Rel {
    Rel {
        id: "rId1"@,
        ty: "http://schemas.openxmlformats.org/officeDocument/2006/relationships/notesMaster"@,
        target: "../notesMasters/notesMaster1.xml"@,
    }
}

/// The relationship of a notes slide to the slide with the given file name.
pub open spec fn rel_to_slide(name: Seq<char>) -> Rel {
    Rel {
        id: "rId2"@,
        ty: "http://schemas.openxmlformats.org/officeDocument/2006/relationships/slide"@,
        target: "../slides/"@ + name,
    }
}

#[verifier::spinoff_prover]
#[verifier::rlimit(100)]
proof fn lemma_notes_rels_start()
    ensures
        NOTES_RELS_START@ == RELS_START@ + r#"<Relationship Id="rId1" Type="http://schemas.openxmlformats.org/officeDocument/2006/relationships/notesMaster" Target="../notesMasters/notesMaster1.xml"/>"#@ + r#"<Relationship Id="rId2" Type="http://schemas.openxmlformats.org/officeDocument/2006/relationships/slide" Target="../slides/"#@,
{
    reveal_strlit(
        r#"<?xml version="1.0" encoding="UTF-8" standalone="yes"?>
<Relationships xmlns="http://schemas.openxmlformats.org/package/2006/relationships"><Relationship Id="rId1" Type="http://schemas.openxmlformats.org/officeDocument/2006/relationships/notesMaster" Target="../notesMasters/notesMaster1.xml"/><Relationship Id="rId2" Type="http://schemas.openxmlformats.org/officeDocument/2006/relationships/slide" Target="../slides/"#,
    );
    reveal_strlit(
        r#"<?xml version="1.0" encoding="UTF-8" standalone="yes"?>
<Relationships xmlns="http://schemas.openxmlformats.org/package/2006/relationships">"#,
    );
    reveal_strlit(
        r#"<Relationship Id="rId1" Type="http://schemas.openxmlformats.org/officeDocument/2006/relationships/notesMaster" Target="../notesMasters/notesMaster1.xml"/>"#,
    );
    reveal_strlit(
        r#"<Relationship Id="rId2" Type="http://schemas.openxmlformats.org/officeDocument/2006/relationships/slide" Target="../slides/"#,
    );
    assert(NOTES_RELS_START@ =~= RELS_START@ + r#"<Relationship Id="rId1" Type="http://schemas.openxmlformats.org/officeDocument/2006/relationships/notesMaster" Target="../notesMasters/notesMaster1.xml"/>"#@ + r#"<Relationship Id="rId2" Type="http://schemas.openxmlformats.org/officeDocument/2006/relationships/slide" Target="../slides/"#@);
}

#[verifier::spinoff_prover]
#[verifier::rlimit(100)]
proof fn lemma_rel_to_master()
    ensures
        rel_text(rel_to_master().id, rel_to_master().ty, rel_to_master().target) == r#"<Relationship Id="rId1" Type="http://schemas.openxmlformats.org/officeDocument/2006/relationships/notesMaster" Target="../notesMasters/notesMaster1.xml"/>"#@,
        plain_text(rel_to_master().id),
        plain_text(rel_to_master().ty),
        plain_text(rel_to_master().target),
{
    reveal_strlit("<Relationship Id=\"");
    reveal_strlit("\" Type=\"");
    reveal_strlit("\" Target=\"");
    reveal_strlit("\"/>");
    reveal_strlit("rId1");
    reveal_strlit("http://schemas.openxmlformats.org/officeDocument/2006/relationships/notesMaster");
    reveal_strlit("../notesMasters/notesMaster1.xml");
    reveal_strlit(
        r#"<Relationship Id="rId1" Type="http://schemas.openxmlformats.org/officeDocument/2006/relationships/notesMaster" Target="../notesMasters/notesMaster1.xml"/>"#,
    );
    assert(rel_text(rel_to_master().id, rel_to_master().ty, rel_to_master().target) =~= r#"<Relationship Id="rId1" Type="http://schemas.openxmlformats.org/officeDocument/2006/relationships/notesMaster" Target="../notesMasters/notesMaster1.xml"/>"#@);
}

#[verifier::spinoff_prover]
#[verifier::rlimit(100)]
proof fn lemma_rel_to_slide(name: Seq<char>)
    requires
        plain_text(name),
    ensures
        rel_text(rel_to_slide(name).id, rel_to_slide(name).ty, rel_to_slide(name).target)
            == r#"<Relationship Id="rId2" Type="http://schemas.openxmlformats.org/officeDocument/2006/relationships/slide" Target="../slides/"#@ + name + "\"/>"@,
        plain_text(rel_to_slide(name).id),
        plain_text(rel_to_slide(name).ty),
        plain_text(rel_to_slide(name).target),
{
    reveal_strlit("<Relationship Id=\"");
    reveal_strlit("\" Type=\"");
    reveal_strlit("\" Target=\"");
    reveal_strlit("rId2");
    reveal_strlit("http://schemas.openxmlformats.org/officeDocument/2006/relationships/slide");
    reveal_strlit("../slides/");
    reveal_strlit(
        r#"<Relationship Id="rId2" Type="http://schemas.openxmlformats.org/officeDocument/2006/relationships/slide" Target="../slides/"#,
    );
    let start = "<Relationship Id=\""@ + "rId2"@ + "\" Type=\""@ + rel_to_slide(name).ty
        + "\" Target=\""@ + "../slides/"@;
    assert(start =~= r#"<Relationship Id="rId2" Type="http://schemas.openxmlformats.org/officeDocument/2006/relationships/slide" Target="../slides/"#@);
    assert(rel_text(rel_to_slide(name).id, rel_to_slide(name).ty, rel_to_slide(name).target)
        =~= start + name + "\"/>"@);
    let target = "../slides/"@ + name;
    assert forall|i: int| 0 <= i < target.len() implies (#[trigger] target[i]) != '&' && target[i]
        != '<' && target[i] != '>' && target[i] != '"' by {
        if i >= 10 {
            assert(target[i] == name[i - 10]);
        }
    }
}

/// The relationships of a notes slide are two that could have been written one by one.
proof fn lemma_notes_rels(name: Seq<char>)
    requires
        plain_text(name),
    ensures
        notes_rels(name) == rels_xml(seq![rel_to_master(), rel_to_slide(name)]),
        written_rel(rel_to_master()) == rel_to_master(),
        written_rel(rel_to_slide(name)) == rel_to_slide(name),
        id_number("rId1"@) == 1,
        id_number("rId2"@) == 2,
{
    let a = rel_to_master();
    let b = rel_to_slide(name);
    lemma_notes_rels_start();
    lemma_rel_to_master();
    lemma_rel_to_slide(name);
    lemma_plain_rel(a);
    lemma_plain_rel(b);
    law_number_of_an_id(Seq::empty(), 1);
    law_number_of_an_id(Seq::empty(), 2);
    assert("rId1"@ =~= "rId"@ + decimal(1)) by {
        reveal_strlit("rId1");
        reveal_strlit("rId");
    }
    assert("rId2"@ =~= "rId"@ + decimal(2)) by {
        reveal_strlit("rId2");
        reveal_strlit("rId");
    }
    lemma_two_rels_xml(a, b);
    assert(NOTES_RELS_END@ =~= "\"/>"@ + "</Relationships>"@) by {
        reveal_strlit(r#""/></Relationships>"#);
        reveal_strlit("\"/>");
        reveal_strlit("</Relationships>");
    }
    assert(notes_rels(name) =~= rels_xml(seq![a, b]));
}

#[verifier::spinoff_prover]
proof fn lemma_back_to_slide(name: Seq<char>)
    requires
        name.len() > 0,
        !name.contains('/'),
        name != "."@,
        name != ".."@,
    ensures
        resolved("ppt/notesSlides"@, "../slides/"@ + name) == "ppt/slides/"@ + name,
{
    reveal_strlit("ppt");
    reveal_strlit("..");
    reveal_strlit(".");
    reveal_strlit("slides");
    reveal_strlit("notesSlides");
    assert("slides"@.len() == 6 && "notesSlides"@.len() == 11 && ".."@.len() == 2 && "."@.len() == 1);
    assert(seq!["notesSlides"@][0] == "notesSlides"@);
    assert(seq!["slides"@, name][0] == "slides"@ && seq!["slides"@, name][1] == name);
    lemma_directory_beside("notesSlides"@, "slides"@, name);
    assert("ppt/notesSlides"@ =~= "ppt"@.push('/') + "notesSlides"@) by {
        reveal_strlit("ppt/notesSlides");
    }
    assert("../slides/"@ + name =~= ".."@.push('/') + "slides"@.push('/') + name) by {
        reveal_strlit("../slides/");
    }
    assert("ppt/slides/"@ + name =~= "ppt"@.push('/') + "slides"@.push('/') + name) by {
        reveal_strlit("ppt/slides/");
    }
}

#[verifier::spinoff_prover]
proof fn lemma_to_master()
    ensures
        resolved("ppt/notesSlides"@, "../notesMasters/notesMaster1.xml"@)
            == "ppt/notesMasters/notesMaster1.xml"@,
{
    let name = "notesMaster1.xml"@;
    reveal_strlit("ppt");
    reveal_strlit("..");
    reveal_strlit(".");
    reveal_strlit("notesMasters");
    reveal_strlit("notesMaster1.xml");
    reveal_strlit("notesSlides");
    assert("notesMasters"@.len() == 12 && "notesSlides"@.len() == 11 && ".."@.len() == 2 && "."@.len()
        == 1 && name.len() == 16);
    assert(seq!["notesSlides"@][0] == "notesSlides"@);
    assert(seq!["notesMasters"@, name][0] == "notesMasters"@ && seq!["notesMasters"@, name][1]
        == name);
    lemma_directory_beside("notesSlides"@, "notesMasters"@, name);
    assert("ppt/notesSlides"@ =~= "ppt"@.push('/') + "notesSlides"@) by {
        reveal_strlit("ppt/notesSlides");
    }
    assert("../notesMasters/notesMaster1.xml"@ =~= ".."@.push('/') + "notesMasters"@.push('/') + name) by {
        reveal_strlit("../notesMasters/notesMaster1.xml");
    }
    assert("ppt/notesMasters/notesMaster1.xml"@ =~= "ppt"@.push('/') + "notesMasters"@.push('/')
        + name) by {
        reveal_strlit("ppt/notesMasters/notesMaster1.xml");
    }
}

/// The relationships of a new notes slide are read as exactly two: one to the notes master,
/// and one to the slide that the notes are for, by its whole file name.
pub proof fn law_notes_slide_leads_to_its_slide(name: Seq<char>, xml: Seq<u8>)
    requires
        plain_text(name),
        name.len() > 0,
        !name.contains('/'),
        name != "."@,
        name != ".."@,
        xml == utf8(notes_rels(name)),
        reads_written_rels(xml, rels_of(xml)),
    ensures
        rels_of(xml) == seq![rel_to_master(), rel_to_slide(name)],
        rels_of(xml).len() == 2,
        rels_of(xml)[0].ty
            == "http://schemas.openxmlformats.org/officeDocument/2006/relationships/notesMaster"@,
        resolved("ppt/notesSlides"@, rels_of(xml)[0].target) == "ppt/notesMasters/notesMaster1.xml"@,
        rels_of(xml)[1].ty
            == "http://schemas.openxmlformats.org/officeDocument/2006/relationships/slide"@,
        resolved("ppt/notesSlides"@, rels_of(xml)[1].target) == "ppt/slides/"@ + name,
{
    lemma_notes_rels(name);
    lemma_back_to_slide(name);
    lemma_to_master();
    let rels = seq![rel_to_master(), rel_to_slide(name)];
    assert(rels[0].id == "rId1"@ && rels[1].id == "rId2"@);
    assert(distinct_ids(rels));
    lemma_sorted_pair(rel_to_master(), rel_to_slide(name));
    assert(rels_of(xml) == written_rels(rels));
    assert(written_rels(rels) =~= rels);
}

/// Whatever the file name of the slide is, it stands as it is in the relationships of its
/// notes slide, and what stands before and after it is always the same.
pub proof fn law_notes_rels_differ_in_the_name_only(name: Seq<char>, other: Seq<char>)
    ensures
        exists|before: Seq<char>, after: Seq<char>|
            notes_rels(name) == #[trigger] (before + name + after) && notes_rels(other) == before
                + other + after,
{
    assert(notes_rels(name) == NOTES_RELS_START@ + name + NOTES_RELS_END@);
}

// ---- content types ----

pub const TYPES_END: &'static str = "</Types>";

pub const OVERRIDE_START: &'static str = "<Override PartName=\"";

pub const NOTES_OVERRIDE_END: &'static str = "\" ContentType=\"application/vnd.openxmlformats-officedocument.presentationml.notesSlide+xml\"/></Types>";

/// A content types part in which the named part is a notes slide. Without an end
/// tag `</Types>` nothing is added.
pub open spec fn with_notes_type(xml: Seq<u8>, part_name: Seq<char>) -> Seq<u8> {
    utf8(with_notes_type_in(utf8_lossy(xml), part_name))
}

/// The text of a content types part in which the named part is a notes slide.
pub open spec fn with_notes_type_in(types: Seq<char>, part_name: Seq<char>) -> Seq<char> {
    replaced_first(
        types,
        TYPES_END@,
        OVERRIDE_START@ + escaped(part_name, true) + NOTES_OVERRIDE_END@,
    )
}

/// A text with the first occurrence of `pattern` replaced, in UTF-8.
pub fn replace_in_xml(xml: &[u8], pattern: &str, to: &str) -> (r: Vec<u8>)
    ensures
        r@ == utf8(replaced_first(utf8_lossy(xml@), pattern@, to@)),
        decoded(xml@),
{
    let s = chars_of(from_utf8_lossy(xml).as_str());
    let replaced = replace_first(s.as_slice(), chars_of(pattern).as_slice(), chars_of(to).as_slice());
    utf8_bytes(text_of(replaced.as_slice()).as_str())
}

/// Adds a notes slide to the content types, as [`with_notes_type`] says.
pub fn add_content_type_override(xml: &[u8], part_name: &str) -> (r: Vec<u8>)
    ensures
        r@ == with_notes_type(xml@, part_name@),
        decoded(xml@),
        forall|s: Seq<char>|
            xml@ == #[trigger] utf8(s) ==> r@ == utf8(with_notes_type_in(s, part_name@)),
{
    let mut insertion = OVERRIDE_START.to_string();
    insertion.append(xml_escape_attr(part_name).as_str());
    insertion.append(NOTES_OVERRIDE_END);
    let r = replace_in_xml(xml, TYPES_END, insertion.as_str());
    proof {
        assert forall|s: Seq<char>| xml@ == #[trigger] utf8(s) implies utf8_lossy(xml@) == s by {
            lemma_decoded_text(s);
        }
    }
    r
}

/// In content types that are UTF-8 and have an end tag, the entry for a notes slide stands
/// before the first of these, and everything else is as it was.
pub proof fn law_notes_type_is_added(a: Seq<char>, b: Seq<char>, part_name: Seq<char>)
    requires
        decoded(utf8(a + TYPES_END@ + b)),
        find(a + TYPES_END@ + b, TYPES_END@) == Some(a.len() as int),
    ensures
        with_notes_type(utf8(a + TYPES_END@ + b), part_name) == utf8(
            a + OVERRIDE_START@ + escaped(part_name, true) + NOTES_OVERRIDE_END@ + b,
        ),
{
    let s = a + TYPES_END@ + b;
    lemma_decoded_text(s);
    assert(s.take(a.len() as int) =~= a);
    assert(s.skip(a.len() as int + TYPES_END@.len()) =~= b);
    assert(a + (OVERRIDE_START@ + escaped(part_name, true) + NOTES_OVERRIDE_END@) + b =~= a
        + OVERRIDE_START@ + escaped(part_name, true) + NOTES_OVERRIDE_END@ + b);
}

/// In content types with an end tag, the entry for a notes slide stands right before the
/// first of these, with the whole name of the part, and everything else is as it was; without
/// one nothing changes.
pub proof fn law_notes_type_stands_before_the_end(
    a: Seq<char>,
    b: Seq<char>,
    part_name: Seq<char>,
)
    ensures
        (forall|k: int| k < a.len() ==> !#[trigger] occurs_at(a + "</Types>"@ + b, "</Types>"@, k))
            ==> with_notes_type_in(a + "</Types>"@ + b, part_name) == a + (
        "<Override PartName=\""@ + escaped(part_name, true)
            + "\" ContentType=\"application/vnd.openxmlformats-officedocument.presentationml.notesSlide+xml\"/></Types>"@)
            + b,
        (forall|k: int| !#[trigger] occurs_at(a, "</Types>"@, k)) ==> with_notes_type_in(
            a,
            part_name,
        ) == a,
        decoded(utf8(a)) ==> with_notes_type(utf8(a), part_name) == utf8(
            with_notes_type_in(a, part_name),
        ),
{
    if decoded(utf8(a)) {
        lemma_decoded_text(a);
    }
    law_first_occurrence_is_replaced(
        a,
        b,
        TYPES_END@,
        OVERRIDE_START@ + escaped(part_name, true) + NOTES_OVERRIDE_END@,
    );
}

// ---- the text of an existing notes slide ----

/// Where a walk through a notes slide stands: how many elements are open, at which
/// depth the current shape was opened (-1 outside shapes), and whether that shape
/// has a placeholder for notes text.
pub struct Shape {
    pub depth: int,
    pub shape_depth: int,
    pub is_body: bool,
}

/// Placeholders of these types hold no notes text.
pub open spec fn non_body_type(ty: Seq<char>) -> bool {
    ||| ty == "sldImg"@
    ||| ty == "sldNum"@
    ||| ty == "dt"@
    ||| ty == "ftr"@
    ||| ty == "hdr"@
    ||| ty == "title"@
    ||| ty == "ctrTitle"@
    ||| ty == "subTitle"@
}

/// Whether an event is a placeholder for notes text.
pub open spec fn body_placeholder(e: XmlItem) -> bool {
    &&& e.kind == XmlKind::Empty
    &&& e.name == utf8("p:ph"@)
    &&& match attribute_value(e.attributes, utf8("type"@)) {
        Some(ty) => !non_body_type(ty),
        None => true,
    }
}

/// Where the walk stands after one more event.
pub open spec fn shape_step(s: Shape, e: XmlItem) -> Shape {
    if e.kind == XmlKind::Start {
        if e.name == utf8("p:sp"@) {
            Shape { depth: s.depth + 1, shape_depth: s.depth + 1, is_body: false }
        } else {
            Shape { depth: s.depth + 1, ..s }
        }
    } else if e.kind == XmlKind::End {
        if e.name == utf8("p:sp"@) && s.shape_depth == s.depth {
            Shape { depth: s.depth - 1, shape_depth: -1, is_body: false }
        } else {
            Shape { depth: s.depth - 1, ..s }
        }
    } else if body_placeholder(e) && s.shape_depth != -1 {
        Shape { is_body: true, ..s }
    } else {
        s
    }
}

/// Where the walk stands after the given events.
pub open spec fn shape_after(events: Seq<XmlItem>) -> Shape
    decreases events.len(),
{
    if events.len() == 0 {
        Shape { depth: 0, shape_depth: -1, is_body: false }
    } else {
        shape_step(shape_after(events.drop_last()), events.last())
    }
}

/// Whether the text of the notes starts at the given event.
pub open spec fn body_starts_at(events: Seq<XmlItem>, i: int) -> bool {
    &&& events[i].kind == XmlKind::Start
    &&& events[i].name == utf8("p:txBody"@)
    &&& shape_after(events.take(i)).shape_depth != -1
    &&& shape_after(events.take(i)).is_body
}

/// The first event from `i` on at which the text of the notes starts.
pub open spec fn body_start_from(events: Seq<XmlItem>, i: int) -> Option<int>
    decreases events.len() - i,
{
    if i < 0 || i >= events.len() {
        None
    } else if body_starts_at(events, i) {
        Some(i)
    } else {
        body_start_from(events, i + 1)
    }
}

/// The first event at which the text of the notes starts.
pub open spec fn body_start(events: Seq<XmlItem>) -> Option<int> {
    body_start_from(events, 0)
}

/// Where the events continue after a text body that is open at event `i`.
pub open spec fn after_body(events: Seq<XmlItem>, i: int) -> int
    decreases events.len() - i,
{
    if i < 0 || i >= events.len() {
        events.len() as int
    } else if events[i].kind == XmlKind::End && events[i].name == utf8("p:txBody"@) {
        i + 1
    } else {
        after_body(events, i + 1)
    }
}

/// Events as markup.
pub open spec fn raw_of(events: Seq<XmlItem>) -> Seq<u8>
    decreases events.len(),
{
    if events.len() == 0 {
        Seq::empty()
    } else {
        raw_of(events.drop_last()) + events.last().raw
    }
}

/// The events as markup with a new text in place of the notes text, if they hold
/// one.
pub open spec fn with_body(events: Seq<XmlItem>, text: Seq<char>) -> Option<Seq<u8>> {
    match body_start(events) {
        Some(i) => Some(
            raw_of(events.take(i)) + utf8(marks_text(text_body(text))) + raw_of(
                events.skip(after_body(events, i + 1)),
            ),
        ),
        None => None,
    }
}

pub const NO_NOTES_BODY: &'static str = "메모 텍스트 상자를 찾지 못했습니다";

/// A notes slide with a new text, or why it cannot have one.
pub open spec fn notes_with_text(xml: Seq<u8>, text: Seq<char>) -> Result<Seq<u8>, Seq<char>> {
    match xml_error(xml, false) {
        Some(m) => Err(m),
        None => match with_body(xml_items(xml, false), text) {
            Some(b) => Ok(b),
            None => Err(NO_NOTES_BODY@),
        },
    }
}

/// Whether the type of a placeholder is read as the text it is.
pub open spec fn placeholder_decoded(e: XmlItem) -> bool {
    e.kind == XmlKind::Empty && e.name == utf8("p:ph"@) ==> attribute_decoded(
        e.attributes,
        utf8("type"@),
    )
}

/// Whether that holds of every placeholder up to the text of the notes.
pub open spec fn placeholders_decoded(events: Seq<XmlItem>) -> bool {
    forall|i: int|
        0 <= i < events.len() && (body_start(events) matches Some(t) ==> i < t)
            ==> placeholder_decoded(#[trigger] events[i])
}

/// What reading a notes slide is sure of: joined markup is read as what it was joined of,
/// tags match, and the types of placeholders are read as they are.
pub open spec fn slide_read(xml: Seq<u8>) -> bool {
    &&& reads_markup(xml, xml_stream(xml, false))
    &&& well_formed(xml_stream(xml, false).tokens)
    &&& xml_error(xml, false) is None ==> placeholders_decoded(xml_items(xml, false))
}

fn is_non_body_type(ty: &str) -> (r: bool)
    ensures
        r == non_body_type(ty@),
{
    let t = chars_of(ty);
    same_chars(t.as_slice(), chars_of("sldImg").as_slice())
        || same_chars(t.as_slice(), chars_of("sldNum").as_slice())
        || same_chars(t.as_slice(), chars_of("dt").as_slice())
        || same_chars(t.as_slice(), chars_of("ftr").as_slice())
        || same_chars(t.as_slice(), chars_of("hdr").as_slice())
        || same_chars(t.as_slice(), chars_of("title").as_slice())
        || same_chars(t.as_slice(), chars_of("ctrTitle").as_slice())
        || same_chars(t.as_slice(), chars_of("subTitle").as_slice())
}

fn is_body_placeholder(e: &XmlEvent) -> (r: bool)
    ensures
        r == body_placeholder(e@),
        placeholder_decoded(e@),
{
    if e.kind != XmlKind::Empty || !same_bytes(e.name.as_slice(), "p:ph".as_bytes()) {
        return false;
    }
    match get_attr(e, "type".as_bytes()) {
        Some(ty) => !is_non_body_type(ty.as_str()),
        None => true,
    }
}

fn find_body_start(events: &Vec<XmlEvent>) -> (r: Option<usize>)
    ensures
        match r {
            Some(i) => i < events@.len() && body_start(items(events@)) == Some(i as int),
            None => body_start(items(events@)) is None,
        },
        placeholders_decoded(items(events@)),
{
    let mut depth: i128 = 0;
    let mut shape_depth: i128 = -1;
    let mut is_body = false;
    let mut i: usize = 0;
    while i < events.len()
        invariant
            i <= events@.len(),
            -(i as int) <= depth <= i,
            shape_after(items(events@).take(i as int)) == (Shape {
                depth: depth as int,
                shape_depth: shape_depth as int,
                is_body,
            }),
            body_start(items(events@)) == body_start_from(items(events@), i as int),
            forall|k: int| 0 <= k < i ==> placeholder_decoded(#[trigger] items(events@)[k]),
        decreases events@.len() - i,
    {
        let e = &events[i];
        let ghost all = items(events@);
        assert(all.take(i + 1).drop_last() == all.take(i as int));
        assert(all[i as int] == e@);
        assert(all.take(i + 1).last() == e@);
        if e.kind == XmlKind::Start {
            if same_bytes(e.name.as_slice(), "p:txBody".as_bytes()) && shape_depth != -1 && is_body {
                return Some(i);
            }
            depth = depth + 1;
            if same_bytes(e.name.as_slice(), "p:sp".as_bytes()) {
                shape_depth = depth;
                is_body = false;
            }
        } else if e.kind == XmlKind::End {
            if same_bytes(e.name.as_slice(), "p:sp".as_bytes()) && shape_depth == depth {
                shape_depth = -1;
                is_body = false;
            }
            depth = depth - 1;
        } else if is_body_placeholder(e) && shape_depth != -1 {
            is_body = true;
        }
        i = i + 1;
    }
    None
}

fn find_after_body(events: &Vec<XmlEvent>, from: usize) -> (r: usize)
    requires
        from <= events@.len(),
    ensures
        from <= r <= events@.len(),
        r == after_body(items(events@), from as int),
{
    let mut i: usize = from;
    while i < events.len()
        invariant
            from <= i <= events@.len(),
            after_body(items(events@), from as int) == after_body(items(events@), i as int),
        decreases events@.len() - i,
    {
        assert(items(events@)[i as int] == events@[i as int]@);
        if events[i].kind == XmlKind::End && same_bytes(
            events[i].name.as_slice(),
            "p:txBody".as_bytes(),
        ) {
            return i + 1;
        }
        i = i + 1;
    }
    i
}

fn append_raw(out: &mut Vec<u8>, events: &Vec<XmlEvent>, from: usize, to: usize)
    requires
        from <= to <= events@.len(),
    ensures
        final(out)@ == old(out)@ + raw_of(items(events@).subrange(from as int, to as int)),
{
    let ghost start = out@;
    let mut i: usize = from;
    assert(items(events@).subrange(from as int, from as int) =~= Seq::<XmlItem>::empty());
    assert(start + Seq::<u8>::empty() == start);
    while i < to
        invariant
            from <= i <= to <= events@.len(),
            out@ == start + raw_of(items(events@).subrange(from as int, i as int)),
        decreases to - i,
    {
        let ghost part = items(events@).subrange(from as int, i + 1);
        assert(part.drop_last() == items(events@).subrange(from as int, i as int));
        assert(part.last() == events@[i as int]@);
        let ghost before = out@;
        extend_bytes(out, events[i].raw.as_slice());
        assert(out@ =~= start + raw_of(part));
        i = i + 1;
    }
}

/// The events as markup with a new notes text, as [`with_body`] says.
pub fn replace_body(events: &Vec<XmlEvent>, text: &str) -> (r: Option<Vec<u8>>)
    ensures
        match r {
            Some(b) => with_body(items(events@), text@) == Some(b@),
            None => with_body(items(events@), text@) is None,
        },
        placeholders_decoded(items(events@)),
{
    match find_body_start(events) {
        None => None,
        Some(start) => {
            assert(start < events.len());
            let rest: usize = find_after_body(events, start + 1);
            let body = build_text_body(text);
            let mut out: Vec<u8> = Vec::new();
            append_raw(&mut out, events, 0, start);
            extend_bytes(&mut out, body.as_str().as_bytes());
            append_raw(&mut out, events, rest, events.len());
            let ghost all = items(events@);
            assert(all.subrange(0, start as int) == all.take(start as int));
            assert(all.subrange(rest as int, all.len() as int) == all.skip(rest as int));
            assert(out@ =~= raw_of(all.take(start as int)) + utf8(marks_text(text_body(text@))) + raw_of(
                all.skip(rest as int),
            ));
            Some(out)
        },
    }
}

/// A notes slide with a new text, as [`notes_with_text`] says.
///
/// A slide that came of an earlier call is as if that call had not been made; a new notes
/// slide becomes the new notes slide with the text; and a slide that is the markup of its
/// events keeps every byte outside its notes text.
pub fn set_notes_body_text(xml: &[u8], text: &str) -> (r: Result<Vec<u8>, String>)
    ensures
        outcome(r) == notes_with_text(xml@, text@),
        slide_read(xml@),
        forall|before: Seq<u8>, first: Seq<char>|
            rewritable(before) && #[trigger] notes_with_text(before, first) == Ok::<
                Seq<u8>,
                Seq<char>,
            >(xml@) ==> outcome(r) == notes_with_text(before, text@) && r is Ok,
        forall|first: Seq<char>|
            xml@ == utf8(#[trigger] notes_slide(first)) ==> outcome(r) == Ok::<Seq<u8>, Seq<char>>(
                utf8(notes_slide(text@)),
            ),
        forall|tokens: Seq<XmlToken>|
            joinable(tokens) && xml@ == #[trigger] token_markup(tokens) ==> (r matches Ok(b)
                ==> bytes_kept_around_body(xml@, text@, b@)),
{
    let (events, error) = read_events(xml, false);
    let r = match error {
        Some(m) => Err(m),
        None => match replace_body(&events, text) {
            Some(b) => Ok(b),
            None => Err(NO_NOTES_BODY.to_string()),
        },
    };
    proof {
        assert forall|before: Seq<u8>, first: Seq<char>|
            rewritable(before) && #[trigger] notes_with_text(before, first) == Ok::<
                Seq<u8>,
                Seq<char>,
            >(xml@) implies outcome(r) == notes_with_text(before, text@) && r is Ok by {
            law_last_text_wins(before, first, xml@, text@);
        }
        assert forall|first: Seq<char>| xml@ == utf8(#[trigger] notes_slide(first)) implies outcome(
            r,
        ) == Ok::<Seq<u8>, Seq<char>>(utf8(notes_slide(text@))) by {
            law_new_slide_takes_another_text(first, text@);
        }
        assert forall|tokens: Seq<XmlToken>|
            joinable(tokens) && xml@ == #[trigger] token_markup(tokens) implies (r matches Ok(b)
            ==> bytes_kept_around_body(xml@, text@, b@)) by {
            if let Ok(b) = r {
                law_bytes_around_body_are_kept(xml@, tokens, text@, b@);
            }
        }
    }
    r
}

/// Whether a self-closed `p:ph` is a placeholder for notes text depends on its type alone:
/// it is one where no attribute is its type, whatever attributes it has, and where the type
/// is any text but the eight for pictures, numbers, dates, footers, headers and titles.
pub proof fn law_placeholder_depends_on_its_type(e: XmlItem)
    requires
        e.kind == XmlKind::Empty,
        e.name == utf8("p:ph"@),
        attribute_decoded(e.attributes, utf8("type"@)),
    ensures
        (forall|i: int|
            0 <= i < e.attributes.len() && (#[trigger] e.attributes[i]) is Some ==> (
            e.attributes[i]->0).0 != utf8("type"@)) ==> body_placeholder(e),
        forall|j: int, ty: Seq<char>|
            #![trigger first_with_key(e.attributes, utf8("type"@), j), utf8(ty)]
            first_with_key(e.attributes, utf8("type"@), j) && (e.attributes[j]->0).1 == utf8(ty)
                ==> (body_placeholder(e) <==> !seq![
                "sldImg"@,
                "sldNum"@,
                "dt"@,
                "ftr"@,
                "hdr"@,
                "title"@,
                "ctrTitle"@,
                "subTitle"@,
            ].contains(ty)),
{
    let key = utf8("type"@);
    law_first_attribute_is_read(e.attributes, key);
    assert forall|j: int, ty: Seq<char>|
        #![trigger first_with_key(e.attributes, key, j), utf8(ty)]
        first_with_key(e.attributes, key, j) && (e.attributes[j]->0).1 == utf8(ty) implies (
    body_placeholder(e) <==> !seq![
        "sldImg"@,
        "sldNum"@,
        "dt"@,
        "ftr"@,
        "hdr"@,
        "title"@,
        "ctrTitle"@,
        "subTitle"@,
    ].contains(ty)) by {
        law_attribute_text_is_read(e.attributes, key, j, ty);
        let listed = seq![
            "sldImg"@,
            "sldNum"@,
            "dt"@,
            "ftr"@,
            "hdr"@,
            "title"@,
            "ctrTitle"@,
            "subTitle"@,
        ];
        assert(listed[0] == "sldImg"@ && listed[1] == "sldNum"@ && listed[2] == "dt"@ && listed[3]
            == "ftr"@ && listed[4] == "hdr"@ && listed[5] == "title"@ && listed[6] == "ctrTitle"@
            && listed[7] == "subTitle"@);
        if listed.contains(ty) {
            let k = choose|k: int| 0 <= k < listed.len() && listed[k] == ty;
            assert(non_body_type(ty));
        }
    }
}

/// Only a self-closed tag `p:ph` is a placeholder: neither a start tag of that name nor any
/// other event is.
pub proof fn law_only_self_closed_tags_are_placeholders(e: XmlItem)
    requires
        e.kind != XmlKind::Empty || e.name != utf8("p:ph"@),
    ensures
        !body_placeholder(e),
{
}

/// Whether two events have one type, or both none.
pub open spec fn same_type(a: XmlItem, b: XmlItem) -> bool {
    ||| without_key(a.attributes, utf8("type"@)) && without_key(b.attributes, utf8("type"@))
    ||| exists|i: int, j: int|
        #[trigger] first_with_key(a.attributes, utf8("type"@), i) && #[trigger] first_with_key(
            b.attributes,
            utf8("type"@),
            j,
        ) && (a.attributes[i]->0).1 == (b.attributes[j]->0).1
}

/// Two self-closed `p:ph` with one type, or both without, are both placeholders for notes
/// text or neither is, whatever else stands in them.
pub proof fn law_placeholders_of_one_type_agree(a: XmlItem, b: XmlItem)
    requires
        a.kind == XmlKind::Empty,
        b.kind == XmlKind::Empty,
        a.name == utf8("p:ph"@),
        b.name == utf8("p:ph"@),
        same_type(a, b),
    ensures
        body_placeholder(a) == body_placeholder(b),
{
    law_first_attribute_is_read(a.attributes, utf8("type"@));
    law_first_attribute_is_read(b.attributes, utf8("type"@));
}

// ---- what replacing the text guarantees ----

/// Whether event `i` is a placeholder for notes text in the shape that is open
/// after the given events.
pub open spec fn placeholder_of_open_shape(events: Seq<XmlItem>, i: int) -> bool {
    &&& 0 <= i < events.len()
    &&& body_placeholder(events[i])
    &&& forall|k: int|
        i < k < events.len() ==> !((#[trigger] events[k]).kind == XmlKind::Start && events[k].name
            == utf8("p:sp"@))
}

proof fn lemma_body_has_placeholder(events: Seq<XmlItem>)
    requires
        shape_after(events).is_body,
    ensures
        exists|i: int| placeholder_of_open_shape(events, i),
    decreases events.len(),
{
    let init = events.drop_last();
    let e = events.last();
    if body_placeholder(e) {
        assert(placeholder_of_open_shape(events, events.len() - 1));
    } else {
        assert(shape_after(init).is_body);
        lemma_body_has_placeholder(init);
        let i = choose|i: int| placeholder_of_open_shape(init, i);
        assert(events[i] == init[i]);
        assert forall|k: int| i < k < events.len() implies !((#[trigger] events[k]).kind
            == XmlKind::Start && events[k].name == utf8("p:sp"@)) by {
            if k < init.len() {
                assert(events[k] == init[k]);
            }
        }
        assert(placeholder_of_open_shape(events, i));
    }
}

pub proof fn lemma_body_start(events: Seq<XmlItem>, i: int)
    requires
        0 <= i,
    ensures
        match body_start_from(events, i) {
            Some(t) => i <= t < events.len() && body_starts_at(events, t) && forall|k: int|
                i <= k < t ==> !#[trigger] body_starts_at(events, k),
            None => forall|k: int| i <= k < events.len() ==> !#[trigger] body_starts_at(events, k),
        },
    decreases events.len() - i,
{
    if i < events.len() && !body_starts_at(events, i) {
        lemma_body_start(events, i + 1);
    }
}

/// The text that is replaced is the first text body in a shape with a placeholder
/// for notes text: one whose placeholders are all for pictures, numbers, dates,
/// headers, footers or titles is never touched.
pub proof fn law_replaced_body_has_placeholder(events: Seq<XmlItem>)
    ensures
        match body_start(events) {
            Some(t) => {
                &&& 0 <= t < events.len()
                &&& events[t].kind == XmlKind::Start
                &&& events[t].name == utf8("p:txBody"@)
                &&& exists|i: int| placeholder_of_open_shape(events.take(t), i)
                &&& forall|k: int| 0 <= k < t ==> !#[trigger] body_starts_at(events, k)
            },
            None => forall|k: int|
                0 <= k < events.len() ==> !#[trigger] body_starts_at(events, k),
        },
{
    lemma_body_start(events, 0);
    match body_start(events) {
        Some(t) => {
            lemma_body_has_placeholder(events.take(t));
        },
        None => {},
    }
}

pub proof fn lemma_after_body(events: Seq<XmlItem>, i: int)
    requires
        0 <= i <= events.len(),
    ensures
        i <= after_body(events, i) <= events.len(),
        forall|k: int|
            i <= k < after_body(events, i) - 1 ==> !((#[trigger] events[k]).kind == XmlKind::End
                && events[k].name == utf8("p:txBody"@)),
    decreases events.len() - i,
{
    if i < events.len() && !(events[i].kind == XmlKind::End && events[i].name == utf8("p:txBody"@)) {
        lemma_after_body(events, i + 1);
    }
}

pub proof fn lemma_raw_concat(a: Seq<XmlItem>, b: Seq<XmlItem>)
    ensures
        raw_of(a + b) == raw_of(a) + raw_of(b),
    decreases b.len(),
{
    if b.len() == 0 {
        assert(a + b =~= a);
        assert(raw_of(a + b) =~= raw_of(a) + raw_of(b));
    } else {
        lemma_raw_concat(a, b.drop_last());
        assert((a + b).drop_last() == a + b.drop_last());
        assert((a + b).last() == b.last());
        assert(raw_of(a + b) =~= raw_of(a) + raw_of(b));
    }
}

/// Replacing the text takes out one run of events, which ends with the first end
/// of a text body in it, and keeps the markup before and after it as it was.
pub proof fn law_only_one_body_is_replaced(events: Seq<XmlItem>, text: Seq<char>)
    requires
        body_start(events) is Some,
    ensures
        ({
            let from = body_start(events)->0;
            let to = after_body(events, from + 1);
            &&& 0 <= from < to <= events.len()
            &&& raw_of(events) == raw_of(events.take(from)) + raw_of(events.subrange(from, to))
                + raw_of(events.skip(to))
            &&& with_body(events, text) == Some(
                raw_of(events.take(from)) + utf8(marks_text(text_body(text))) + raw_of(events.skip(to)),
            )
            &&& forall|k: int|
                from < k < to - 1 ==> !((#[trigger] events[k]).kind == XmlKind::End
                    && events[k].name == utf8("p:txBody"@))
        }),
{
    lemma_body_start(events, 0);
    let from = body_start(events)->0;
    lemma_after_body(events, from + 1);
    let to = after_body(events, from + 1);
    lemma_raw_concat(events.take(from), events.subrange(from, to));
    lemma_raw_concat(events.take(to), events.skip(to));
    assert(events.take(from) + events.subrange(from, to) =~= events.take(to));
    assert(events.take(to) + events.skip(to) =~= events);
}

} // verus!
