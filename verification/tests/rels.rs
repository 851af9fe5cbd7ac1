//! Relationship parts.

use pptx_notes::rels::{
    build_rels_xml, collect_rels, empty_rels_xml_bytes, get_rels_map, next_unused_rid,
    resolve_rel_target, RelMap, Relationship,
};
use pptx_notes::xml::{xml_escape_attr, XmlEvent, XmlKind};

fn rel(id: &str, ty: &str, target: &str) -> Relationship {
    Relationship { id: id.to_string(), ty: ty.to_string(), target: target.to_string() }
}

fn map(rels: &[(&str, &str, &str)]) -> RelMap {
    let mut m = RelMap::new();
    for (id, ty, target) in rels {
        m.insert(rel(id, ty, target));
    }
    m
}

fn list(m: &RelMap) -> Vec<(String, String, String)> {
    (0..m.len())
        .map(|i| (m.at(i).id.clone(), m.at(i).ty.clone(), m.at(i).target.clone()))
        .collect()
}

fn triple(id: &str, ty: &str, target: &str) -> (String, String, String) {
    (id.to_string(), ty.to_string(), target.to_string())
}

const XML: &str = "<?xml version=\"1.0\"?><Relationships xmlns=\"x\"><Relationship Id=\"rId2\" Type=\"t2\" Target=\"b.xml\"/><Relationship Id=\"rId1\" Type=\"t1\" Target=\"a.xml\"></Relationship><Relationship Id=\"rId3\" Type=\"t3\"/><Other Id=\"rId4\" Type=\"t\" Target=\"t\"/><Relationship Id=\"rId2\" Type=\"t4\" Target=\"c.xml\"/></Relationships>";

#[test]
fn relationships_are_read() {
    let m = get_rels_map(XML.as_bytes());
    assert_eq!(list(&m), vec![triple("rId2", "t4", "c.xml"), triple("rId1", "t1", "a.xml")]);
    assert_eq!(m.target("rId1"), Some("a.xml".to_string()));
    assert_eq!(m.target("rId9"), None);
    assert!(m.contains_id("rId2"));
    assert!(!m.contains_id("rId3"));
}

#[test]
fn relationships_before_an_error_count() {
    let m = get_rels_map(b"<R><Relationship Id=\"a\" Type=\"b\" Target=\"c\"/></X>");
    assert_eq!(list(&m), vec![triple("a", "b", "c")]);
    assert_eq!(get_rels_map(b"").len(), 0);
}

#[test]
fn relationships_of_events() {
    let attributes = vec![
        Some((b"Id".to_vec(), b"i".to_vec())),
        None,
        Some((b"Type".to_vec(), b"t".to_vec())),
        Some((b"Target".to_vec(), b"x".to_vec())),
    ];
    let event = |kind| XmlEvent {
        kind,
        name: b"Relationship".to_vec(),
        attributes: attributes.clone(),
        raw: vec![],
    };
    assert_eq!(list(&collect_rels(&vec![event(XmlKind::Empty)])), vec![triple("i", "t", "x")]);
    assert_eq!(list(&collect_rels(&vec![event(XmlKind::Start)])), vec![triple("i", "t", "x")]);
    assert_eq!(list(&collect_rels(&vec![event(XmlKind::End)])), vec![]);
}

#[test]
fn the_first_relationship_of_a_type_is_found() {
    let m = map(&[("a", "x/slide", "1"), ("b", "x/notesSlide", "2"), ("c", "y/notesSlide", "3")]);
    assert_eq!(m.target_of_type("/notesSlide"), Some("2".to_string()));
    assert_eq!(m.target_of_type("/theme"), None);
}

#[test]
fn a_new_id_is_the_least_unused() {
    assert_eq!(next_unused_rid(&map(&[])), "rId1");
    assert_eq!(next_unused_rid(&map(&[("rId1", "", ""), ("rId3", "", "")])), "rId2");
    assert_eq!(
        next_unused_rid(&map(&[("rId2", "", ""), ("x", "", ""), ("rId1", "", "")])),
        "rId3"
    );
    assert_eq!(next_unused_rid(&map(&[("rId01", "", "")])), "rId1");
}

#[test]
fn relationships_are_written_by_number() {
    let m = map(&[
        ("other", "t", "o"),
        ("rId10", "t", "x"),
        ("rId2", "t", "y"),
        ("rIdrId3", "t", "z"),
        ("another", "t", "p"),
        ("7", "t", "s"),
    ]);
    let tag = |id: &str, target: &str| {
        format!("<Relationship Id=\"{id}\" Type=\"t\" Target=\"{target}\"/>")
    };
    let expected = format!(
        "<?xml version=\"1.0\" encoding=\"UTF-8\" standalone=\"yes\"?>\n<Relationships xmlns=\"http://schemas.openxmlformats.org/package/2006/relationships\">{}{}{}{}{}{}</Relationships>",
        tag("rId2", "y"),
        tag("rIdrId3", "z"),
        tag("7", "s"),
        tag("rId10", "x"),
        tag("other", "o"),
        tag("another", "p"),
    );
    assert_eq!(build_rels_xml(&m), expected);
}

#[test]
fn written_relationships_are_escaped() {
    let xml = build_rels_xml(&map(&[("a\"", "<t>", "x&y")]));
    assert!(xml.contains("<Relationship Id=\"a&quot;\" Type=\"&lt;t&gt;\" Target=\"x&amp;y\"/>"));
}

#[test]
fn written_relationships_read_back() {
    let rels = [("rId1", "http://t/slide", "../slides/slide1.xml"), ("rId2", "u", "한글.xml")];
    let m = map(&rels);
    let again = get_rels_map(build_rels_xml(&m).as_bytes());
    assert_eq!(list(&again), list(&m));
}

#[test]
fn an_empty_part_has_no_relationships() {
    assert_eq!(
        String::from_utf8(empty_rels_xml_bytes()).unwrap(),
        build_rels_xml(&RelMap::new())
    );
    assert_eq!(get_rels_map(&empty_rels_xml_bytes()).len(), 0);
}

#[test]
fn putting_a_relationship_in_replaces_the_one_with_its_id() {
    let mut m = map(&[("a", "1", "x"), ("b", "2", "y")]);
    m.insert(rel("a", "3", "z"));
    assert_eq!(list(&m), vec![triple("a", "3", "z"), triple("b", "2", "y")]);
}

#[test]
fn targets_are_resolved() {
    assert_eq!(
        resolve_rel_target("ppt/slides", "../notesSlides/notesSlide1.xml"),
        "ppt/notesSlides/notesSlide1.xml"
    );
    assert_eq!(resolve_rel_target("ppt/slides", "a.xml"), "ppt/slides/a.xml");
    assert_eq!(resolve_rel_target("ppt/slides", "./b//c/../d.xml"), "ppt/slides/b/d.xml");
    assert_eq!(resolve_rel_target("ppt/slides", "../../../../x"), "x");
    assert_eq!(resolve_rel_target("ppt/slides", "/abs/x"), "ppt/slides/abs/x");
    assert_eq!(resolve_rel_target("/ppt//slides/", ""), "ppt/slides");
    assert_eq!(resolve_rel_target("", ".."), "");
}

#[test]
fn odd_texts_read_back_escaped() {
    let texts = ["", "'", "a=b", "/", "x/>", "\n\t ", "&", "<a b=\"c\">", "한글 😀", "\u{0}", "]]>", "?"];
    let mut m = RelMap::new();
    for (i, t) in texts.iter().enumerate() {
        m.insert(rel(&format!("{t}{i}"), t, t));
    }
    let written: Vec<(String, String, String)> = list(&m)
        .iter()
        .map(|(id, ty, target)| {
            (xml_escape_attr(id), xml_escape_attr(ty), xml_escape_attr(target))
        })
        .collect();
    let mut read = list(&get_rels_map(build_rels_xml(&m).as_bytes()));
    assert_eq!(read.len(), texts.len());
    read.sort();
    let mut expected = written;
    expected.sort();
    assert_eq!(read, expected);
}
