//! Pages of a presentation.

use pptx_notes::presentation::{
    build_slide_path_by_page, collect_slide_rids, get_slide_rids_in_order, map_slide_paths,
};
use pptx_notes::rels::{RelMap, Relationship};
use pptx_notes::xml::{XmlEvent, XmlKind};
use std::io::{Cursor, Write};
use zip::write::SimpleFileOptions;
use zip::{ZipArchive, ZipWriter};

fn archive(entries: &[(&str, &str)]) -> ZipArchive<Cursor<Vec<u8>>> {
    let mut w = ZipWriter::new(Cursor::new(Vec::new()));
    for (name, data) in entries {
        w.start_file(*name, SimpleFileOptions::default()).unwrap();
        w.write_all(data.as_bytes()).unwrap();
    }
    ZipArchive::new(w.finish().unwrap()).unwrap()
}

fn map(rels: &[(&str, &str)]) -> RelMap {
    let mut m = RelMap::new();
    for (id, target) in rels {
        m.insert(Relationship {
            id: id.to_string(),
            ty: "t".to_string(),
            target: target.to_string(),
        });
    }
    m
}

const PRESENTATION: &str = "<p:presentation><p:sldId r:id=\"out\"/><p:sldMasterIdLst/><p:sldIdLst><p:sldId id=\"256\" r:id=\"rId3\"/><p:sldId id=\"257\" r:id=\"rId2\"></p:sldId><p:sldId id=\"258\"/><x r:id=\"no\"/><p:sldId r:id=\"rId9\"/></p:sldIdLst><p:sldId r:id=\"after\"/></p:presentation>";

const RELS: &str = "<Relationships><Relationship Id=\"rId2\" Type=\"t\" Target=\"slides/slide1.xml\"/><Relationship Id=\"rId3\" Type=\"t\" Target=\"slides/slide2.xml\"/></Relationships>";

#[test]
fn slide_ids_are_those_in_the_list() {
    assert_eq!(get_slide_rids_in_order(PRESENTATION.as_bytes()), vec!["rId3", "rId2", "rId9"]);
    assert_eq!(get_slide_rids_in_order(b"<p:presentation/>"), Vec::<String>::new());
}

#[test]
fn slide_ids_before_an_error_count() {
    let xml = b"<p:sldIdLst><p:sldId r:id=\"a\"/></x>";
    assert_eq!(get_slide_rids_in_order(xml), vec!["a"]);
}

#[test]
fn slide_ids_of_events() {
    let event = |kind, name: &str, rid: &str| XmlEvent {
        kind,
        name: name.as_bytes().to_vec(),
        attributes: vec![Some((b"r:id".to_vec(), rid.as_bytes().to_vec()))],
        raw: vec![],
    };
    let events = vec![
        event(XmlKind::Empty, "p:sldIdLst", ""),
        event(XmlKind::Empty, "p:sldId", "1"),
        event(XmlKind::Start, "p:sldIdLst", ""),
        event(XmlKind::Start, "p:sldId", "2"),
        event(XmlKind::End, "p:sldId", "3"),
        event(XmlKind::Empty, "p:sldId", "4"),
        event(XmlKind::End, "p:sldIdLst", ""),
        event(XmlKind::Empty, "p:sldId", "5"),
    ];
    assert_eq!(collect_slide_rids(&events), vec!["2", "4"]);
}

#[test]
fn pages_are_numbered_from_one() {
    let rids = vec!["b".to_string(), "x".to_string(), "a".to_string()];
    let paths = map_slide_paths(&rids, &map(&[("a", "slides/1.xml"), ("b", "slides/2.xml")]));
    assert_eq!(paths.len(), 2);
    assert_eq!(paths[&1], "ppt/slides/2.xml");
    assert_eq!(paths[&3], "ppt/slides/1.xml");
}

#[test]
fn pages_of_a_package() {
    let mut a =
        archive(&[("ppt/presentation.xml", PRESENTATION), ("ppt/_rels/presentation.xml.rels", RELS)]);
    let paths = build_slide_path_by_page(&mut a).unwrap();
    assert_eq!(paths.len(), 2);
    assert_eq!(paths[&1], "ppt/slides/slide2.xml");
    assert_eq!(paths[&2], "ppt/slides/slide1.xml");
}

#[test]
fn missing_presentation_parts_are_reported() {
    let mut a = archive(&[("x", "")]);
    assert_eq!(build_slide_path_by_page(&mut a).unwrap_err(), "presentation.xml 읽기 실패");
    let mut a = archive(&[("ppt/presentation.xml", PRESENTATION)]);
    assert_eq!(build_slide_path_by_page(&mut a).unwrap_err(), "presentation.xml.rels 읽기 실패");
}
