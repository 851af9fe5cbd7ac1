//! Notes parts.

use pptx_notes::notes::{
    add_content_type_override, build_notes_rels_xml, replace_body, set_notes_body_text,
};
use pptx_notes::slide::{build_new_notes_slide_xml, build_text_body, paragraphs_xml};
use pptx_notes::xml::{XmlEvent, XmlKind};

const EMPTY: &str = "<a:p><a:endParaRPr lang=\"ko-KR\" dirty=\"0\"/></a:p>";

fn paragraph(text: &str) -> String {
    format!("<a:p><a:r><a:rPr lang=\"ko-KR\" dirty=\"0\"/><a:t>{text}</a:t></a:r></a:p>")
}

fn body(text: &str) -> String {
    format!("<p:txBody><a:bodyPr/><a:lstStyle/>{}</p:txBody>", paragraph(text))
}

fn set(xml: &str, text: &str) -> Result<String, String> {
    set_notes_body_text(xml.as_bytes(), text).map(|b| String::from_utf8(b).unwrap())
}

#[test]
fn each_line_is_a_paragraph() {
    assert_eq!(
        paragraphs_xml("a<b\n\n c "),
        format!("{}{}{}", paragraph("a&lt;b"), EMPTY, paragraph(" c "))
    );
    assert_eq!(paragraphs_xml("one"), paragraph("one"));
}

#[test]
fn a_blank_text_is_one_empty_paragraph() {
    assert_eq!(paragraphs_xml(""), EMPTY);
    assert_eq!(paragraphs_xml(" \n \t\n"), EMPTY);
}

#[test]
fn a_new_notes_slide_holds_the_text() {
    let xml = build_new_notes_slide_xml("hi & bye");
    assert!(xml.starts_with("<?xml version=\"1.0\" encoding=\"UTF-8\" standalone=\"yes\"?>\n<p:notes "));
    assert!(xml.contains("<p:ph type=\"body\" idx=\"1\"/></p:nvPr></p:nvSpPr><p:spPr/><p:txBody><a:bodyPr/><a:lstStyle/>"));
    assert!(xml.contains(&paragraph("hi &amp; bye")));
    assert!(xml.ends_with("</p:clrMapOvr></p:notes>"));
    assert_eq!(set(&xml, "other").unwrap(), build_new_notes_slide_xml("other"));
}

#[test]
fn the_relationships_of_a_notes_slide() {
    let xml = build_notes_rels_xml("slide7.xml");
    assert!(xml.contains("Id=\"rId1\" Type=\"http://schemas.openxmlformats.org/officeDocument/2006/relationships/notesMaster\" Target=\"../notesMasters/notesMaster1.xml\"/>"));
    assert!(xml.contains("Id=\"rId2\" Type=\"http://schemas.openxmlformats.org/officeDocument/2006/relationships/slide\" Target=\"../slides/slide7.xml\"/></Relationships>"));
}

#[test]
fn content_types_get_an_entry() {
    let added = add_content_type_override(b"<Types><Default/></Types>", "/ppt/n\"1.xml");
    assert_eq!(
        String::from_utf8(added).unwrap(),
        "<Types><Default/><Override PartName=\"/ppt/n&quot;1.xml\" ContentType=\"application/vnd.openxmlformats-officedocument.presentationml.notesSlide+xml\"/></Types>"
    );
    let types = "<Types><!-- 한글 -->";
    let added = add_content_type_override(format!("{types}</Types> </Types>").as_bytes(), "/메모");
    assert_eq!(
        String::from_utf8(added).unwrap(),
        format!("{types}<Override PartName=\"/메모\" ContentType=\"application/vnd.openxmlformats-officedocument.presentationml.notesSlide+xml\"/></Types> </Types>")
    );
    assert_eq!(add_content_type_override(b"<Types/>", "x"), b"<Types/>".to_vec());
    assert_eq!(add_content_type_override(b"\xff", "x"), "\u{fffd}".as_bytes().to_vec());
}

#[test]
fn the_text_of_the_body_placeholder_is_replaced() {
    let before = "<p:notes><p:sp><p:nvPr><p:ph type=\"sldImg\"/></p:nvPr><p:txBody>keep</p:txBody></p:sp><p:sp><p:nvPr><p:ph type=\"body\" idx=\"1\"/></p:nvPr>";
    let after = "</p:sp><p:sp><p:ph/><p:txBody>second</p:txBody></p:sp></p:notes>";
    let xml = format!("{before}<p:txBody a=\"b\"><a:p> old <x/></a:p></p:txBody>{after}");
    assert_eq!(set(&xml, "new").unwrap(), format!("{before}{}{after}", body("new")));
}

#[test]
fn a_placeholder_without_a_type_counts() {
    let xml = "<p:sp><p:ph idx=\"3\"/><p:txBody>old</p:txBody></p:sp>";
    assert_eq!(set(xml, "new").unwrap(), format!("<p:sp><p:ph idx=\"3\"/>{}</p:sp>", body("new")));
}

#[test]
fn placeholders_of_other_types_do_not_count() {
    for ty in ["sldImg", "sldNum", "dt", "ftr", "hdr", "title", "ctrTitle", "subTitle"] {
        let xml = format!("<p:sp><p:ph type=\"{ty}\"/><p:txBody>old</p:txBody></p:sp>");
        assert_eq!(set(&xml, "new").unwrap_err(), "메모 텍스트 상자를 찾지 못했습니다");
    }
}

#[test]
fn a_shape_ends_with_its_tag() {
    let xml = "<r><p:sp><p:ph/></p:sp><p:txBody>old</p:txBody></r>";
    assert_eq!(set(xml, "new").unwrap_err(), "메모 텍스트 상자를 찾지 못했습니다");
}

#[test]
fn markup_outside_the_body_is_kept() {
    let head = "<?xml version=\"1.0\"?>\n<!-- c --><p:notes xmlns:p=\"x\"> <p:sp><p:ph/>";
    let tail = "</p:sp>\n<![CDATA[<z>]]><?pi d?></p:notes>\n";
    let xml = format!("{head}<p:txBody></p:txBody>{tail}");
    assert_eq!(set(&xml, "t").unwrap(), format!("{head}{}{tail}", body("t")));
}

#[test]
fn broken_markup_is_reported() {
    let message = set("<p:sp><p:ph/><p:txBody></p:txBody></x>", "t").unwrap_err();
    assert!(message.contains("</p:sp>"), "{message}");
    assert_eq!(set("", "t").unwrap_err(), "메모 텍스트 상자를 찾지 못했습니다");
}

#[test]
fn replacing_a_body_in_events() {
    let event = |kind, name: &str, raw: &str| XmlEvent {
        kind,
        name: name.as_bytes().to_vec(),
        attributes: vec![],
        raw: raw.as_bytes().to_vec(),
    };
    let mut events = vec![
        event(XmlKind::Start, "p:txBody", "0"),
        event(XmlKind::Start, "p:sp", "1"),
        event(XmlKind::Empty, "p:ph", "2"),
        event(XmlKind::Start, "p:txBody", "3"),
        event(XmlKind::Text, "", "4"),
        event(XmlKind::End, "p:txBody", "5"),
        event(XmlKind::End, "p:txBody", "6"),
        event(XmlKind::Start, "p:txBody", "7"),
    ];
    let replaced = String::from_utf8(replace_body(&events, "n").unwrap()).unwrap();
    assert_eq!(replaced, format!("012{}67", body("n")));
    events.truncate(5);
    let replaced = String::from_utf8(replace_body(&events, "n").unwrap()).unwrap();
    assert_eq!(replaced, format!("012{}", body("n")));
    events.truncate(3);
    assert_eq!(replace_body(&events, "n"), None);
}

#[test]
fn a_new_notes_slide_as_a_whole() {
    assert_eq!(
        build_new_notes_slide_xml("a\n\nb"),
        format!(
            r#"<?xml version="1.0" encoding="UTF-8" standalone="yes"?>
<p:notes xmlns:a="http://schemas.openxmlformats.org/drawingml/2006/main" xmlns:r="http://schemas.openxmlformats.org/officeDocument/2006/relationships" xmlns:p="http://schemas.openxmlformats.org/presentationml/2006/main"><p:cSld><p:spTree><p:nvGrpSpPr><p:cNvPr id="1" name=""/><p:cNvGrpSpPr/><p:nvPr/></p:nvGrpSpPr><p:grpSpPr><a:xfrm><a:off x="0" y="0"/><a:ext cx="0" cy="0"/><a:chOff x="0" y="0"/><a:chExt cx="0" cy="0"/></a:xfrm></p:grpSpPr><p:sp><p:nvSpPr><p:cNvPr id="2" name="Slide Image Placeholder 1"/><p:cNvSpPr><a:spLocks noGrp="1" noRot="1" noChangeAspect="1"/></p:cNvSpPr><p:nvPr><p:ph type="sldImg"/></p:nvPr></p:nvSpPr><p:spPr/></p:sp><p:sp><p:nvSpPr><p:cNvPr id="3" name="Notes Placeholder 2"/><p:cNvSpPr><a:spLocks noGrp="1"/></p:cNvSpPr><p:nvPr><p:ph type="body" idx="1"/></p:nvPr></p:nvSpPr><p:spPr/><p:txBody><a:bodyPr/><a:lstStyle/>{}{}{}</p:txBody></p:sp></p:spTree></p:cSld><p:clrMapOvr><a:masterClrMapping/></p:clrMapOvr></p:notes>"#,
            paragraph("a"),
            EMPTY,
            paragraph("b"),
        )
    );
}

#[test]
fn a_text_body_holds_the_paragraphs() {
    assert_eq!(build_text_body("x > y"), body("x &gt; y"));
    assert_eq!(
        build_text_body(" "),
        format!("<p:txBody><a:bodyPr/><a:lstStyle/>{EMPTY}</p:txBody>")
    );
}

#[test]
fn a_new_notes_slide_takes_another_text() {
    for (first, second) in [("a", "b"), ("", "<x> & \"y\""), ("one\ntwo", ""), ("]]>", "\u{feff}")] {
        assert_eq!(
            set(&build_new_notes_slide_xml(first), second).unwrap(),
            build_new_notes_slide_xml(second)
        );
    }
}

#[test]
fn the_last_text_wins() {
    let slides = [
        "<p:notes> <p:sp><p:ph/><p:txBody a='1'><a:p>old</a:p></p:txBody >\n</p:sp></p:notes>",
        "<?xml version=\"1.0\"?><!DOCTYPE x><n><!-- c --><p:sp><p:ph type=\"body\"/><p:txBody/>t<p:txBody></p:txBody>\n<![CDATA[ > ]]></p:sp>\n</n>",
        "<p:sp><p:ph/><p:txBody><open>",
        "\u{feff}<n><p:sp><p:ph/>a<p:txBody>b</p:txBody>c</p:sp></n>",
    ];
    for xml in slides {
        let once = set(xml, "first\n\n<second>").unwrap();
        assert_eq!(set(&once, "third").unwrap(), set(xml, "third").unwrap());
        assert_eq!(set(&once, "first\n\n<second>").unwrap(), once);
    }
}

#[test]
fn a_nested_text_body_is_another_matter() {
    let xml = "<p:sp><p:ph/><p:txBody><p:txBody>x</p:txBody>y</p:txBody></p:sp>";
    let once = set(xml, "n").unwrap();
    assert_eq!(once, format!("<p:sp><p:ph/>{}y</p:txBody></p:sp>", body("n")));
    assert!(set(&once, "m").is_err());
}
