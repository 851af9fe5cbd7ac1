//! XML events and escaping.

use pptx_notes::xml::{
    get_attr, read_events, xml_escape_attr, xml_escape_text, XmlEvent, XmlKind,
};

fn event(kind: XmlKind, name: &str, attributes: Vec<Option<(&[u8], &[u8])>>) -> XmlEvent {
    XmlEvent {
        kind,
        name: name.as_bytes().to_vec(),
        attributes: attributes
            .into_iter()
            .map(|a| a.map(|(k, v)| (k.to_vec(), v.to_vec())))
            .collect(),
        raw: vec![],
    }
}

#[test]
fn events_of_a_document() {
    let xml = "<?xml version=\"1.0\"?><!DOCTYPE a><a x=\"1\" y='&amp;'><!-- c --><b/> t <![CDATA[d]]><?pi q?></a >";
    let (events, error) = read_events(xml.as_bytes(), false);
    assert_eq!(error, None);
    let kinds: Vec<XmlKind> = events.iter().map(|e| e.kind).collect();
    assert_eq!(
        kinds,
        vec![
            XmlKind::Decl,
            XmlKind::DocType,
            XmlKind::Start,
            XmlKind::Comment,
            XmlKind::Empty,
            XmlKind::Text,
            XmlKind::CData,
            XmlKind::PI,
            XmlKind::End,
        ]
    );
    let raws: Vec<String> =
        events.iter().map(|e| String::from_utf8(e.raw.clone()).unwrap()).collect();
    assert_eq!(
        raws,
        vec![
            "<?xml version=\"1.0\"?>",
            "<!DOCTYPE a>",
            "<a x=\"1\" y='&amp;'>",
            "<!-- c -->",
            "<b/>",
            " t ",
            "<![CDATA[d]]>",
            "<?pi q?>",
            "</a>",
        ]
    );
    assert_eq!(events[2].name, b"a".to_vec());
    assert_eq!(events[4].name, b"b".to_vec());
    assert_eq!(events[8].name, b"a".to_vec());
    assert_eq!(events[5].name, Vec::<u8>::new());
    assert_eq!(
        events[2].attributes,
        vec![
            Some((b"x".to_vec(), b"1".to_vec())),
            Some((b"y".to_vec(), b"&amp;".to_vec())),
        ]
    );
    assert_eq!(events[8].attributes.len(), 0);
}

#[test]
fn white_space_around_text_can_be_dropped() {
    let (kept, _) = read_events(b"<a> t <b/> </a>", false);
    let (trimmed, _) = read_events(b"<a> t <b/> </a>", true);
    assert_eq!(kept.len(), 5);
    assert_eq!(trimmed.len(), 4);
    assert_eq!(trimmed[1].raw, b"t".to_vec());
}

#[test]
fn an_error_ends_the_events() {
    let (events, error) = read_events(b"<a><b/></c>", false);
    assert_eq!(events.len(), 2);
    assert!(error.unwrap().contains("expected `</a>`"));
    let (events, error) = read_events(b"", false);
    assert_eq!(events.len(), 0);
    assert_eq!(error, None);
}

#[test]
fn attributes_are_found_by_key() {
    let e = event(
        XmlKind::Empty,
        "p:ph",
        vec![None, Some((b"idx", b"1")), Some((b"type", b"body")), Some((b"type", b"dt"))],
    );
    assert_eq!(get_attr(&e, b"type"), Some("body".to_string()));
    assert_eq!(get_attr(&e, b"idx"), Some("1".to_string()));
    assert_eq!(get_attr(&e, b"id"), None);
}

#[test]
fn attribute_values_are_raw_and_decoded_as_far_as_possible() {
    let e = event(XmlKind::Empty, "x", vec![Some((b"a", b"&lt;\xff\xea\xb0\x80"))]);
    assert_eq!(get_attr(&e, b"a"), Some("&lt;\u{fffd}가".to_string()));
}

#[test]
fn malformed_attributes_are_passed_over() {
    let (events, _) = read_events(b"<a x=1 x=\"2\" y=\"3\"/>", false);
    assert_eq!(events.len(), 1);
    assert!(events[0].attributes.contains(&None));
    assert_eq!(get_attr(&events[0], b"x"), None);
}

#[test]
fn escaping() {
    assert_eq!(xml_escape_text("a<b>&\"c\""), "a&lt;b&gt;&amp;\"c\"");
    assert_eq!(xml_escape_attr("a<b>&\"c\""), "a&lt;b&gt;&amp;&quot;c&quot;");
    assert_eq!(xml_escape_text("&lt;"), "&amp;lt;");
    assert_eq!(xml_escape_attr(""), "");
}

#[test]
fn escaped_text_unescapes_to_the_text() {
    for s in ["", "plain", "<a href=\"x\">&amp;</a>", "&&&", "한글 <> \""] {
        let text = xml_escape_text(s);
        let attribute = xml_escape_attr(s);
        assert_eq!(quick_xml::escape::unescape(&text).unwrap(), s);
        assert_eq!(quick_xml::escape::unescape(&attribute).unwrap(), s);
        assert!(!text.contains('<') && !text.contains('>'));
        assert!(!attribute.contains('<') && !attribute.contains('>') && !attribute.contains('"'));
    }
}
