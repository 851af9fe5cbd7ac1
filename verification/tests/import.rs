//! Whole imports.

use pptx_notes::apply::{apply_note, note_fits};
use pptx_notes::archive::read_entry;
use pptx_notes::import::{
    checked_import_notes, import_fits, import_notes_from_bytes, ImportResult, ImportSummary,
};
use pptx_notes::master::{inject_notes_master, NotesTemplate};
use pptx_notes::parts::PartSet;
use pptx_notes::slide::build_new_notes_slide_xml;
use std::collections::HashMap;
use std::io::{Cursor, Read, Write};
use zip::write::SimpleFileOptions;
use zip::{ZipArchive, ZipWriter};

const TYPES: &str = "<Types><Default Extension=\"xml\"/></Types>";

const PRESENTATION: &str = "<p:presentation><p:sldMasterIdLst><p:sldMasterId r:id=\"rId1\"/></p:sldMasterIdLst><p:sldIdLst><p:sldId id=\"256\" r:id=\"rId2\"/><p:sldId id=\"257\" r:id=\"rId3\"/></p:sldIdLst></p:presentation>";

const PRESENTATION_RELS: &str = "<Relationships><Relationship Id=\"rId1\" Type=\"t/slideMaster\" Target=\"slideMasters/slideMaster1.xml\"/><Relationship Id=\"rId2\" Type=\"t/slide\" Target=\"slides/slide1.xml\"/><Relationship Id=\"rId3\" Type=\"t/slide\" Target=\"slides/slide2.xml\"/></Relationships>";

const NOTES_TYPE: &str =
    "http://schemas.openxmlformats.org/officeDocument/2006/relationships/notesSlide";

fn template() -> NotesTemplate {
    NotesTemplate { master: b"<master/>".to_vec(), theme: b"<theme/>".to_vec() }
}

fn zip_of(entries: &[(&str, &str)]) -> Vec<u8> {
    let mut w = ZipWriter::new(Cursor::new(Vec::new()));
    for (name, data) in entries {
        w.start_file(*name, SimpleFileOptions::default()).unwrap();
        w.write_all(data.as_bytes()).unwrap();
    }
    w.finish().unwrap().into_inner()
}

fn deck(more: &[(&str, &str)]) -> Vec<u8> {
    let mut entries = vec![
        ("[Content_Types].xml", TYPES),
        ("ppt/presentation.xml", PRESENTATION),
        ("ppt/_rels/presentation.xml.rels", PRESENTATION_RELS),
        ("ppt/slides/slide1.xml", "<s1/>"),
        ("ppt/slides/slide2.xml", "<s2/>"),
        ("ppt/theme/theme1.xml", "<t1/>"),
    ];
    entries.extend_from_slice(more);
    zip_of(&entries)
}

fn open(bytes: Vec<u8>) -> ZipArchive<Cursor<Vec<u8>>> {
    ZipArchive::new(Cursor::new(bytes)).unwrap()
}

fn names(bytes: &[u8]) -> Vec<String> {
    open(bytes.to_vec()).file_names().map(|s| s.to_string()).collect()
}

fn text(bytes: &[u8], name: &str) -> String {
    let mut data = String::new();
    open(bytes.to_vec()).by_name(name).unwrap().read_to_string(&mut data).unwrap();
    data
}

fn import(bytes: Vec<u8>, script: &str) -> Result<(ImportSummary, Vec<u8>), String> {
    assert!(import_fits(bytes.clone(), script, &template()));
    import_notes_from_bytes(bytes, script, &template())
}

fn messages(s: &ImportSummary) -> (Vec<(u32, String)>, Vec<(u32, String)>) {
    let list = |v: &Vec<pptx_notes::import::PageResult>| {
        v.iter().map(|r| (r.page, r.message.clone())).collect()
    };
    (list(&s.applied), list(&s.failed))
}

#[test]
fn notes_are_put_into_a_deck_without_any() {
    let (summary, out) = import(deck(&[]), "1p\nhello\n2p\n<b>").ok().unwrap();
    assert_eq!(
        messages(&summary),
        (
            vec![
                (1, "슬라이드 1번에 입력 완료".to_string()),
                (2, "슬라이드 2번에 입력 완료".to_string()),
            ],
            vec![],
        )
    );
    assert_eq!(text(&out, "ppt/notesSlides/notesSlide1.xml"), build_new_notes_slide_xml("hello"));
    assert_eq!(text(&out, "ppt/notesSlides/notesSlide2.xml"), build_new_notes_slide_xml("<b>"));
    assert!(text(&out, "ppt/notesSlides/_rels/notesSlide2.xml.rels")
        .contains("Target=\"../slides/slide2.xml\""));
    assert!(text(&out, "ppt/slides/_rels/slide1.xml.rels").contains(&format!(
        "<Relationship Id=\"rId1\" Type=\"{NOTES_TYPE}\" Target=\"../notesSlides/notesSlide1.xml\"/>"
    )));
    assert_eq!(text(&out, "ppt/notesMasters/notesMaster1.xml"), "<master/>");
    assert_eq!(text(&out, "ppt/theme/theme2.xml"), "<theme/>");
    assert_eq!(text(&out, "ppt/theme/theme1.xml"), "<t1/>");
    assert!(text(&out, "ppt/notesMasters/_rels/notesMaster1.xml.rels")
        .contains("Target=\"../theme/theme2.xml\"/></Relationships>"));
    assert!(text(&out, "ppt/presentation.xml").contains(
        "</p:sldMasterIdLst><p:notesMasterIdLst><p:notesMasterId r:id=\"rId4\"/></p:notesMasterIdLst><p:sldIdLst>"
    ));
    assert!(text(&out, "ppt/_rels/presentation.xml.rels").contains(
        "<Relationship Id=\"rId4\" Type=\"http://schemas.openxmlformats.org/officeDocument/2006/relationships/notesMaster\" Target=\"notesMasters/notesMaster1.xml\"/></Relationships>"
    ));
    let types = text(&out, "[Content_Types].xml");
    assert!(types.contains("PartName=\"/ppt/notesMasters/notesMaster1.xml\""));
    assert!(types.contains("PartName=\"/ppt/theme/theme2.xml\" ContentType=\"application/vnd.openxmlformats-officedocument.theme+xml\"/>"));
    assert!(types.contains("PartName=\"/ppt/notesSlides/notesSlide1.xml\""));
    assert!(types.ends_with("PartName=\"/ppt/notesSlides/notesSlide2.xml\" ContentType=\"application/vnd.openxmlformats-officedocument.presentationml.notesSlide+xml\"/></Types>"));
}

#[test]
fn parts_that_nothing_touches_are_kept() {
    let before = deck(&[("docProps/app.xml", "<app/>"), ("ppt/media/x.bin", "\u{0}\u{1}")]);
    let (_, out) = import(before.clone(), "1p\nx").ok().unwrap();
    let old = names(&before);
    assert_eq!(names(&out)[..old.len()], old[..]);
    for name in
        ["ppt/slides/slide1.xml", "ppt/slides/slide2.xml", "docProps/app.xml", "ppt/media/x.bin"]
    {
        assert_eq!(text(&out, name), text(&before, name));
    }
}

#[test]
fn a_second_import_replaces_the_text() {
    let (_, once) = import(deck(&[]), "1p\nfirst").ok().unwrap();
    let count = names(&once).len();
    let (summary, twice) = import(once.clone(), "1p\nsecond").ok().unwrap();
    assert_eq!(summary.applied.len(), 1);
    assert_eq!(names(&twice).len(), count);
    assert_eq!(text(&twice, "ppt/notesSlides/notesSlide1.xml"), build_new_notes_slide_xml("second"));
    assert_eq!(text(&twice, "[Content_Types].xml"), text(&once, "[Content_Types].xml"));
}

#[test]
fn the_last_note_for_a_page_holds() {
    let (summary, out) = import(deck(&[]), "1p\na\n1p\nb").ok().unwrap();
    assert_eq!(summary.applied.len(), 2);
    assert_eq!(text(&out, "ppt/notesSlides/notesSlide1.xml"), build_new_notes_slide_xml("b"));
}

#[test]
fn missing_pages_are_reported() {
    let (summary, _) = import(deck(&[]), "0p\nx\n2p\ny\n3p\nz").ok().unwrap();
    assert_eq!(
        messages(&summary),
        (
            vec![(2, "슬라이드 2번에 입력 완료".to_string())],
            vec![
                (0, "슬라이드 0번이 존재하지 않음 (총 2장)".to_string()),
                (3, "슬라이드 3번이 존재하지 않음 (총 2장)".to_string()),
            ],
        )
    );
}

#[test]
fn a_new_notes_slide_gets_the_next_number() {
    let before = deck(&[
        ("ppt/notesMasters/notesMaster1.xml", "<m/>"),
        ("ppt/notesSlides/notesSlide7.xml", "<n/>"),
        ("ppt/notesSlides/notesSlidex.xml", "<n/>"),
        ("ppt/notesSlides/notesSlide9.xml.bak", "<n/>"),
    ]);
    let (_, out) = import(before, "1p\na\n2p\nb").ok().unwrap();
    assert_eq!(text(&out, "ppt/notesSlides/notesSlide8.xml"), build_new_notes_slide_xml("a"));
    assert_eq!(text(&out, "ppt/notesSlides/notesSlide9.xml"), build_new_notes_slide_xml("b"));
    assert_eq!(text(&out, "ppt/notesMasters/notesMaster1.xml"), "<m/>");
    assert_eq!(text(&out, "ppt/presentation.xml"), PRESENTATION);
}

#[test]
fn numbers_of_notes_slides_can_run_out() {
    let before = deck(&[
        ("ppt/notesMasters/notesMaster1.xml", "<m/>"),
        ("ppt/notesSlides/notesSlide4294967295.xml", "<n/>"),
    ]);
    assert!(!import_fits(before.clone(), "1p\na", &template()));
    assert!(checked_import_notes(before.clone(), "1p\na", &template()).is_none());
    assert!(import_fits(before.clone(), "9p\na", &template()));
    let refused = checked_import_notes(before, "9p\na", &template()).unwrap();
    assert_eq!(refused.err().unwrap(), "적용된 슬라이드가 없습니다.");
}

#[test]
fn long_names_do_not_fit() {
    let long = "s".repeat(65536);
    let rels = format!(
        "<Relationships><Relationship Id=\"rId2\" Type=\"t/slide\" Target=\"slides/{long}\"/></Relationships>"
    );
    let before = zip_of(&[
        ("[Content_Types].xml", TYPES),
        ("ppt/presentation.xml", PRESENTATION),
        ("ppt/_rels/presentation.xml.rels", &rels),
        ("ppt/notesMasters/notesMaster1.xml", "<m/>"),
    ]);
    assert!(checked_import_notes(before, "1p\na", &template()).is_none());
}

#[test]
fn a_checked_import_gives_the_same() {
    let (summary, out) = import(deck(&[]), "1p\nx").ok().unwrap();
    let (checked, same) = checked_import_notes(deck(&[]), "1p\nx", &template()).unwrap().ok().unwrap();
    assert_eq!(messages(&checked), messages(&summary));
    assert_eq!(same, out);
}

#[test]
fn a_script_without_pages_is_refused() {
    assert_eq!(
        import(vec![], "no pages").err().unwrap(),
        "대본에서 'Np' 형식의 페이지 표시를 찾지 못했습니다."
    );
}

#[test]
fn what_is_no_zip_is_refused() {
    let message = import(b"not a zip".to_vec(), "1p\nx").err().unwrap();
    assert_eq!(message, "PPTX(zip) 열기 실패: invalid Zip archive: Could not find EOCD");
}

#[test]
fn an_import_without_effect_is_refused() {
    assert_eq!(import(deck(&[]), "9p\nx").err().unwrap(), "적용된 슬라이드가 없습니다.");
}

#[test]
fn missing_parts_are_reported() {
    let err = |entries: &[(&str, &str)]| import(zip_of(entries), "1p\nx").err().unwrap();
    let types = ("[Content_Types].xml", TYPES);
    let pres = ("ppt/presentation.xml", PRESENTATION);
    let rels = ("ppt/_rels/presentation.xml.rels", PRESENTATION_RELS);
    assert_eq!(err(&[types, rels]), "presentation.xml 읽기 실패");
    assert_eq!(err(&[types, pres]), "presentation.xml.rels 읽기 실패");
    assert_eq!(err(&[pres, rels]), "[Content_Types].xml 읽기 실패");
    let odd = ("ppt/presentation.xml", "<p:presentation/>");
    assert_eq!(err(&[types, odd, rels]), "presentation.xml 구조를 인식할 수 없습니다");
}

#[test]
fn missing_content_types_fail_the_page() {
    let before = zip_of(&[
        ("ppt/presentation.xml", PRESENTATION),
        ("ppt/_rels/presentation.xml.rels", PRESENTATION_RELS),
        ("ppt/notesMasters/notesMaster1.xml", "<m/>"),
    ]);
    assert_eq!(import(before, "1p\nx").err().unwrap(), "적용된 슬라이드가 없습니다.");
}

const SLIDE_RELS: &str = "<Relationships><Relationship Id=\"rId1\" Type=\"http://schemas.openxmlformats.org/officeDocument/2006/relationships/notesSlide\" Target=\"../notesSlides/notesSlide5.xml\"/></Relationships>";

#[test]
fn an_existing_notes_slide_is_changed() {
    let before = deck(&[
        ("ppt/notesMasters/notesMaster1.xml", "<m/>"),
        ("ppt/slides/_rels/slide1.xml.rels", SLIDE_RELS),
        ("ppt/notesSlides/notesSlide5.xml", "<n><p:sp><p:ph type=\"body\"/><p:txBody>x</p:txBody></p:sp></n>"),
    ]);
    let (_, out) = import(before.clone(), "1p\nhey").ok().unwrap();
    assert_eq!(names(&out), names(&before));
    assert_eq!(
        text(&out, "ppt/notesSlides/notesSlide5.xml"),
        "<n><p:sp><p:ph type=\"body\"/><p:txBody><a:bodyPr/><a:lstStyle/><a:p><a:r><a:rPr lang=\"ko-KR\" dirty=\"0\"/><a:t>hey</a:t></a:r></a:p></p:txBody></p:sp></n>"
    );
}

#[test]
fn notes_that_cannot_be_changed_are_reported() {
    let before = deck(&[
        ("ppt/notesMasters/notesMaster1.xml", "<m/>"),
        ("ppt/slides/_rels/slide1.xml.rels", SLIDE_RELS),
    ]);
    let (summary, _) = import(before, "1p\nhey\n2p\nok").ok().unwrap();
    assert_eq!(
        messages(&summary).1,
        vec![(1, "ppt/notesSlides/notesSlide5.xml 를 찾을 수 없음".to_string())]
    );
    let before = deck(&[
        ("ppt/notesMasters/notesMaster1.xml", "<m/>"),
        ("ppt/slides/_rels/slide1.xml.rels", SLIDE_RELS),
        ("ppt/notesSlides/notesSlide5.xml", "<n/>"),
    ]);
    let (summary, out) = import(before, "1p\nhey\n2p\nok").ok().unwrap();
    assert_eq!(messages(&summary).1, vec![(1, "메모 텍스트 상자를 찾지 못했습니다".to_string())]);
    assert_eq!(text(&out, "ppt/notesSlides/notesSlide5.xml"), "<n/>");
}

#[test]
fn timestamps_are_repaired_before_the_package_is_opened() {
    let mut bytes = deck(&[]);
    let end = bytes.len() - 22;
    let offset = u32::from_le_bytes([
        bytes[end + 16],
        bytes[end + 17],
        bytes[end + 18],
        bytes[end + 19],
    ]) as usize;
    let name_len = u16::from_le_bytes([bytes[offset + 28], bytes[offset + 29]]) as usize;
    let extra = [0x55, 0x54, 9, 0, 1, 0, 0, 0, 0, 0, 0, 0, 0];
    let at = offset + 46 + name_len;
    bytes.splice(at..at, extra.iter().copied());
    bytes[offset + 30] = extra.len() as u8;
    let end = bytes.len() - 22;
    let size = (end - offset) as u32;
    bytes[end + 12..end + 16].copy_from_slice(&size.to_le_bytes());
    assert!(ZipArchive::new(Cursor::new(bytes.clone())).is_err());
    assert!(import(bytes, "1p\nx").is_ok());
}

#[test]
fn one_note_in_a_deck_without_a_master() {
    let mut a = open(deck(&[]));
    let all = names(&deck(&[]));
    let mut slides = HashMap::new();
    slides.insert(1u32, "ppt/slides/slide1.xml".to_string());
    let mut parts = PartSet::new();
    assert!(note_fits(&mut a, &all, &slides, &parts, 1));
    assert_eq!(
        apply_note(&mut a, &all, &slides, &mut parts, 1, "x").unwrap_err(),
        "슬라이드 1번: 이 PPT에 메모 인프라가 없습니다. PowerPoint에서 아무 슬라이드 메모칸에나 한 글자 입력 후 저장하고 다시 시도해주세요."
    );
    assert_eq!(
        apply_note(&mut a, &all, &slides, &mut parts, 2, "x").unwrap_err(),
        "슬라이드 2번이 존재하지 않음"
    );
    assert_eq!(parts.len(), 0);
    inject_notes_master(&mut a, &all, &mut parts, &template()).unwrap();
    assert_eq!(parts.len(), 6);
    apply_note(&mut a, &all, &slides, &mut parts, 1, "x").unwrap();
    assert_eq!(parts.len(), 9);
    assert_eq!(
        parts.get("ppt/notesSlides/notesSlide1.xml"),
        Some(build_new_notes_slide_xml("x").into_bytes())
    );
    assert_eq!(read_entry(&mut a, "ppt/notesSlides/notesSlide1.xml"), None);
}

#[test]
fn import_results() {
    let r = ImportResult::new(vec![1, 2], "{}".to_string());
    assert_eq!(r.bytes(), vec![1, 2]);
    assert_eq!(r.summary_json(), "{}");
}

#[test]
fn a_second_note_for_a_page_replaces_the_first() {
    let existing = "<n> <p:sp><p:ph type=\"body\"/><p:txBody>x</p:txBody></p:sp></n>";
    let before = deck(&[
        ("ppt/notesMasters/notesMaster1.xml", "<m/>"),
        ("ppt/slides/_rels/slide1.xml.rels", SLIDE_RELS),
        ("ppt/notesSlides/notesSlide5.xml", existing),
    ]);
    let all = names(&before);
    let mut slides = HashMap::new();
    slides.insert(1u32, "ppt/slides/slide1.xml".to_string());
    slides.insert(2u32, "ppt/slides/slide2.xml".to_string());
    for page in [1, 2] {
        let mut a = open(before.clone());
        let mut once = PartSet::new();
        apply_note(&mut a, &all, &slides, &mut once, page, "second").unwrap();
        let mut twice = PartSet::new();
        apply_note(&mut a, &all, &slides, &mut twice, page, "first").unwrap();
        assert!(note_fits(&mut a, &all, &slides, &twice, page));
        apply_note(&mut a, &all, &slides, &mut twice, page, "second").unwrap();
        assert_eq!(once.len(), twice.len());
        for i in 0..once.len() {
            assert_eq!(once.name_at(i), twice.name_at(i));
            assert_eq!(once.data_at(i), twice.data_at(i));
        }
    }
}

#[test]
fn importing_the_same_script_again_changes_nothing() {
    let script = "1p\na\n2p\nb\n7p\nnowhere\n1p\nc & d";
    let decks = [
        deck(&[]),
        deck(&[("ppt/notesMasters/notesMaster1.xml", "<m/>")]),
        deck(&[
            ("ppt/notesMasters/notesMaster1.xml", "<m/>"),
            ("ppt/slides/_rels/slide1.xml.rels", SLIDE_RELS),
            ("ppt/notesSlides/notesSlide5.xml", "<n><p:sp><p:ph/><p:txBody>x</p:txBody></p:sp></n>"),
        ]),
        deck(&[
            ("ppt/notesMasters/notesMaster1.xml", "<m/>"),
            ("ppt/slides/_rels/slide1.xml.rels", SLIDE_RELS),
            ("ppt/notesSlides/notesSlide5.xml", "<n/>"),
        ]),
    ];
    let spaced = format!(
        "<?xml version=\"1.0\" encoding=\"UTF-8\"?>\r\n{}\n",
        PRESENTATION.replace("><", ">\n  <")
    );
    let mut all = decks.to_vec();
    all.push(zip_of(&[
        ("[Content_Types].xml", TYPES),
        ("ppt/presentation.xml", &spaced),
        ("ppt/_rels/presentation.xml.rels", PRESENTATION_RELS),
    ]));
    let marked = format!(
        "\u{feff}<?xml version=\"1.0\"?>a{}b",
        PRESENTATION.replace("<p:sldIdLst>", "text & more<p:sldIdLst >").replace("</p:sldIdLst>", "</p:sldIdLst\n>")
    );
    let commented = format!(
        "<?xml version=\"1.0\"?><!-- </p:sldMasterIdLst> -->{PRESENTATION}"
    );
    for presentation in [&marked, &commented] {
        all.push(zip_of(&[
            ("[Content_Types].xml", TYPES),
            ("ppt/presentation.xml", presentation),
            ("ppt/_rels/presentation.xml.rels", PRESENTATION_RELS),
        ]));
    }
    for before in all {
        let (first, once) = import(before, script).ok().unwrap();
        let (second, twice) = import(once.clone(), script).ok().unwrap();
        assert_eq!(messages(&second), messages(&first));
        assert_eq!(twice, once);
    }
}

#[test]
fn both_lists_keep_the_order_of_the_script() {
    let (summary, _) = import(deck(&[]), "2p\na\n9p\nb\n1p\nc\n0p\nd\n2p\ne").ok().unwrap();
    let applied: Vec<u32> = summary.applied.iter().map(|r| r.page).collect();
    let failed: Vec<u32> = summary.failed.iter().map(|r| r.page).collect();
    assert_eq!(applied, vec![2, 1, 2]);
    assert_eq!(failed, vec![9, 0]);
}
