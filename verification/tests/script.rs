//! Reading scripts.

use pptx_notes::script::{page_marker, parse_script};

fn read(script: &str) -> Vec<(u32, String)> {
    parse_script(script).into_iter().map(|b| (b.page, b.text)).collect()
}

#[test]
fn page_markers() {
    assert_eq!(page_marker("1p"), Some(1));
    assert_eq!(page_marker("  12P\t"), Some(12));
    assert_eq!(page_marker("007p"), Some(7));
    assert_eq!(page_marker("4294967295p"), Some(4294967295));
    assert_eq!(page_marker("\u{3000}3p\u{a0}"), Some(3));
}

#[test]
fn lines_that_are_no_page_markers() {
    assert_eq!(page_marker(""), None);
    assert_eq!(page_marker("p"), None);
    assert_eq!(page_marker("1"), None);
    assert_eq!(page_marker("1 p"), None);
    assert_eq!(page_marker("+1p"), None);
    assert_eq!(page_marker("-1p"), None);
    assert_eq!(page_marker("1pp"), None);
    assert_eq!(page_marker("a1p"), None);
    assert_eq!(page_marker("4294967296p"), None);
    assert_eq!(page_marker("１p"), None);
}

#[test]
fn blocks_of_a_script() {
    let script = "intro\n1p\nfirst line\n\nthird line\n\n2p\n3P\n  last  \n";
    assert_eq!(
        read(script),
        vec![
            (1, "first line\n\nthird line".to_string()),
            (2, "".to_string()),
            (3, "last".to_string()),
        ]
    );
}

#[test]
fn script_without_markers_has_no_blocks() {
    assert_eq!(read(""), vec![]);
    assert_eq!(read("hello\nworld"), vec![]);
}

#[test]
fn a_page_may_occur_twice() {
    assert_eq!(read("2p\na\n2p\nb"), vec![(2, "a".to_string()), (2, "b".to_string())]);
}

#[test]
fn byte_order_mark_is_ignored() {
    assert_eq!(read("\u{feff}1p\nhi"), vec![(1, "hi".to_string())]);
    assert_eq!(read("\u{feff}\u{feff}1p\nhi"), vec![]);
}

#[test]
fn line_endings_do_not_matter() {
    let expected = vec![(1, "a\nb".to_string()), (2, "c".to_string())];
    assert_eq!(read("1p\na\nb\n2p\nc"), expected);
    assert_eq!(read("1p\r\na\r\nb\r\n2p\r\nc"), expected);
    assert_eq!(read("1p\ra\rb\r2p\rc"), expected);
    assert_eq!(read("1p\r\na\rb\n2p\r\n\rc"), expected);
}

#[test]
fn a_script_of_notes_reads_back() {
    let notes = vec![(10, "첫 줄\n둘째 줄".to_string()), (4, "".to_string()), (10, "x".to_string())];
    let mut script = String::new();
    for (page, text) in &notes {
        script.push_str(&format!("{page}p\n{text}\n"));
    }
    assert_eq!(read(&script), notes);
}

#[test]
fn note_texts_are_trimmed() {
    assert_eq!(read("1p\n\n \t body \u{2003}\n\n"), vec![(1, "body".to_string())]);
}
