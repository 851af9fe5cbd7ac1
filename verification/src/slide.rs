//! Notes slides as markup: paragraphs, the text body, and whole slides.

use crate::markup::{
    avoids, bare_tag, complete, element, empty_mark, end_mark, lemma_avoids_concat,
    lemma_avoids_element, lemma_complete_concat, lemma_complete_element, lemma_complete_empty,
    lemma_complete_none, lemma_complete_text_element, lemma_marks_text_concat, marks_text,
    start_mark, text_mark, MarkWriter, XmlMark,
};
use crate::text::{
    blank, chars_of, joined, law_only_white_space_is_trimmed, law_pieces_join_to_the_text, split,
    split_at_char, text_of, texts, trim, trimmed,
};
use crate::xml::{
    escaped, law_escaped_holds_no_markup, law_escaped_reads_back, plain_name, plain_tag, unescaped,
    xml_escape_text, XmlKind, XmlTag, DECLARATION,
};
use vstd::prelude::*;
use vstd::string::StringExecFns;

verus! {

// ---- paragraphs ----

/// The tag for the language of a run of text.
pub open spec fn language_tag(name: Seq<char>) -> XmlTag {
    XmlTag { name, attributes: seq![("lang"@, "ko-KR"@), ("dirty"@, "0"@)] }
}

/// A paragraph without text.
pub open spec fn empty_paragraph() -> Seq<XmlMark> {
    element(bare_tag("a:p"@), seq![empty_mark(language_tag("a:endParaRPr"@))])
}

/// A line as a paragraph.
pub open spec fn paragraph(line: Seq<char>) -> Seq<XmlMark> {
    if line.len() == 0 {
        empty_paragraph()
    } else {
        element(
            bare_tag("a:p"@),
            element(
                bare_tag("a:r"@),
                seq![empty_mark(language_tag("a:rPr"@))] + element(
                    bare_tag("a:t"@),
                    seq![text_mark(escaped(line, false))],
                ),
            ),
        )
    }
}

/// Lines as paragraphs, one after another.
pub open spec fn paragraphs_of(lines: Seq<Seq<char>>) -> Seq<XmlMark>
    decreases lines.len(),
{
    if lines.len() == 0 {
        Seq::empty()
    } else {
        paragraphs_of(lines.drop_last()) + paragraph(lines.last())
    }
}

/// A text as paragraphs, one for each line; a blank text is one empty paragraph.
pub open spec fn paragraphs(text: Seq<char>) -> Seq<XmlMark> {
    if trimmed(text).len() == 0 {
        empty_paragraph()
    } else {
        paragraphs_of(split(text, '\n'))
    }
}

fn write_empty_paragraph(w: &mut MarkWriter)
    requires
        old(w).wf(),
    ensures
        final(w).wf(),
        final(w).marks() == old(w).marks() + empty_paragraph(),
{
    w.open0("a:p");
    w.empty2("a:endParaRPr", "lang", "ko-KR", "dirty", "0");
    w.close("a:p");
    assert(w.marks() =~= old(w).marks() + empty_paragraph());
}

fn write_paragraph(w: &mut MarkWriter, line: &[char])
    requires
        old(w).wf(),
    ensures
        final(w).wf(),
        final(w).marks() == old(w).marks() + paragraph(line@),
{
    if line.len() == 0 {
        write_empty_paragraph(w);
    } else {
        w.open0("a:p");
        w.open0("a:r");
        w.empty2("a:rPr", "lang", "ko-KR", "dirty", "0");
        w.open0("a:t");
        w.text(xml_escape_text(text_of(line).as_str()).as_str());
        w.close("a:t");
        w.close("a:r");
        w.close("a:p");
        assert(w.marks() =~= old(w).marks() + paragraph(line@));
    }
}

fn write_paragraphs(w: &mut MarkWriter, text: &str)
    requires
        old(w).wf(),
    ensures
        final(w).wf(),
        final(w).marks() == old(w).marks() + paragraphs(text@),
{
    let chars = chars_of(text);
    if trim(chars.as_slice()).len() == 0 {
        write_empty_paragraph(w);
        return ;
    }
    let ghost before = w.marks();
    let lines = split_at_char(chars.as_slice(), '\n');
    let mut i: usize = 0;
    assert(w.marks() =~= before + paragraphs_of(texts(lines@).take(0)));
    while i < lines.len()
        invariant
            i <= lines@.len(),
            w.wf(),
            w.marks() == before + paragraphs_of(texts(lines@).take(i as int)),
        decreases lines@.len() - i,
    {
        let ghost all = texts(lines@);
        assert(all.take(i + 1).drop_last() == all.take(i as int));
        assert(all.take(i + 1).last() == lines@[i as int]@);
        write_paragraph(w, lines[i].as_slice());
        assert(w.marks() =~= before + paragraphs_of(all.take(i + 1)));
        i = i + 1;
    }
    assert(texts(lines@).take(i as int) == texts(lines@));
}

/// A text as paragraphs, as [`paragraphs`] says.
pub fn paragraphs_xml(text: &str) -> (r: String)
    ensures
        r@ == marks_text(paragraphs(text@)),
{
    let mut w = MarkWriter::new();
    write_paragraphs(&mut w, text);
    assert(w.marks() =~= paragraphs(text@));
    w.into_text()
}

// ---- the text body ----

/// A text body with the given text.
pub open spec fn text_body(text: Seq<char>) -> Seq<XmlMark> {
    element(
        bare_tag("p:txBody"@),
        seq![empty_mark(bare_tag("a:bodyPr"@)), empty_mark(bare_tag("a:lstStyle"@))] + paragraphs(
            text,
        ),
    )
}

fn write_body(w: &mut MarkWriter, text: &str)
    requires
        old(w).wf(),
    ensures
        final(w).wf(),
        final(w).marks() == old(w).marks() + text_body(text@),
{
    w.open0("p:txBody");
    w.empty0("a:bodyPr");
    w.empty0("a:lstStyle");
    write_paragraphs(w, text);
    w.close("p:txBody");
    assert(w.marks() =~= old(w).marks() + text_body(text@));
}

/// A text body with the given text, as [`text_body`] says.
pub fn build_text_body(text: &str) -> (r: String)
    ensures
        r@ == marks_text(text_body(text@)),
{
    let mut w = MarkWriter::new();
    write_body(&mut w, text);
    assert(w.marks() =~= text_body(text@));
    w.into_text()
}

// ---- whole slides ----

/// A tag with two attributes.
pub open spec fn pair_tag(
    name: Seq<char>,
    k1: Seq<char>,
    v1: Seq<char>,
    k2: Seq<char>,
    v2: Seq<char>,
) -> XmlTag {
    XmlTag { name, attributes: seq![(k1, v1), (k2, v2)] }
}

/// The properties of the group that holds all shapes.
pub open spec fn group_marks() -> Seq<XmlMark> {
    element(
        bare_tag("p:nvGrpSpPr"@),
        seq![
            empty_mark(pair_tag("p:cNvPr"@, "id"@, "1"@, "name"@, ""@)),
            empty_mark(bare_tag("p:cNvGrpSpPr"@)),
            empty_mark(bare_tag("p:nvPr"@)),
        ],
    ) + element(
        bare_tag("p:grpSpPr"@),
        element(
            bare_tag("a:xfrm"@),
            seq![
                empty_mark(pair_tag("a:off"@, "x"@, "0"@, "y"@, "0"@)),
                empty_mark(pair_tag("a:ext"@, "cx"@, "0"@, "cy"@, "0"@)),
                empty_mark(pair_tag("a:chOff"@, "x"@, "0"@, "y"@, "0"@)),
                empty_mark(pair_tag("a:chExt"@, "cx"@, "0"@, "cy"@, "0"@)),
            ],
        ),
    )
}

/// The properties of the picture of the slide.
pub open spec fn picture_properties() -> Seq<XmlMark> {
    element(
        bare_tag("p:nvSpPr"@),
        seq![empty_mark(pair_tag("p:cNvPr"@, "id"@, "2"@, "name"@, "Slide Image Placeholder 1"@))]
            + element(
            bare_tag("p:cNvSpPr"@),
            seq![
                empty_mark(
                    XmlTag {
                        name: "a:spLocks"@,
                        attributes: seq![
                            ("noGrp"@, "1"@),
                            ("noRot"@, "1"@),
                            ("noChangeAspect"@, "1"@),
                        ],
                    },
                ),
            ],
        ) + element(
            bare_tag("p:nvPr"@),
            seq![empty_mark(XmlTag { name: "p:ph"@, attributes: seq![("type"@, "sldImg"@)] })],
        ),
    )
}

/// The picture of the slide.
pub open spec fn picture_marks() -> Seq<XmlMark> {
    element(bare_tag("p:sp"@), picture_properties() + seq![empty_mark(bare_tag("p:spPr"@))])
}

/// The tag of the placeholder for the notes text.
pub open spec fn placeholder_tag() -> XmlTag {
    pair_tag("p:ph"@, "type"@, "body"@, "idx"@, "1"@)
}

/// The properties of the shape for the notes text.
pub open spec fn body_properties() -> Seq<XmlMark> {
    element(
        bare_tag("p:nvSpPr"@),
        seq![empty_mark(pair_tag("p:cNvPr"@, "id"@, "3"@, "name"@, "Notes Placeholder 2"@))]
            + element(
            bare_tag("p:cNvSpPr"@),
            seq![
                empty_mark(XmlTag { name: "a:spLocks"@, attributes: seq![("noGrp"@, "1"@)] }),
            ],
        ) + element(bare_tag("p:nvPr"@), seq![empty_mark(placeholder_tag())]),
    ) + seq![empty_mark(bare_tag("p:spPr"@))]
}

/// The shape with the notes text.
pub open spec fn body_shape(text: Seq<char>) -> Seq<XmlMark> {
    element(bare_tag("p:sp"@), body_properties() + text_body(text))
}

/// The colours of the slide: those of the notes master.
pub open spec fn colour_marks() -> Seq<XmlMark> {
    element(bare_tag("p:clrMapOvr"@), seq![empty_mark(bare_tag("a:masterClrMapping"@))])
}

/// The root of a notes slide.
pub open spec fn notes_root() -> XmlTag {
    XmlTag {
        name: "p:notes"@,
        attributes: seq![
            ("xmlns:a"@, "http://schemas.openxmlformats.org/drawingml/2006/main"@),
            (
                "xmlns:r"@,
                "http://schemas.openxmlformats.org/officeDocument/2006/relationships"@,
            ),
            ("xmlns:p"@, "http://schemas.openxmlformats.org/presentationml/2006/main"@),
        ],
    }
}

/// The shapes of a notes slide.
pub open spec fn shape_marks(text: Seq<char>) -> Seq<XmlMark> {
    group_marks() + picture_marks() + body_shape(text)
}

/// What a notes slide shows.
pub open spec fn slide_marks(text: Seq<char>) -> Seq<XmlMark> {
    element(bare_tag("p:cSld"@), element(bare_tag("p:spTree"@), shape_marks(text)))
}

/// A notes slide with the given text, from its root on.
pub open spec fn notes_marks(text: Seq<char>) -> Seq<XmlMark> {
    element(notes_root(), slide_marks(text) + colour_marks())
}

/// A notes slide with the given text.
pub open spec fn notes_slide(text: Seq<char>) -> Seq<char> {
    "<?"@ + DECLARATION@ + "?>"@ + "\n"@ + marks_text(notes_marks(text))
}

fn write_group(w: &mut MarkWriter)
    requires
        old(w).wf(),
    ensures
        final(w).wf(),
        final(w).marks() == old(w).marks() + group_marks(),
{
    w.open0("p:nvGrpSpPr");
    w.empty2("p:cNvPr", "id", "1", "name", "");
    w.empty0("p:cNvGrpSpPr");
    w.empty0("p:nvPr");
    w.close("p:nvGrpSpPr");
    w.open0("p:grpSpPr");
    w.open0("a:xfrm");
    w.empty2("a:off", "x", "0", "y", "0");
    w.empty2("a:ext", "cx", "0", "cy", "0");
    w.empty2("a:chOff", "x", "0", "y", "0");
    w.empty2("a:chExt", "cx", "0", "cy", "0");
    w.close("a:xfrm");
    w.close("p:grpSpPr");
    assert(w.marks() =~= old(w).marks() + group_marks());
}

fn write_picture(w: &mut MarkWriter)
    requires
        old(w).wf(),
    ensures
        final(w).wf(),
        final(w).marks() == old(w).marks() + picture_marks(),
{
    w.open0("p:sp");
    w.open0("p:nvSpPr");
    w.empty2("p:cNvPr", "id", "2", "name", "Slide Image Placeholder 1");
    w.open0("p:cNvSpPr");
    w.empty3("a:spLocks", "noGrp", "1", "noRot", "1", "noChangeAspect", "1");
    w.close("p:cNvSpPr");
    w.open0("p:nvPr");
    w.empty1("p:ph", "type", "sldImg");
    w.close("p:nvPr");
    w.close("p:nvSpPr");
    w.empty0("p:spPr");
    w.close("p:sp");
    assert(w.marks() =~= old(w).marks() + picture_marks());
}

fn write_body_properties(w: &mut MarkWriter)
    requires
        old(w).wf(),
    ensures
        final(w).wf(),
        final(w).marks() == old(w).marks() + body_properties(),
{
    w.open0("p:nvSpPr");
    w.empty2("p:cNvPr", "id", "3", "name", "Notes Placeholder 2");
    w.open0("p:cNvSpPr");
    w.empty1("a:spLocks", "noGrp", "1");
    w.close("p:cNvSpPr");
    w.open0("p:nvPr");
    w.empty2("p:ph", "type", "body", "idx", "1");
    w.close("p:nvPr");
    w.close("p:nvSpPr");
    w.empty0("p:spPr");
    assert(w.marks() =~= old(w).marks() + body_properties());
}

fn write_shapes(w: &mut MarkWriter, text: &str)
    requires
        old(w).wf(),
    ensures
        final(w).wf(),
        final(w).marks() == old(w).marks() + shape_marks(text@),
{
    write_group(w);
    write_picture(w);
    let ghost before = w.marks();
    w.open0("p:sp");
    write_body_properties(w);
    write_body(w, text);
    w.close("p:sp");
    assert(w.marks() =~= before + body_shape(text@));
    assert(w.marks() =~= old(w).marks() + shape_marks(text@));
}

fn write_slide(w: &mut MarkWriter, text: &str)
    requires
        old(w).wf(),
    ensures
        final(w).wf(),
        final(w).marks() == old(w).marks() + slide_marks(text@),
{
    w.open0("p:cSld");
    w.open0("p:spTree");
    write_shapes(w, text);
    w.close("p:spTree");
    w.close("p:cSld");
    assert(w.marks() =~= old(w).marks() + slide_marks(text@));
}

/// A notes slide with the given text, as [`notes_slide`] says.
pub fn build_new_notes_slide_xml(text: &str) -> (r: String)
    ensures
        r@ == notes_slide(text@),
{
    let mut w = MarkWriter::new();
    w.open3(
        "p:notes",
        "xmlns:a",
        "http://schemas.openxmlformats.org/drawingml/2006/main",
        "xmlns:r",
        "http://schemas.openxmlformats.org/officeDocument/2006/relationships",
        "xmlns:p",
        "http://schemas.openxmlformats.org/presentationml/2006/main",
    );
    write_slide(&mut w, text);
    w.open0("p:clrMapOvr");
    w.empty0("a:masterClrMapping");
    w.close("p:clrMapOvr");
    w.close("p:notes");
    assert(w.marks() =~= notes_marks(text@));
    let mut s = "<?".to_string();
    s.append(DECLARATION);
    s.append("?>");
    s.append("\n");
    s.append(w.into_text().as_str());
    s
}

// ---- these are complete markup ----

proof fn lemma_bare(name: Seq<char>)
    requires
        plain_name(name),
    ensures
        plain_tag(bare_tag(name)),
{
}

proof fn lemma_language_tag(name: Seq<char>)
    requires
        plain_name(name),
    ensures
        plain_tag(language_tag(name)),
{
    reveal_strlit("lang");
    reveal_strlit("ko-KR");
    reveal_strlit("dirty");
    reveal_strlit("0");
    assert("lang"@.len() != "dirty"@.len());
}

proof fn lemma_empty_paragraph()
    ensures
        complete(empty_paragraph()),
{
    reveal_strlit("a:p");
    reveal_strlit("a:endParaRPr");
    lemma_language_tag("a:endParaRPr"@);
    lemma_complete_empty(language_tag("a:endParaRPr"@));
    lemma_bare("a:p"@);
    lemma_complete_element(bare_tag("a:p"@), seq![empty_mark(language_tag("a:endParaRPr"@))]);
}

proof fn lemma_paragraph(line: Seq<char>)
    ensures
        complete(paragraph(line)),
{
    if line.len() == 0 {
        lemma_empty_paragraph();
    } else {
        reveal_strlit("a:p");
        reveal_strlit("a:r");
        reveal_strlit("a:rPr");
        reveal_strlit("a:t");
        lemma_language_tag("a:rPr"@);
        lemma_complete_empty(language_tag("a:rPr"@));
        law_escaped_holds_no_markup(line, false);
        law_escaped_reads_back(line, false);
        let run = escaped(line, false);
        assert(run.len() > 0) by {
            if run.len() == 0 {
                assert(unescaped(run) == Seq::<char>::empty());
            }
        }
        lemma_bare("a:t"@);
        lemma_bare("a:r"@);
        lemma_bare("a:p"@);
        let t = element(bare_tag("a:t"@), seq![text_mark(run)]);
        lemma_complete_text_element(bare_tag("a:t"@), run);
        let r = seq![empty_mark(language_tag("a:rPr"@))] + t;
        lemma_complete_concat(seq![empty_mark(language_tag("a:rPr"@))], t);
        lemma_complete_element(bare_tag("a:r"@), r);
        lemma_complete_element(bare_tag("a:p"@), element(bare_tag("a:r"@), r));
    }
}

proof fn lemma_paragraphs_of(lines: Seq<Seq<char>>)
    ensures
        complete(paragraphs_of(lines)),
    decreases lines.len(),
{
    if lines.len() == 0 {
        lemma_complete_none();
    } else {
        lemma_paragraphs_of(lines.drop_last());
        lemma_paragraph(lines.last());
        lemma_complete_concat(paragraphs_of(lines.drop_last()), paragraph(lines.last()));
    }
}

/// A text body is complete markup.
pub proof fn lemma_text_body(text: Seq<char>)
    ensures
        complete(text_body(text)),
        complete(paragraphs(text)),
{
    if trimmed(text).len() == 0 {
        lemma_empty_paragraph();
    } else {
        lemma_paragraphs_of(split(text, '\n'));
    }
    reveal_strlit("p:txBody");
    reveal_strlit("a:bodyPr");
    reveal_strlit("a:lstStyle");
    lemma_bare("p:txBody"@);
    lemma_bare("a:bodyPr"@);
    lemma_bare("a:lstStyle"@);
    let a = seq![empty_mark(bare_tag("a:bodyPr"@))];
    let b = seq![empty_mark(bare_tag("a:lstStyle"@))];
    lemma_complete_empty(bare_tag("a:bodyPr"@));
    lemma_complete_empty(bare_tag("a:lstStyle"@));
    lemma_complete_concat(a, b);
    let both = seq![empty_mark(bare_tag("a:bodyPr"@)), empty_mark(bare_tag("a:lstStyle"@))];
    assert(a + b =~= both);
    lemma_complete_concat(both, paragraphs(text));
    lemma_complete_element(bare_tag("p:txBody"@), both + paragraphs(text));
}

proof fn lemma_three_empty(a: XmlTag, b: XmlTag, c: XmlTag)
    requires
        plain_tag(a),
        plain_tag(b),
        plain_tag(c),
    ensures
        complete(seq![empty_mark(a), empty_mark(b), empty_mark(c)]),
{
    lemma_complete_empty(a);
    lemma_complete_empty(b);
    lemma_complete_empty(c);
    let ab = seq![empty_mark(a)] + seq![empty_mark(b)];
    lemma_complete_concat(seq![empty_mark(a)], seq![empty_mark(b)]);
    lemma_complete_concat(ab, seq![empty_mark(c)]);
    assert(ab + seq![empty_mark(c)] =~= seq![empty_mark(a), empty_mark(b), empty_mark(c)]);
}

proof fn lemma_group()
    ensures
        complete(group_marks()),
{
    reveal_strlit("p:nvGrpSpPr");
    reveal_strlit("p:cNvPr");
    reveal_strlit("p:cNvGrpSpPr");
    reveal_strlit("p:nvPr");
    reveal_strlit("id");
    reveal_strlit("name");
    reveal_strlit("1");
    reveal_strlit("");
    reveal_strlit("p:grpSpPr");
    reveal_strlit("a:xfrm");
    reveal_strlit("a:off");
    reveal_strlit("a:ext");
    reveal_strlit("a:chOff");
    reveal_strlit("a:chExt");
    reveal_strlit("x");
    reveal_strlit("y");
    reveal_strlit("cx");
    reveal_strlit("cy");
    reveal_strlit("0");
    let t1 = pair_tag("p:cNvPr"@, "id"@, "1"@, "name"@, ""@);
    let t2 = bare_tag("p:cNvGrpSpPr"@);
    let t3 = bare_tag("p:nvPr"@);
    assert("id"@.len() != "name"@.len());
    assert(plain_tag(t1));
    assert(plain_tag(t2));
    assert(plain_tag(t3));
    lemma_three_empty(t1, t2, t3);
    let a = seq![empty_mark(t1), empty_mark(t2), empty_mark(t3)];
    lemma_bare("p:nvGrpSpPr"@);
    lemma_complete_element(bare_tag("p:nvGrpSpPr"@), a);
    let u1 = pair_tag("a:off"@, "x"@, "0"@, "y"@, "0"@);
    let u2 = pair_tag("a:ext"@, "cx"@, "0"@, "cy"@, "0"@);
    let u3 = pair_tag("a:chOff"@, "x"@, "0"@, "y"@, "0"@);
    let u4 = pair_tag("a:chExt"@, "cx"@, "0"@, "cy"@, "0"@);
    assert("x"@[0] != "y"@[0]);
    assert("cx"@[1] != "cy"@[1]);
    assert(plain_tag(u1));
    assert(plain_tag(u2));
    assert(plain_tag(u3));
    assert(plain_tag(u4));
    lemma_three_empty(u1, u2, u3);
    lemma_complete_empty(u4);
    let b3 = seq![empty_mark(u1), empty_mark(u2), empty_mark(u3)];
    let b = seq![empty_mark(u1), empty_mark(u2), empty_mark(u3), empty_mark(u4)];
    lemma_complete_concat(b3, seq![empty_mark(u4)]);
    assert(b3 + seq![empty_mark(u4)] =~= b);
    lemma_bare("a:xfrm"@);
    lemma_bare("p:grpSpPr"@);
    lemma_complete_element(bare_tag("a:xfrm"@), b);
    lemma_complete_element(bare_tag("p:grpSpPr"@), element(bare_tag("a:xfrm"@), b));
    lemma_complete_concat(
        element(bare_tag("p:nvGrpSpPr"@), a),
        element(bare_tag("p:grpSpPr"@), element(bare_tag("a:xfrm"@), b)),
    );
}

/// The properties of a shape are complete if its tags are plain.
proof fn lemma_properties(cnv: XmlTag, locks: XmlTag, placeholder: XmlTag)
    requires
        plain_tag(cnv),
        plain_tag(locks),
        plain_tag(placeholder),
    ensures
        complete(
            element(
                bare_tag("p:nvSpPr"@),
                seq![empty_mark(cnv)] + element(
                    bare_tag("p:cNvSpPr"@),
                    seq![empty_mark(locks)],
                ) + element(bare_tag("p:nvPr"@), seq![empty_mark(placeholder)]),
            ),
        ),
{
    reveal_strlit("p:nvSpPr");
    reveal_strlit("p:cNvSpPr");
    reveal_strlit("p:nvPr");
    lemma_bare("p:nvSpPr"@);
    lemma_bare("p:cNvSpPr"@);
    lemma_bare("p:nvPr"@);
    lemma_complete_empty(cnv);
    lemma_complete_empty(locks);
    lemma_complete_empty(placeholder);
    let a = seq![empty_mark(cnv)];
    let b = element(bare_tag("p:cNvSpPr"@), seq![empty_mark(locks)]);
    let c = element(bare_tag("p:nvPr"@), seq![empty_mark(placeholder)]);
    lemma_complete_element(bare_tag("p:cNvSpPr"@), seq![empty_mark(locks)]);
    lemma_complete_element(bare_tag("p:nvPr"@), seq![empty_mark(placeholder)]);
    lemma_complete_concat(a, b);
    lemma_complete_concat(a + b, c);
    lemma_complete_element(bare_tag("p:nvSpPr"@), a + b + c);
}

proof fn lemma_sp_pr()
    ensures
        complete(seq![empty_mark(bare_tag("p:spPr"@))]),
        plain_tag(bare_tag("p:sp"@)),
{
    reveal_strlit("p:spPr");
    reveal_strlit("p:sp");
    lemma_bare("p:spPr"@);
    lemma_complete_empty(bare_tag("p:spPr"@));
}

proof fn lemma_picture()
    ensures
        complete(picture_marks()),
{
    reveal_strlit("p:cNvPr");
    reveal_strlit("id");
    reveal_strlit("2");
    reveal_strlit("name");
    reveal_strlit("Slide Image Placeholder 1");
    reveal_strlit("a:spLocks");
    reveal_strlit("noGrp");
    reveal_strlit("noRot");
    reveal_strlit("noChangeAspect");
    reveal_strlit("1");
    reveal_strlit("p:ph");
    reveal_strlit("type");
    reveal_strlit("sldImg");
    assert("id"@.len() != "name"@.len());
    assert("noGrp"@[2] != "noRot"@[2]);
    assert("noGrp"@.len() != "noChangeAspect"@.len());
    assert("noRot"@.len() != "noChangeAspect"@.len());
    let cnv = pair_tag("p:cNvPr"@, "id"@, "2"@, "name"@, "Slide Image Placeholder 1"@);
    let locks = XmlTag {
        name: "a:spLocks"@,
        attributes: seq![("noGrp"@, "1"@), ("noRot"@, "1"@), ("noChangeAspect"@, "1"@)],
    };
    let ph = XmlTag { name: "p:ph"@, attributes: seq![("type"@, "sldImg"@)] };
    assert(plain_tag(cnv));
    assert(plain_tag(locks));
    assert(plain_tag(ph));
    lemma_properties(cnv, locks, ph);
    lemma_sp_pr();
    lemma_complete_concat(picture_properties(), seq![empty_mark(bare_tag("p:spPr"@))]);
    lemma_complete_element(
        bare_tag("p:sp"@),
        picture_properties() + seq![empty_mark(bare_tag("p:spPr"@))],
    );
}

/// The properties of the shape for the notes text are complete markup.
pub proof fn lemma_body_properties()
    ensures
        complete(body_properties()),
        plain_tag(bare_tag("p:sp"@)),
        plain_tag(placeholder_tag()),
{
    reveal_strlit("p:cNvPr");
    reveal_strlit("id");
    reveal_strlit("3");
    reveal_strlit("name");
    reveal_strlit("Notes Placeholder 2");
    reveal_strlit("a:spLocks");
    reveal_strlit("noGrp");
    reveal_strlit("1");
    reveal_strlit("p:ph");
    reveal_strlit("type");
    reveal_strlit("body");
    reveal_strlit("idx");
    assert("id"@.len() != "name"@.len());
    assert("type"@.len() != "idx"@.len());
    let cnv = pair_tag("p:cNvPr"@, "id"@, "3"@, "name"@, "Notes Placeholder 2"@);
    let locks = XmlTag { name: "a:spLocks"@, attributes: seq![("noGrp"@, "1"@)] };
    assert(plain_tag(cnv));
    assert(plain_tag(locks));
    assert(plain_tag(placeholder_tag()));
    lemma_properties(cnv, locks, placeholder_tag());
    lemma_sp_pr();
    let props = element(
        bare_tag("p:nvSpPr"@),
        seq![empty_mark(cnv)] + element(bare_tag("p:cNvSpPr"@), seq![empty_mark(locks)]) + element(
            bare_tag("p:nvPr"@),
            seq![empty_mark(placeholder_tag())],
        ),
    );
    lemma_complete_concat(props, seq![empty_mark(bare_tag("p:spPr"@))]);
}

proof fn lemma_colours()
    ensures
        complete(colour_marks()),
{
    reveal_strlit("p:clrMapOvr");
    reveal_strlit("a:masterClrMapping");
    lemma_bare("p:clrMapOvr"@);
    lemma_bare("a:masterClrMapping"@);
    lemma_complete_empty(bare_tag("a:masterClrMapping"@));
    lemma_complete_element(
        bare_tag("p:clrMapOvr"@),
        seq![empty_mark(bare_tag("a:masterClrMapping"@))],
    );
}

proof fn lemma_notes_root()
    ensures
        plain_tag(notes_root()),
        plain_tag(bare_tag("p:cSld"@)),
        plain_tag(bare_tag("p:spTree"@)),
{
    reveal_strlit("p:notes");
    reveal_strlit("p:cSld");
    reveal_strlit("p:spTree");
    reveal_strlit("xmlns:a");
    reveal_strlit("xmlns:r");
    reveal_strlit("xmlns:p");
    reveal_strlit("http://schemas.openxmlformats.org/drawingml/2006/main");
    reveal_strlit("http://schemas.openxmlformats.org/officeDocument/2006/relationships");
    reveal_strlit("http://schemas.openxmlformats.org/presentationml/2006/main");
    assert("xmlns:a"@[6] != "xmlns:r"@[6]);
    assert("xmlns:a"@[6] != "xmlns:p"@[6]);
    assert("xmlns:r"@[6] != "xmlns:p"@[6]);
}

/// A notes slide is complete markup, from its root on.
pub proof fn lemma_notes_marks(text: Seq<char>)
    ensures
        complete(notes_marks(text)),
{
    lemma_group();
    lemma_picture();
    lemma_body_properties();
    lemma_text_body(text);
    lemma_colours();
    lemma_notes_root();
    lemma_complete_concat(body_properties(), text_body(text));
    lemma_complete_element(bare_tag("p:sp"@), body_properties() + text_body(text));
    lemma_complete_concat(group_marks(), picture_marks());
    lemma_complete_concat(group_marks() + picture_marks(), body_shape(text));
    let tree = element(bare_tag("p:spTree"@), shape_marks(text));
    let slide = element(bare_tag("p:cSld"@), tree);
    lemma_complete_element(bare_tag("p:spTree"@), shape_marks(text));
    lemma_complete_element(bare_tag("p:cSld"@), tree);
    lemma_complete_concat(slide, colour_marks());
    lemma_complete_element(notes_root(), slide + colour_marks());
}

// ---- where the text body stands ----

/// A notes slide up to the shape with the notes text, from its root on.
pub open spec fn marks_before_shape() -> Seq<XmlMark> {
    seq![
        start_mark(notes_root()),
        start_mark(bare_tag("p:cSld"@)),
        start_mark(bare_tag("p:spTree"@)),
    ] + (group_marks() + picture_marks())
}

/// A notes slide up to the text body, from its root on.
pub open spec fn marks_before_body() -> Seq<XmlMark> {
    marks_before_shape() + seq![start_mark(bare_tag("p:sp"@))] + body_properties()
}

/// A notes slide after the text body.
pub open spec fn marks_after_body() -> Seq<XmlMark> {
    seq![end_mark("p:sp"@), end_mark("p:spTree"@), end_mark("p:cSld"@)] + colour_marks() + seq![
        end_mark("p:notes"@),
    ]
}

/// A notes slide is its text body and what stands around it, whatever the text.
pub proof fn lemma_notes_around_body(text: Seq<char>)
    ensures
        notes_marks(text) == marks_before_body() + text_body(text) + marks_after_body(),
{
    let shapes = group_marks() + picture_marks();
    let props = body_properties();
    let body = text_body(text);
    let shape = seq![start_mark(bare_tag("p:sp"@))] + (props + body) + seq![end_mark("p:sp"@)];
    assert(body_shape(text) == shape);
    assert(shape_marks(text) == shapes + shape);
    assert(notes_marks(text) =~= marks_before_body() + body + marks_after_body());
}

/// The lines of a text hold no text body.
pub proof fn lemma_paragraphs_avoid(text: Seq<char>)
    ensures
        avoids(paragraphs(text), "p:txBody"@),
{
    if trimmed(text).len() == 0 {
        lemma_paragraph_avoids(Seq::empty());
    } else {
        lemma_lines_avoid(split(text, '\n'));
    }
}

proof fn lemma_lines_avoid(lines: Seq<Seq<char>>)
    ensures
        avoids(paragraphs_of(lines), "p:txBody"@),
    decreases lines.len(),
{
    if lines.len() > 0 {
        lemma_lines_avoid(lines.drop_last());
        lemma_paragraph_avoids(lines.last());
        lemma_avoids_concat(
            paragraphs_of(lines.drop_last()),
            paragraph(lines.last()),
            "p:txBody"@,
        );
    }
}

proof fn lemma_paragraph_avoids(line: Seq<char>)
    ensures
        avoids(paragraph(line), "p:txBody"@),
{
    let body = "p:txBody"@;
    reveal_strlit("p:txBody");
    reveal_strlit("a:p");
    reveal_strlit("a:r");
    reveal_strlit("a:rPr");
    reveal_strlit("a:t");
    reveal_strlit("a:endParaRPr");
    assert("a:p"@.len() != body.len());
    assert("a:r"@.len() != body.len());
    assert("a:rPr"@.len() != body.len());
    assert("a:t"@.len() != body.len());
    assert("a:endParaRPr"@.len() != body.len());
    if line.len() == 0 {
        lemma_avoids_element(
            bare_tag("a:p"@),
            seq![empty_mark(language_tag("a:endParaRPr"@))],
            body,
        );
    } else {
        let text = seq![text_mark(escaped(line, false))];
        let t = element(bare_tag("a:t"@), text);
        let properties = seq![empty_mark(language_tag("a:rPr"@))];
        lemma_avoids_element(bare_tag("a:t"@), text, body);
        lemma_avoids_concat(properties, t, body);
        lemma_avoids_element(bare_tag("a:r"@), properties + t, body);
        lemma_avoids_element(bare_tag("a:p"@), element(bare_tag("a:r"@), properties + t), body);
    }
}

proof fn lemma_group_avoids()
    ensures
        avoids(group_marks(), "p:txBody"@),
{
    let body = "p:txBody"@;
    reveal_strlit("p:txBody");
    reveal_strlit("p:nvGrpSpPr");
    reveal_strlit("p:cNvPr");
    reveal_strlit("p:cNvGrpSpPr");
    reveal_strlit("p:nvPr");
    reveal_strlit("p:grpSpPr");
    reveal_strlit("a:xfrm");
    reveal_strlit("a:off");
    reveal_strlit("a:ext");
    reveal_strlit("a:chOff");
    reveal_strlit("a:chExt");
    assert("p:nvGrpSpPr"@.len() != body.len());
    assert("p:cNvPr"@.len() != body.len());
    assert("p:cNvGrpSpPr"@.len() != body.len());
    assert("p:nvPr"@.len() != body.len());
    assert("p:grpSpPr"@.len() != body.len());
    assert("a:xfrm"@.len() != body.len());
    assert("a:off"@.len() != body.len());
    assert("a:ext"@.len() != body.len());
    assert("a:chOff"@.len() != body.len());
    assert("a:chExt"@.len() != body.len());
    let a = seq![
        empty_mark(pair_tag("p:cNvPr"@, "id"@, "1"@, "name"@, ""@)),
        empty_mark(bare_tag("p:cNvGrpSpPr"@)),
        empty_mark(bare_tag("p:nvPr"@)),
    ];
    let b = seq![
        empty_mark(pair_tag("a:off"@, "x"@, "0"@, "y"@, "0"@)),
        empty_mark(pair_tag("a:ext"@, "cx"@, "0"@, "cy"@, "0"@)),
        empty_mark(pair_tag("a:chOff"@, "x"@, "0"@, "y"@, "0"@)),
        empty_mark(pair_tag("a:chExt"@, "cx"@, "0"@, "cy"@, "0"@)),
    ];
    lemma_avoids_element(bare_tag("p:nvGrpSpPr"@), a, body);
    lemma_avoids_element(bare_tag("a:xfrm"@), b, body);
    lemma_avoids_element(bare_tag("p:grpSpPr"@), element(bare_tag("a:xfrm"@), b), body);
    lemma_avoids_concat(
        element(bare_tag("p:nvGrpSpPr"@), a),
        element(bare_tag("p:grpSpPr"@), element(bare_tag("a:xfrm"@), b)),
        body,
    );
}

/// The properties of a shape hold no tag with a name that none of its tags has.
proof fn lemma_properties_avoid(
    cnv: XmlTag,
    locks: XmlTag,
    placeholder: XmlTag,
    name: Seq<char>,
)
    requires
        cnv.name != name,
        locks.name != name,
        placeholder.name != name,
        "p:nvSpPr"@ != name,
        "p:cNvSpPr"@ != name,
        "p:nvPr"@ != name,
    ensures
        avoids(
            element(
                bare_tag("p:nvSpPr"@),
                seq![empty_mark(cnv)] + element(
                    bare_tag("p:cNvSpPr"@),
                    seq![empty_mark(locks)],
                ) + element(bare_tag("p:nvPr"@), seq![empty_mark(placeholder)]),
            ),
            name,
        ),
{
    let a = seq![empty_mark(cnv)];
    let b = element(bare_tag("p:cNvSpPr"@), seq![empty_mark(locks)]);
    let c = element(bare_tag("p:nvPr"@), seq![empty_mark(placeholder)]);
    lemma_avoids_element(bare_tag("p:cNvSpPr"@), seq![empty_mark(locks)], name);
    lemma_avoids_element(bare_tag("p:nvPr"@), seq![empty_mark(placeholder)], name);
    lemma_avoids_concat(a, b, name);
    lemma_avoids_concat(a + b, c, name);
    lemma_avoids_element(bare_tag("p:nvSpPr"@), a + b + c, name);
}

proof fn lemma_shape_names()
    ensures
        "p:nvSpPr"@ != "p:txBody"@,
        "p:cNvSpPr"@ != "p:txBody"@,
        "p:nvPr"@ != "p:txBody"@,
        "p:cNvPr"@ != "p:txBody"@,
        "a:spLocks"@ != "p:txBody"@,
        "p:ph"@ != "p:txBody"@,
        "p:spPr"@ != "p:txBody"@,
        "p:sp"@ != "p:txBody"@,
        "p:nvSpPr"@ != "p:sp"@,
        "p:cNvSpPr"@ != "p:sp"@,
        "p:nvPr"@ != "p:sp"@,
        "p:cNvPr"@ != "p:sp"@,
        "a:spLocks"@ != "p:sp"@,
        "p:ph"@ != "p:sp"@,
        "p:spPr"@ != "p:sp"@,
{
    reveal_strlit("p:txBody");
    reveal_strlit("p:sp");
    reveal_strlit("p:nvSpPr");
    reveal_strlit("p:cNvSpPr");
    reveal_strlit("p:nvPr");
    reveal_strlit("p:cNvPr");
    reveal_strlit("a:spLocks");
    reveal_strlit("p:ph");
    reveal_strlit("p:spPr");
    assert("p:nvSpPr"@[2] != "p:txBody"@[2]);
    assert("p:ph"@[2] != "p:sp"@[2]);
    assert("p:cNvSpPr"@.len() != "p:txBody"@.len());
    assert("p:nvPr"@.len() != "p:txBody"@.len());
    assert("p:cNvPr"@.len() != "p:txBody"@.len());
    assert("a:spLocks"@.len() != "p:txBody"@.len());
    assert("p:ph"@.len() != "p:txBody"@.len());
    assert("p:spPr"@.len() != "p:txBody"@.len());
    assert("p:sp"@.len() != "p:txBody"@.len());
    assert("p:nvSpPr"@.len() != "p:sp"@.len());
    assert("p:cNvSpPr"@.len() != "p:sp"@.len());
    assert("p:nvPr"@.len() != "p:sp"@.len());
    assert("p:cNvPr"@.len() != "p:sp"@.len());
    assert("a:spLocks"@.len() != "p:sp"@.len());
    assert("p:spPr"@.len() != "p:sp"@.len());
}

/// Before the shape with the notes text there is no text body.
pub proof fn lemma_before_shape_avoids()
    ensures
        avoids(marks_before_shape(), "p:txBody"@),
{
    let body = "p:txBody"@;
    lemma_shape_names();
    reveal_strlit("p:txBody");
    reveal_strlit("p:notes");
    reveal_strlit("p:cSld");
    reveal_strlit("p:spTree");
    assert("p:notes"@.len() != body.len());
    assert("p:cSld"@.len() != body.len());
    assert("p:spTree"@[2] != body[2]);
    lemma_group_avoids();
    let locks = XmlTag {
        name: "a:spLocks"@,
        attributes: seq![("noGrp"@, "1"@), ("noRot"@, "1"@), ("noChangeAspect"@, "1"@)],
    };
    lemma_properties_avoid(
        pair_tag("p:cNvPr"@, "id"@, "2"@, "name"@, "Slide Image Placeholder 1"@),
        locks,
        XmlTag { name: "p:ph"@, attributes: seq![("type"@, "sldImg"@)] },
        body,
    );
    let last = seq![empty_mark(bare_tag("p:spPr"@))];
    lemma_avoids_concat(picture_properties(), last, body);
    lemma_avoids_element(bare_tag("p:sp"@), picture_properties() + last, body);
    lemma_avoids_concat(group_marks(), picture_marks(), body);
    let first = seq![
        start_mark(notes_root()),
        start_mark(bare_tag("p:cSld"@)),
        start_mark(bare_tag("p:spTree"@)),
    ];
    assert(avoids(first, body));
    lemma_avoids_concat(first, group_marks() + picture_marks(), body);
}

/// The properties of the shape with the notes text hold no text body and no shape, but
/// a placeholder.
pub proof fn lemma_body_properties_avoid()
    ensures
        avoids(body_properties(), "p:txBody"@),
        avoids(body_properties(), "p:sp"@),
        body_properties().contains(empty_mark(placeholder_tag())),
{
    lemma_shape_names();
    let cnv = pair_tag("p:cNvPr"@, "id"@, "3"@, "name"@, "Notes Placeholder 2"@);
    let locks = XmlTag { name: "a:spLocks"@, attributes: seq![("noGrp"@, "1"@)] };
    lemma_properties_avoid(cnv, locks, placeholder_tag(), "p:txBody"@);
    lemma_properties_avoid(cnv, locks, placeholder_tag(), "p:sp"@);
    let properties = element(
        bare_tag("p:nvSpPr"@),
        seq![empty_mark(cnv)] + element(bare_tag("p:cNvSpPr"@), seq![empty_mark(locks)]) + element(
            bare_tag("p:nvPr"@),
            seq![empty_mark(placeholder_tag())],
        ),
    );
    let last = seq![empty_mark(bare_tag("p:spPr"@))];
    lemma_avoids_concat(properties, last, "p:txBody"@);
    lemma_avoids_concat(properties, last, "p:sp"@);
    assert(body_properties() == properties + last);
    assert(body_properties()[6] == empty_mark(placeholder_tag()));
}

// ---- the text that is read back ----

/// The texts of the paragraphs in a list of marks: each start tag `a:p` begins one, and a
/// text right after a start tag `a:t` belongs to the last one begun, with its entities turned
/// back into characters.
pub open spec fn paragraph_texts(marks: Seq<XmlMark>) -> Seq<Seq<char>>
    decreases marks.len(),
{
    if marks.len() == 0 {
        Seq::empty()
    } else {
        let before = paragraph_texts(marks.drop_last());
        let m = marks.last();
        if m.kind == XmlKind::Start && m.tag.name == "a:p"@ {
            before.push(Seq::empty())
        } else if m.kind == XmlKind::Text && before.len() > 0 && marks.len() > 1
            && marks[marks.len() - 2].kind == XmlKind::Start && marks[marks.len() - 2].tag.name
            == "a:t"@ {
            before.drop_last().push(before.last() + unescaped(m.text))
        } else {
            before
        }
    }
}

proof fn lemma_read_mark(marks: Seq<XmlMark>, m: XmlMark)
    requires
        m.kind != XmlKind::Text,
        m.kind != XmlKind::Start || m.tag.name != "a:p"@,
    ensures
        paragraph_texts(marks.push(m)) == paragraph_texts(marks),
{
    assert(marks.push(m).drop_last() =~= marks);
}

proof fn lemma_paragraph_names()
    ensures
        "a:p"@ != "a:r"@,
        "a:p"@ != "a:t"@,
{
    reveal_strlit("a:p");
    reveal_strlit("a:r");
    reveal_strlit("a:t");
    assert("a:p"@[2] == 'p');
    assert("a:r"@[2] == 'r');
    assert("a:t"@[2] == 't');
}

proof fn lemma_read_paragraph(marks: Seq<XmlMark>, line: Seq<char>)
    ensures
        paragraph_texts(marks + paragraph(line)) == paragraph_texts(marks).push(line),
{
    lemma_paragraph_names();
    let before = paragraph_texts(marks);
    let m1 = marks.push(start_mark(bare_tag("a:p"@)));
    assert(m1.drop_last() =~= marks);
    assert(paragraph_texts(m1) == before.push(Seq::<char>::empty()));
    if line.len() == 0 {
        let m2 = m1.push(empty_mark(language_tag("a:endParaRPr"@)));
        let m3 = m2.push(end_mark("a:p"@));
        lemma_read_mark(m1, empty_mark(language_tag("a:endParaRPr"@)));
        lemma_read_mark(m2, end_mark("a:p"@));
        assert(marks + paragraph(line) =~= m3);
        assert(line =~= Seq::<char>::empty());
    } else {
        let m2 = m1.push(start_mark(bare_tag("a:r"@)));
        let m3 = m2.push(empty_mark(language_tag("a:rPr"@)));
        let m4 = m3.push(start_mark(bare_tag("a:t"@)));
        let m5 = m4.push(text_mark(escaped(line, false)));
        let m6 = m5.push(end_mark("a:t"@));
        let m7 = m6.push(end_mark("a:r"@));
        let m8 = m7.push(end_mark("a:p"@));
        lemma_read_mark(m1, start_mark(bare_tag("a:r"@)));
        lemma_read_mark(m2, empty_mark(language_tag("a:rPr"@)));
        lemma_read_mark(m3, start_mark(bare_tag("a:t"@)));
        assert(paragraph_texts(m4) == before.push(Seq::<char>::empty()));
        assert(m5.drop_last() =~= m4);
        assert(m5[m5.len() - 2] == start_mark(bare_tag("a:t"@)));
        law_escaped_reads_back(line, false);
        assert(Seq::<char>::empty() + line =~= line);
        assert(before.push(Seq::<char>::empty()).drop_last() =~= before);
        assert(paragraph_texts(m5) == before.push(line));
        lemma_read_mark(m5, end_mark("a:t"@));
        lemma_read_mark(m6, end_mark("a:r"@));
        lemma_read_mark(m7, end_mark("a:p"@));
        assert(marks + paragraph(line) =~= m8);
    }
}

proof fn lemma_read_paragraphs(marks: Seq<XmlMark>, lines: Seq<Seq<char>>)
    ensures
        paragraph_texts(marks + paragraphs_of(lines)) == paragraph_texts(marks) + lines,
    decreases lines.len(),
{
    if lines.len() == 0 {
        assert(marks + paragraphs_of(lines) =~= marks);
        assert(paragraph_texts(marks) + lines =~= paragraph_texts(marks));
    } else {
        let init = lines.drop_last();
        lemma_read_paragraphs(marks, init);
        lemma_read_paragraph(marks + paragraphs_of(init), lines.last());
        assert(marks + paragraphs_of(lines) =~= marks + paragraphs_of(init) + paragraph(lines.last()));
        assert((paragraph_texts(marks) + init).push(lines.last()) =~= paragraph_texts(marks) + lines);
    }
}

/// Whether marks neither begin a paragraph nor hold a text.
pub open spec fn no_paragraphs(marks: Seq<XmlMark>) -> bool {
    forall|i: int|
        0 <= i < marks.len() ==> (#[trigger] marks[i]).kind != XmlKind::Text && (marks[i].kind
            != XmlKind::Start || marks[i].tag.name != "a:p"@)
}

proof fn lemma_no_paragraphs(marks: Seq<XmlMark>, more: Seq<XmlMark>)
    requires
        no_paragraphs(more),
    ensures
        paragraph_texts(marks + more) == paragraph_texts(marks),
    decreases more.len(),
{
    if more.len() == 0 {
        assert(marks + more =~= marks);
    } else {
        let init = more.drop_last();
        assert forall|i: int| 0 <= i < init.len() implies (#[trigger] init[i]).kind != XmlKind::Text
            && (init[i].kind != XmlKind::Start || init[i].tag.name != "a:p"@) by {
            assert(init[i] == more[i]);
        }
        lemma_no_paragraphs(marks, init);
        assert(more[more.len() - 1] == more.last());
        lemma_read_mark(marks + init, more.last());
        assert(marks + more =~= (marks + init).push(more.last()));
    }
}

proof fn lemma_read_text(marks: Seq<XmlMark>, text: Seq<char>)
    ensures
        paragraph_texts(marks + paragraphs(text)) == paragraph_texts(marks) + (if blank(text) {
            seq![Seq::<char>::empty()]
        } else {
            split(text, '\n')
        }),
{
    law_only_white_space_is_trimmed(text);
    if blank(text) {
        let none = Seq::<char>::empty();
        lemma_read_paragraph(marks, none);
        assert(paragraph(none) == empty_paragraph());
        assert(paragraph_texts(marks).push(none) =~= paragraph_texts(marks) + seq![none]);
    } else {
        lemma_read_paragraphs(marks, split(text, '\n'));
    }
}

/// The paragraphs of a text that is not blank give the text back: there is one for each
/// line, none holds a line end, and their texts joined with line ends are the text. A blank
/// text is one paragraph without a text.
pub proof fn law_paragraphs_give_the_text_back(text: Seq<char>)
    ensures
        !blank(text) ==> {
            let read = paragraph_texts(paragraphs(text));
            &&& joined(read, '\n') == text
            &&& read.len() == text.filter(|c: char| c == '\n').len() + 1
            &&& forall|i: int| 0 <= i < read.len() ==> !(#[trigger] read[i]).contains('\n')
        },
        blank(text) ==> paragraph_texts(paragraphs(text)) == seq![Seq::<char>::empty()],
{
    let none = Seq::<XmlMark>::empty();
    lemma_read_text(none, text);
    assert(none + paragraphs(text) =~= paragraphs(text));
    assert(paragraph_texts(none) == Seq::<Seq<char>>::empty());
    law_pieces_join_to_the_text(text, '\n');
    assert(Seq::<Seq<char>>::empty() + split(text, '\n') =~= split(text, '\n'));
    assert(Seq::<Seq<char>>::empty() + seq![Seq::<char>::empty()] =~= seq![Seq::<char>::empty()]);
}

proof fn lemma_no_paragraphs_concat(a: Seq<XmlMark>, b: Seq<XmlMark>)
    requires
        no_paragraphs(a),
        no_paragraphs(b),
    ensures
        no_paragraphs(a + b),
{
    assert forall|i: int| 0 <= i < (a + b).len() implies (#[trigger] (a + b)[i]).kind
        != XmlKind::Text && ((a + b)[i].kind != XmlKind::Start || (a + b)[i].tag.name != "a:p"@) by {
        if i < a.len() {
            assert((a + b)[i] == a[i]);
        } else {
            assert((a + b)[i] == b[i - a.len()]);
        }
    }
}

proof fn lemma_no_paragraphs_element(tag: XmlTag, inner: Seq<XmlMark>)
    requires
        tag.name != "a:p"@,
        no_paragraphs(inner),
    ensures
        no_paragraphs(element(tag, inner)),
{
    lemma_no_paragraphs_concat(seq![start_mark(tag)], inner);
    lemma_no_paragraphs_concat(seq![start_mark(tag)] + inner, seq![end_mark(tag.name)]);
}

proof fn lemma_long_name(name: Seq<char>)
    requires
        name.len() != 3,
    ensures
        name != "a:p"@,
{
    reveal_strlit("a:p");
}

/// What stands before the text body of a notes slide holds no paragraph.
proof fn lemma_before_body_no_paragraphs()
    ensures
        no_paragraphs(marks_before_body()),
        no_paragraphs(marks_after_body()),
{
    reveal_strlit("p:notes");
    reveal_strlit("p:cSld");
    reveal_strlit("p:spTree");
    reveal_strlit("p:nvGrpSpPr");
    reveal_strlit("p:grpSpPr");
    reveal_strlit("a:xfrm");
    reveal_strlit("p:sp");
    reveal_strlit("p:nvSpPr");
    reveal_strlit("p:cNvSpPr");
    reveal_strlit("p:nvPr");
    reveal_strlit("p:clrMapOvr");
    lemma_long_name("p:notes"@);
    lemma_long_name("p:cSld"@);
    lemma_long_name("p:spTree"@);
    lemma_long_name("p:nvGrpSpPr"@);
    lemma_long_name("p:grpSpPr"@);
    lemma_long_name("a:xfrm"@);
    lemma_long_name("p:sp"@);
    lemma_long_name("p:nvSpPr"@);
    lemma_long_name("p:cNvSpPr"@);
    lemma_long_name("p:nvPr"@);
    lemma_long_name("p:clrMapOvr"@);
    lemma_no_paragraphs_shapes();
    let shape = seq![start_mark(bare_tag("p:sp"@))] + body_properties();
    lemma_no_paragraphs_concat(seq![start_mark(bare_tag("p:sp"@))], body_properties());
    lemma_no_paragraphs_concat(group_marks(), picture_marks());
    let root = seq![
        start_mark(notes_root()),
        start_mark(bare_tag("p:cSld"@)),
        start_mark(bare_tag("p:spTree"@)),
    ];
    assert(no_paragraphs(root));
    lemma_no_paragraphs_concat(root, group_marks() + picture_marks());
    lemma_no_paragraphs_concat(root + (group_marks() + picture_marks()), shape);
    assert(marks_before_body() =~= root + (group_marks() + picture_marks()) + shape);
    lemma_no_paragraphs_element(
        bare_tag("p:clrMapOvr"@),
        seq![empty_mark(bare_tag("a:masterClrMapping"@))],
    );
    let ends = seq![end_mark("p:sp"@), end_mark("p:spTree"@), end_mark("p:cSld"@)];
    assert(no_paragraphs(ends));
    lemma_no_paragraphs_concat(ends, colour_marks());
    lemma_no_paragraphs_concat(ends + colour_marks(), seq![end_mark("p:notes"@)]);
    assert(marks_after_body() =~= ends + colour_marks() + seq![end_mark("p:notes"@)]);
}

proof fn lemma_no_paragraphs_properties(cnv: XmlTag, locks: XmlTag, placeholder: XmlTag)
    ensures
        no_paragraphs(
            element(
                bare_tag("p:nvSpPr"@),
                seq![empty_mark(cnv)] + element(bare_tag("p:cNvSpPr"@), seq![empty_mark(locks)])
                    + element(bare_tag("p:nvPr"@), seq![empty_mark(placeholder)]),
            ),
        ),
{
    reveal_strlit("p:nvSpPr");
    reveal_strlit("p:cNvSpPr");
    reveal_strlit("p:nvPr");
    lemma_long_name("p:nvSpPr"@);
    lemma_long_name("p:cNvSpPr"@);
    lemma_long_name("p:nvPr"@);
    lemma_no_paragraphs_element(bare_tag("p:cNvSpPr"@), seq![empty_mark(locks)]);
    lemma_no_paragraphs_element(bare_tag("p:nvPr"@), seq![empty_mark(placeholder)]);
    let a = seq![empty_mark(cnv)];
    let b = element(bare_tag("p:cNvSpPr"@), seq![empty_mark(locks)]);
    let c = element(bare_tag("p:nvPr"@), seq![empty_mark(placeholder)]);
    lemma_no_paragraphs_concat(a, b);
    lemma_no_paragraphs_concat(a + b, c);
    lemma_no_paragraphs_element(bare_tag("p:nvSpPr"@), a + b + c);
}

proof fn lemma_no_paragraphs_shapes()
    ensures
        no_paragraphs(group_marks()),
        no_paragraphs(picture_marks()),
        no_paragraphs(body_properties()),
{
    reveal_strlit("p:nvGrpSpPr");
    reveal_strlit("p:grpSpPr");
    reveal_strlit("a:xfrm");
    reveal_strlit("p:sp");
    lemma_long_name("p:nvGrpSpPr"@);
    lemma_long_name("p:grpSpPr"@);
    lemma_long_name("a:xfrm"@);
    lemma_long_name("p:sp"@);
    let three = seq![
        empty_mark(pair_tag("p:cNvPr"@, "id"@, "1"@, "name"@, ""@)),
        empty_mark(bare_tag("p:cNvGrpSpPr"@)),
        empty_mark(bare_tag("p:nvPr"@)),
    ];
    let four = seq![
        empty_mark(pair_tag("a:off"@, "x"@, "0"@, "y"@, "0"@)),
        empty_mark(pair_tag("a:ext"@, "cx"@, "0"@, "cy"@, "0"@)),
        empty_mark(pair_tag("a:chOff"@, "x"@, "0"@, "y"@, "0"@)),
        empty_mark(pair_tag("a:chExt"@, "cx"@, "0"@, "cy"@, "0"@)),
    ];
    assert(no_paragraphs(three));
    assert(no_paragraphs(four));
    lemma_no_paragraphs_element(bare_tag("p:nvGrpSpPr"@), three);
    lemma_no_paragraphs_element(bare_tag("a:xfrm"@), four);
    lemma_no_paragraphs_element(bare_tag("p:grpSpPr"@), element(bare_tag("a:xfrm"@), four));
    lemma_no_paragraphs_concat(
        element(bare_tag("p:nvGrpSpPr"@), three),
        element(bare_tag("p:grpSpPr"@), element(bare_tag("a:xfrm"@), four)),
    );
    let sp_pr = seq![empty_mark(bare_tag("p:spPr"@))];
    lemma_no_paragraphs_properties(
        pair_tag("p:cNvPr"@, "id"@, "2"@, "name"@, "Slide Image Placeholder 1"@),
        XmlTag {
            name: "a:spLocks"@,
            attributes: seq![("noGrp"@, "1"@), ("noRot"@, "1"@), ("noChangeAspect"@, "1"@)],
        },
        XmlTag { name: "p:ph"@, attributes: seq![("type"@, "sldImg"@)] },
    );
    lemma_no_paragraphs_concat(picture_properties(), sp_pr);
    lemma_no_paragraphs_element(bare_tag("p:sp"@), picture_properties() + sp_pr);
    lemma_no_paragraphs_properties(
        pair_tag("p:cNvPr"@, "id"@, "3"@, "name"@, "Notes Placeholder 2"@),
        XmlTag { name: "a:spLocks"@, attributes: seq![("noGrp"@, "1"@)] },
        placeholder_tag(),
    );
    let properties = body_properties().take(body_properties().len() - 1);
    assert(body_properties() =~= properties + sp_pr);
    lemma_no_paragraphs_concat(properties, sp_pr);
}

/// A text body, and a whole new notes slide, hold the paragraphs of the text and no others.
pub proof fn law_slide_gives_the_text_back(text: Seq<char>)
    ensures
        paragraph_texts(text_body(text)) == paragraph_texts(paragraphs(text)),
        paragraph_texts(notes_marks(text)) == paragraph_texts(paragraphs(text)),
{
    reveal_strlit("p:txBody");
    lemma_long_name("p:txBody"@);
    lemma_before_body_no_paragraphs();
    lemma_notes_around_body(text);
    let none = Seq::<XmlMark>::empty();
    let start = seq![
        start_mark(bare_tag("p:txBody"@)),
        empty_mark(bare_tag("a:bodyPr"@)),
        empty_mark(bare_tag("a:lstStyle"@)),
    ];
    let end = seq![end_mark("p:txBody"@)];
    assert(no_paragraphs(start));
    assert(no_paragraphs(end));
    assert(text_body(text) =~= none + start + paragraphs(text) + end);
    let before = none + marks_before_body();
    lemma_no_paragraphs(none, start);
    lemma_no_paragraphs(none, marks_before_body());
    lemma_no_paragraphs(before, start);
    lemma_read_text(none, text);
    lemma_read_text(none + start, text);
    lemma_read_text(before + start, text);
    assert(none + paragraphs(text) =~= paragraphs(text));
    lemma_no_paragraphs(none + start + paragraphs(text), end);
    lemma_no_paragraphs(before + start + paragraphs(text), end);
    lemma_no_paragraphs(before + start + paragraphs(text) + end, marks_after_body());
    assert(notes_marks(text) =~= before + start + paragraphs(text) + end + marks_after_body());
}

/// Two lines that are not empty are written alike but for their text, and so is everything
/// around the paragraphs of two texts.
pub proof fn law_slides_differ_in_their_texts_only(
    line: Seq<char>,
    other: Seq<char>,
    text: Seq<char>,
    other_text: Seq<char>,
)
    requires
        line.len() > 0,
        other.len() > 0,
    ensures
        paragraph(line).len() == paragraph(other).len(),
        forall|i: int|
            0 <= i < paragraph(line).len() && (#[trigger] paragraph(line)[i]).kind != XmlKind::Text
                ==> paragraph(line)[i] == paragraph(other)[i],
        exists|a: Seq<XmlMark>, b: Seq<XmlMark>|
            notes_marks(text) == #[trigger] (a + paragraphs(text) + b) && notes_marks(other_text) == a
                + paragraphs(other_text) + b,
        exists|a: Seq<XmlMark>, b: Seq<XmlMark>|
            text_body(text) == #[trigger] (a + paragraphs(text) + b) && text_body(other_text) == a
                + paragraphs(other_text) + b,
{
    lemma_notes_around_body(text);
    lemma_notes_around_body(other_text);
    let start = seq![
        start_mark(bare_tag("p:txBody"@)),
        empty_mark(bare_tag("a:bodyPr"@)),
        empty_mark(bare_tag("a:lstStyle"@)),
    ];
    let end = seq![end_mark("p:txBody"@)];
    let a = marks_before_body() + start;
    let b = end + marks_after_body();
    assert(text_body(text) =~= start + paragraphs(text) + end);
    assert(text_body(other_text) =~= start + paragraphs(other_text) + end);
    assert(notes_marks(text) =~= a + paragraphs(text) + b);
    assert(notes_marks(other_text) =~= a + paragraphs(other_text) + b);
    let p = paragraph(line);
    let q = paragraph(other);
    assert(p.len() == 8 && q.len() == 8);
    assert(p[4] == text_mark(escaped(line, false)));
    assert forall|i: int| 0 <= i < p.len() && (#[trigger] p[i]).kind != XmlKind::Text implies p[i]
        == q[i] by {
        assert(i != 4);
    }
}

/// Whether two texts are the paragraphs of two others, with the same before and after them.
pub open spec fn same_around(x: Seq<char>, a: Seq<char>, y: Seq<char>, b: Seq<char>) -> bool {
    exists|before: Seq<char>, after: Seq<char>|
        x == #[trigger] (before + marks_text(paragraphs(a)) + after) && y == before + marks_text(
            paragraphs(b),
        ) + after
}

/// New notes slides, and text bodies, as they are written, are alike but for the paragraphs
/// of their texts, however long these are.
pub proof fn law_written_slides_differ_in_paragraphs_only(text: Seq<char>, other: Seq<char>)
    ensures
        same_around(notes_slide(text), text, notes_slide(other), other),
        same_around(marks_text(text_body(text)), text, marks_text(text_body(other)), other),
{
    lemma_notes_around_body(text);
    lemma_notes_around_body(other);
    let start = seq![
        start_mark(bare_tag("p:txBody"@)),
        empty_mark(bare_tag("a:bodyPr"@)),
        empty_mark(bare_tag("a:lstStyle"@)),
    ];
    let end = seq![end_mark("p:txBody"@)];
    let a = marks_before_body() + start;
    let b = end + marks_after_body();
    lemma_text_around(start, end, text);
    lemma_text_around(start, end, other);
    lemma_text_around(a, b, text);
    lemma_text_around(a, b, other);
    assert(text_body(text) =~= start + paragraphs(text) + end);
    assert(text_body(other) =~= start + paragraphs(other) + end);
    assert(notes_marks(text) =~= a + paragraphs(text) + b);
    assert(notes_marks(other) =~= a + paragraphs(other) + b);
    let before = "<?"@ + DECLARATION@ + "?>"@ + "\n"@ + marks_text(a);
    let after = marks_text(b);
    assert(notes_slide(text) =~= before + marks_text(paragraphs(text)) + after);
    assert(notes_slide(other) =~= before + marks_text(paragraphs(other)) + after);
}

proof fn lemma_text_around(a: Seq<XmlMark>, b: Seq<XmlMark>, text: Seq<char>)
    ensures
        marks_text(a + paragraphs(text) + b) == marks_text(a) + marks_text(paragraphs(text))
            + marks_text(b),
{
    lemma_marks_text_concat(a, paragraphs(text));
    lemma_marks_text_concat(a + paragraphs(text), b);
}

} // verus!
