//! Markup as a list of tags and texts: how it is written, and how it is read back.

use crate::text::{lemma_utf8_concat, utf8};
use crate::xml::{
    append_attribute, end_token, markup, open_names, plain_name, plain_tag, plain_token, tag_text,
    tag_token, text_token, token_markup, XmlKind, XmlTag, XmlToken,
};
use vstd::prelude::*;
use vstd::string::StringExecFns;

verus! {

/// A start tag, an empty tag, an end tag or a text.
#[verifier::ext_equal]
pub struct XmlMark {
    pub kind: XmlKind,
    pub tag: XmlTag,
    pub text: Seq<char>,
}

/// A tag without attributes.
pub open spec fn bare_tag(name: Seq<char>) -> XmlTag {
    XmlTag { name, attributes: Seq::empty() }
}

pub open spec fn start_mark(tag: XmlTag) -> XmlMark {
    XmlMark { kind: XmlKind::Start, tag, text: Seq::empty() }
}

pub open spec fn empty_mark(tag: XmlTag) -> XmlMark {
    XmlMark { kind: XmlKind::Empty, tag, text: Seq::empty() }
}

pub open spec fn end_mark(name: Seq<char>) -> XmlMark {
    XmlMark { kind: XmlKind::End, tag: bare_tag(name), text: Seq::empty() }
}

pub open spec fn text_mark(text: Seq<char>) -> XmlMark {
    XmlMark { kind: XmlKind::Text, tag: bare_tag(Seq::empty()), text }
}

/// An element: its start tag, what is in it, and its end tag.
pub open spec fn element(tag: XmlTag, inner: Seq<XmlMark>) -> Seq<XmlMark> {
    seq![start_mark(tag)] + inner + seq![end_mark(tag.name)]
}

/// A mark as it is written.
pub open spec fn mark_text(m: XmlMark) -> Seq<char> {
    match m.kind {
        XmlKind::Start => "<"@ + tag_text(m.tag.name, m.tag.attributes) + ">"@,
        XmlKind::Empty => "<"@ + tag_text(m.tag.name, m.tag.attributes) + "/>"@,
        XmlKind::End => "</"@ + m.tag.name + ">"@,
        _ => m.text,
    }
}

/// Marks as they are written, one after another.
pub open spec fn marks_text(marks: Seq<XmlMark>) -> Seq<char>
    decreases marks.len(),
{
    if marks.len() == 0 {
        Seq::empty()
    } else {
        marks_text(marks.drop_last()) + mark_text(marks.last())
    }
}

/// A mark as it is read.
pub open spec fn mark_token(m: XmlMark) -> XmlToken {
    match m.kind {
        XmlKind::Start => tag_token(XmlKind::Start, m.tag),
        XmlKind::Empty => tag_token(XmlKind::Empty, m.tag),
        XmlKind::End => end_token(m.tag.name),
        _ => text_token(m.text),
    }
}

/// Marks as they are read.
pub open spec fn mark_tokens(marks: Seq<XmlMark>) -> Seq<XmlToken> {
    marks.map_values(|m: XmlMark| mark_token(m))
}

/// Whether a mark is a plain tag, the end of one, or a text without `<`.
pub open spec fn plain_mark(m: XmlMark) -> bool {
    match m.kind {
        XmlKind::Start | XmlKind::Empty => plain_tag(m.tag),
        XmlKind::End => plain_name(m.tag.name),
        XmlKind::Text => m.text.len() > 0 && !m.text.contains('<'),
        _ => false,
    }
}

pub open spec fn plain_marks(marks: Seq<XmlMark>) -> bool {
    forall|i: int| 0 <= i < marks.len() ==> plain_mark(#[trigger] marks[i])
}

// ---- writing ----

/// Writes marks, and keeps count of them.
pub struct MarkWriter {
    text: String,
    marks: Ghost<Seq<XmlMark>>,
}

impl MarkWriter {
    /// What has been written.
    pub closed spec fn marks(&self) -> Seq<XmlMark> {
        self.marks@
    }

    /// The text is that of the marks.
    pub closed spec fn wf(&self) -> bool {
        self.text@ == marks_text(self.marks@)
    }

    pub fn new() -> (r: MarkWriter)
        ensures
            r.wf(),
            r.marks() == Seq::<XmlMark>::empty(),
    {
        MarkWriter { text: String::new(), marks: Ghost(Seq::empty()) }
    }

    /// The text of what has been written.
    pub fn into_text(self) -> (r: String)
        requires
            self.wf(),
        ensures
            r@ == marks_text(self.marks()),
    {
        self.text
    }

    proof fn lemma_push(text: Seq<char>, marks: Seq<XmlMark>, m: XmlMark)
        requires
            text == marks_text(marks),
        ensures
            text + mark_text(m) == marks_text(marks.push(m)),
    {
        assert(marks.push(m).drop_last() == marks);
    }

    /// Writes a start tag or an empty tag with the given attributes.
    fn tag(&mut self, name: &str, attributes: &[(&str, &str)], empty: bool)
        requires
            old(self).wf(),
        ensures
            final(self).wf(),
            final(self).marks() == old(self).marks().push(
                if empty {
                    empty_mark(XmlTag { name: name@, attributes: attribute_texts(attributes@) })
                } else {
                    start_mark(XmlTag { name: name@, attributes: attribute_texts(attributes@) })
                },
            ),
    {
        let ghost before = self.text@;
        let ghost all = attribute_texts(attributes@);
        let ghost mark = if empty {
            empty_mark(XmlTag { name: name@, attributes: all })
        } else {
            start_mark(XmlTag { name: name@, attributes: all })
        };
        let mut t = String::new();
        t.append(name);
        let mut i: usize = 0;
        assert(all.take(0) =~= Seq::<(Seq<char>, Seq<char>)>::empty());
        assert(t@ =~= tag_text(name@, all.take(0)));
        while i < attributes.len()
            invariant
                i <= attributes@.len(),
                all == attribute_texts(attributes@),
                t@ == tag_text(name@, all.take(i as int)),
            decreases attributes@.len() - i,
        {
            let (key, value) = attributes[i];
            append_attribute(&mut t, key, value);
            assert(all.take(i + 1).drop_last() == all.take(i as int));
            assert(all.take(i + 1).last() == (key@, value@));
            i = i + 1;
        }
        assert(all.take(i as int) == all);
        self.text.append("<");
        self.text.append(t.as_str());
        if empty {
            self.text.append("/>");
        } else {
            self.text.append(">");
        }
        assert(self.text@ =~= before + mark_text(mark));
        proof {
            Self::lemma_push(before, self.marks@, mark);
        }
        self.marks = Ghost(self.marks@.push(mark));
    }

    /// Writes a start tag without attributes.
    pub fn open0(&mut self, name: &str)
        requires
            old(self).wf(),
        ensures
            final(self).wf(),
            final(self).marks() == old(self).marks().push(
                start_mark(bare_tag(name@)),
            ),
    {
        let attributes: [(&str, &str); 0] = [];
        assert(attribute_texts(attributes@) =~= Seq::<(Seq<char>, Seq<char>)>::empty());
        self.tag(name, &attributes, false);
    }

    /// Writes a start tag with three attributes.
    pub fn open3(&mut self, name: &str, k1: &str, v1: &str, k2: &str, v2: &str, k3: &str, v3: &str)
        requires
            old(self).wf(),
        ensures
            final(self).wf(),
            final(self).marks() == old(self).marks().push(
                start_mark(XmlTag { name: name@, attributes: seq![(k1@, v1@), (k2@, v2@), (k3@, v3@)] }),
            ),
    {
        let attributes: [(&str, &str); 3] = [(k1, v1), (k2, v2), (k3, v3)];
        assert(attribute_texts(attributes@) =~= seq![(k1@, v1@), (k2@, v2@), (k3@, v3@)]);
        self.tag(name, &attributes, false);
    }

    /// Writes an empty tag without attributes.
    pub fn empty0(&mut self, name: &str)
        requires
            old(self).wf(),
        ensures
            final(self).wf(),
            final(self).marks() == old(self).marks().push(
                empty_mark(bare_tag(name@)),
            ),
    {
        let attributes: [(&str, &str); 0] = [];
        assert(attribute_texts(attributes@) =~= Seq::<(Seq<char>, Seq<char>)>::empty());
        self.tag(name, &attributes, true);
    }

    /// Writes an empty tag with an attribute.
    pub fn empty1(&mut self, name: &str, k1: &str, v1: &str)
        requires
            old(self).wf(),
        ensures
            final(self).wf(),
            final(self).marks() == old(self).marks().push(
                empty_mark(XmlTag { name: name@, attributes: seq![(k1@, v1@)] }),
            ),
    {
        let attributes: [(&str, &str); 1] = [(k1, v1)];
        assert(attribute_texts(attributes@) =~= seq![(k1@, v1@)]);
        self.tag(name, &attributes, true);
    }

    /// Writes an empty tag with two attributes.
    pub fn empty2(&mut self, name: &str, k1: &str, v1: &str, k2: &str, v2: &str)
        requires
            old(self).wf(),
        ensures
            final(self).wf(),
            final(self).marks() == old(self).marks().push(
                empty_mark(XmlTag { name: name@, attributes: seq![(k1@, v1@), (k2@, v2@)] }),
            ),
    {
        let attributes: [(&str, &str); 2] = [(k1, v1), (k2, v2)];
        assert(attribute_texts(attributes@) =~= seq![(k1@, v1@), (k2@, v2@)]);
        self.tag(name, &attributes, true);
    }

    /// Writes an empty tag with three attributes.
    pub fn empty3(&mut self, name: &str, k1: &str, v1: &str, k2: &str, v2: &str, k3: &str, v3: &str)
        requires
            old(self).wf(),
        ensures
            final(self).wf(),
            final(self).marks() == old(self).marks().push(
                empty_mark(XmlTag { name: name@, attributes: seq![(k1@, v1@), (k2@, v2@), (k3@, v3@)] }),
            ),
    {
        let attributes: [(&str, &str); 3] = [(k1, v1), (k2, v2), (k3, v3)];
        assert(attribute_texts(attributes@) =~= seq![(k1@, v1@), (k2@, v2@), (k3@, v3@)]);
        self.tag(name, &attributes, true);
    }

    /// Writes an end tag.
    pub fn close(&mut self, name: &str)
        requires
            old(self).wf(),
        ensures
            final(self).wf(),
            final(self).marks() == old(self).marks().push(end_mark(name@)),
    {
        let ghost before = self.text@;
        self.text.append("</");
        self.text.append(name);
        self.text.append(">");
        assert(self.text@ =~= before + mark_text(end_mark(name@)));
        proof {
            Self::lemma_push(before, self.marks@, end_mark(name@));
        }
        self.marks = Ghost(self.marks@.push(end_mark(name@)));
    }

    /// Writes a text.
    pub fn text(&mut self, text: &str)
        requires
            old(self).wf(),
        ensures
            final(self).wf(),
            final(self).marks() == old(self).marks().push(text_mark(text@)),
    {
        let ghost before = self.text@;
        self.text.append(text);
        proof {
            Self::lemma_push(before, self.marks@, text_mark(text@));
        }
        self.marks = Ghost(self.marks@.push(text_mark(text@)));
    }
}

/// What a list of attributes says.
pub open spec fn attribute_texts(attributes: Seq<(&str, &str)>) -> Seq<(Seq<char>, Seq<char>)> {
    attributes.map_values(|a: (&str, &str)| (a.0@, a.1@))
}

// ---- joining ----

pub proof fn lemma_marks_text_concat(a: Seq<XmlMark>, b: Seq<XmlMark>)
    ensures
        marks_text(a + b) == marks_text(a) + marks_text(b),
    decreases b.len(),
{
    if b.len() == 0 {
        assert(a + b =~= a);
        assert(marks_text(a + b) =~= marks_text(a) + marks_text(b));
    } else {
        lemma_marks_text_concat(a, b.drop_last());
        assert((a + b).drop_last() == a + b.drop_last());
        assert((a + b).last() == b.last());
        assert(marks_text(a + b) =~= marks_text(a) + marks_text(b));
    }
}

pub proof fn lemma_token_markup_concat(a: Seq<XmlToken>, b: Seq<XmlToken>)
    ensures
        token_markup(a + b) == token_markup(a) + token_markup(b),
    decreases b.len(),
{
    if b.len() == 0 {
        assert(a + b =~= a);
        assert(token_markup(a + b) =~= token_markup(a) + token_markup(b));
    } else {
        lemma_token_markup_concat(a, b.drop_last());
        assert((a + b).drop_last() == a + b.drop_last());
        assert((a + b).last() == b.last());
        assert(token_markup(a + b) =~= token_markup(a) + token_markup(b));
    }
}

proof fn lemma_mark_markup(m: XmlMark)
    requires
        plain_mark(m),
    ensures
        utf8(mark_text(m)) == markup(mark_token(m).kind, mark_token(m).content),
{
    match m.kind {
        XmlKind::Start => {
            let t = tag_text(m.tag.name, m.tag.attributes);
            lemma_utf8_concat("<"@, t);
            lemma_utf8_concat("<"@ + t, ">"@);
        },
        XmlKind::Empty => {
            let t = tag_text(m.tag.name, m.tag.attributes);
            lemma_utf8_concat("<"@, t);
            lemma_utf8_concat("<"@ + t, "/>"@);
        },
        XmlKind::End => {
            lemma_utf8_concat("</"@, m.tag.name);
            lemma_utf8_concat("</"@ + m.tag.name, ">"@);
        },
        _ => {},
    }
}

/// The text of marks, in bytes, is the markup of their tokens.
pub proof fn lemma_marks_markup(marks: Seq<XmlMark>)
    requires
        plain_marks(marks),
    ensures
        utf8(marks_text(marks)) == token_markup(mark_tokens(marks)),
    decreases marks.len(),
{
    if marks.len() > 0 {
        let init = marks.drop_last();
        assert(plain_marks(init)) by {
            assert forall|i: int| 0 <= i < init.len() implies plain_mark(#[trigger] init[i]) by {
                assert(init[i] == marks[i]);
            }
        }
        assert(plain_mark(marks[marks.len() - 1]));
        lemma_marks_markup(init);
        lemma_mark_markup(marks.last());
        lemma_utf8_concat(marks_text(init), mark_text(marks.last()));
        assert(mark_tokens(marks).drop_last() =~= mark_tokens(init));
        assert(mark_tokens(marks).last() == mark_token(marks.last()));
    }
}

pub proof fn lemma_plain_tokens(marks: Seq<XmlMark>)
    requires
        plain_marks(marks),
    ensures
        forall|i: int| 0 <= i < marks.len() ==> plain_token(#[trigger] mark_tokens(marks)[i]),
{
    assert forall|i: int| 0 <= i < marks.len() implies plain_token(
        #[trigger] mark_tokens(marks)[i],
    ) by {
        let m = marks[i];
        assert(plain_mark(m));
        assert(mark_tokens(marks)[i] == mark_token(m));
        match m.kind {
            XmlKind::Start => {
                assert(plain_tag(m.tag) && mark_token(m) == tag_token(XmlKind::Start, m.tag));
            },
            XmlKind::Empty => {
                assert(plain_tag(m.tag) && mark_token(m) == tag_token(XmlKind::Empty, m.tag));
            },
            XmlKind::End => {
                assert(mark_token(m) == end_token(m.tag.name));
            },
            _ => {
                assert(mark_token(m) == text_token(m.text));
            },
        }
    }
}

pub proof fn lemma_plain_concat(a: Seq<XmlMark>, b: Seq<XmlMark>)
    requires
        plain_marks(a),
        plain_marks(b),
    ensures
        plain_marks(a + b),
{
    assert forall|i: int| 0 <= i < (a + b).len() implies plain_mark(#[trigger] (a + b)[i]) by {
        if i < a.len() {
            assert((a + b)[i] == a[i]);
        } else {
            assert((a + b)[i] == b[i - a.len()]);
        }
    }
}

pub proof fn lemma_plain_element(tag: XmlTag, inner: Seq<XmlMark>)
    requires
        plain_tag(tag),
        plain_marks(inner),
    ensures
        plain_marks(element(tag, inner)),
{
    let e = element(tag, inner);
    assert forall|i: int| 0 <= i < e.len() implies plain_mark(#[trigger] e[i]) by {
        if 0 < i < e.len() - 1 {
            assert(e[i] == inner[i - 1]);
        }
    }
}

/// Whether no tag among the marks has the given name.
pub open spec fn avoids(marks: Seq<XmlMark>, name: Seq<char>) -> bool {
    forall|i: int| 0 <= i < marks.len() ==> (#[trigger] marks[i]).tag.name != name
}

pub proof fn lemma_avoids_concat(a: Seq<XmlMark>, b: Seq<XmlMark>, name: Seq<char>)
    requires
        avoids(a, name),
        avoids(b, name),
    ensures
        avoids(a + b, name),
{
    assert forall|i: int| 0 <= i < (a + b).len() implies (#[trigger] (a + b)[i]).tag.name
        != name by {
        if i < a.len() {
            assert((a + b)[i] == a[i]);
        } else {
            assert((a + b)[i] == b[i - a.len()]);
        }
    }
}

pub proof fn lemma_avoids_element(tag: XmlTag, inner: Seq<XmlMark>, name: Seq<char>)
    requires
        tag.name != name,
        avoids(inner, name),
    ensures
        avoids(element(tag, inner), name),
{
    let e = element(tag, inner);
    assert forall|i: int| 0 <= i < e.len() implies (#[trigger] e[i]).tag.name != name by {
        if 0 < i < e.len() - 1 {
            assert(e[i] == inner[i - 1]);
        }
    }
}

// ---- balance ----

/// What is open after more tokens depends on what was open before them alone.
pub proof fn lemma_open_names_suffix(a: Seq<XmlToken>, b: Seq<XmlToken>, c: Seq<XmlToken>)
    requires
        open_names(a) == open_names(b),
    ensures
        open_names(a + c) == open_names(b + c),
    decreases c.len(),
{
    if c.len() == 0 {
        assert(a + c =~= a);
        assert(b + c =~= b);
    } else {
        lemma_open_names_suffix(a, b, c.drop_last());
        assert((a + c).drop_last() == a + c.drop_last());
        assert((b + c).drop_last() == b + c.drop_last());
    }
}

/// Where tokens match, their first ones do.
pub proof fn lemma_open_names_prefix(tokens: Seq<XmlToken>, n: int)
    requires
        open_names(tokens) is Some,
        0 <= n <= tokens.len(),
    ensures
        open_names(tokens.take(n)) is Some,
    decreases tokens.len(),
{
    if n == tokens.len() {
        assert(tokens.take(n) == tokens);
    } else {
        lemma_open_names_prefix(tokens.drop_last(), n);
        assert(tokens.drop_last().take(n) == tokens.take(n));
    }
}

/// Whether marks leave the open elements as they were.
pub open spec fn balanced(marks: Seq<XmlMark>) -> bool {
    forall|before: Seq<XmlToken>|
        open_names(#[trigger] (before + mark_tokens(marks))) == open_names(before)
}

pub proof fn lemma_balanced_one(m: XmlMark)
    requires
        m.kind == XmlKind::Empty || m.kind == XmlKind::Text,
    ensures
        balanced(seq![m]),
{
    assert forall|before: Seq<XmlToken>|
        open_names(#[trigger] (before + mark_tokens(seq![m]))) == open_names(before) by {
        let all = before + mark_tokens(seq![m]);
        assert(all.drop_last() =~= before);
        assert(all.last() == mark_token(m));
    }
}

pub proof fn lemma_balanced_none()
    ensures
        balanced(Seq::empty()),
{
    assert forall|before: Seq<XmlToken>|
        open_names(#[trigger] (before + mark_tokens(Seq::empty()))) == open_names(before) by {
        assert(before + mark_tokens(Seq::empty()) =~= before);
    }
}

pub proof fn lemma_balanced_concat(a: Seq<XmlMark>, b: Seq<XmlMark>)
    requires
        balanced(a),
        balanced(b),
    ensures
        balanced(a + b),
{
    assert forall|before: Seq<XmlToken>|
        open_names(#[trigger] (before + mark_tokens(a + b))) == open_names(before) by {
        let mid = before + mark_tokens(a);
        assert(before + mark_tokens(a + b) =~= mid + mark_tokens(b));
        assert(open_names(mid) == open_names(before));
    }
}

pub proof fn lemma_balanced_element(tag: XmlTag, inner: Seq<XmlMark>)
    requires
        balanced(inner),
    ensures
        balanced(element(tag, inner)),
{
    assert forall|before: Seq<XmlToken>|
        open_names(#[trigger] (before + mark_tokens(element(tag, inner)))) == open_names(before) by {
        let all = before + mark_tokens(element(tag, inner));
        let first = before.push(mark_token(start_mark(tag)));
        let mid = first + mark_tokens(inner);
        assert(all =~= mid.push(mark_token(end_mark(tag.name))));
        assert(all.drop_last() =~= mid);
        assert(open_names(mid) == open_names(first));
        assert(first.drop_last() =~= before);
        if open_names(before) is Some {
            let names = open_names(before)->0;
            assert(names.push(utf8(tag.name)).drop_last() =~= names);
        }
    }
}

/// Whether marks hold no two texts in a row, and neither start nor end with a text.
pub open spec fn enclosed_texts(marks: Seq<XmlMark>) -> bool {
    &&& marks.len() > 0 ==> marks[0].kind != XmlKind::Text && marks.last().kind != XmlKind::Text
    &&& forall|i: int, j: int|
        0 <= i && j == i + 1 && j < marks.len() ==> !((#[trigger] marks[i]).kind == XmlKind::Text
            && (#[trigger] marks[j]).kind == XmlKind::Text)
}

pub proof fn lemma_enclosed_concat(a: Seq<XmlMark>, b: Seq<XmlMark>)
    requires
        enclosed_texts(a),
        enclosed_texts(b),
    ensures
        enclosed_texts(a + b),
{
    let all = a + b;
    assert forall|i: int, j: int| 0 <= i && j == i + 1 && j < all.len() implies !((
    #[trigger] all[i]).kind == XmlKind::Text && (#[trigger] all[j]).kind == XmlKind::Text) by {
        let n = a.len() as int;
        if j < n {
            assert(all[i] == a[i] && all[j] == a[j]);
        } else if i < n {
            assert(all[i] == a[n - 1]);
        } else {
            assert(all[i] == b[i - n] && all[j] == b[j - n]);
        }
    }
    if all.len() > 0 {
        if a.len() > 0 {
            assert(all[0] == a[0]);
        } else {
            assert(all[0] == b[0]);
        }
        if b.len() > 0 {
            assert(all.last() == b.last());
        } else {
            assert(all.last() == a.last());
        }
    }
}

pub proof fn lemma_enclosed_element(tag: XmlTag, inner: Seq<XmlMark>)
    requires
        enclosed_texts(inner) || (inner.len() == 1 && inner[0].kind == XmlKind::Text),
    ensures
        enclosed_texts(element(tag, inner)),
{
    let all = element(tag, inner);
    assert forall|i: int, j: int| 0 <= i && j == i + 1 && j < all.len() implies !((
    #[trigger] all[i]).kind == XmlKind::Text && (#[trigger] all[j]).kind == XmlKind::Text) by {
        if 0 < i && j < all.len() - 1 {
            assert(all[i] == inner[i - 1] && all[j] == inner[j - 1]);
        }
    }
}

/// Marks that a document can hold anywhere: plain, balanced, with no two texts in a row
/// and none at either end.
pub open spec fn complete(marks: Seq<XmlMark>) -> bool {
    plain_marks(marks) && balanced(marks) && enclosed_texts(marks)
}

pub proof fn lemma_complete_concat(a: Seq<XmlMark>, b: Seq<XmlMark>)
    requires
        complete(a),
        complete(b),
    ensures
        complete(a + b),
{
    lemma_plain_concat(a, b);
    lemma_balanced_concat(a, b);
    lemma_enclosed_concat(a, b);
}

pub proof fn lemma_complete_element(tag: XmlTag, inner: Seq<XmlMark>)
    requires
        plain_tag(tag),
        complete(inner),
    ensures
        complete(element(tag, inner)),
{
    lemma_plain_element(tag, inner);
    lemma_balanced_element(tag, inner);
    lemma_enclosed_element(tag, inner);
}

pub proof fn lemma_complete_text_element(tag: XmlTag, text: Seq<char>)
    requires
        plain_tag(tag),
        text.len() > 0,
        !text.contains('<'),
    ensures
        complete(element(tag, seq![text_mark(text)])),
{
    let inner = seq![text_mark(text)];
    lemma_balanced_one(text_mark(text));
    lemma_plain_element(tag, inner);
    lemma_balanced_element(tag, inner);
    lemma_enclosed_element(tag, inner);
}

pub proof fn lemma_complete_empty(tag: XmlTag)
    requires
        plain_tag(tag),
    ensures
        complete(seq![empty_mark(tag)]),
{
    lemma_balanced_one(empty_mark(tag));
}

pub proof fn lemma_complete_none()
    ensures
        complete(Seq::empty()),
{
    lemma_balanced_none();
}

} // verus!
