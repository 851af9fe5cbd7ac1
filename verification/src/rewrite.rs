//! What comes of giving a notes slide a text: where it goes, how it reads, and what a second
//! one does.

use crate::markup::{
    bare_tag, complete, empty_mark, end_mark, lemma_marks_markup, lemma_open_names_prefix,
    lemma_open_names_suffix, lemma_plain_tokens, lemma_token_markup_concat, mark_token, mark_tokens,
    marks_text, plain_mark, plain_marks, start_mark, XmlMark,
};
use crate::notes::{
    after_body, body_placeholder, body_start, body_start_from, body_starts_at, lemma_after_body,
    lemma_body_start, lemma_raw_concat, non_body_type, notes_with_text, placeholder_decoded, raw_of,
    shape_after, slide_read, with_body,
};
use crate::slide::{
    body_properties, law_paragraphs_give_the_text_back, law_slide_gives_the_text_back,
    lemma_before_shape_avoids, lemma_body_properties_avoid, lemma_notes_around_body,
    lemma_notes_marks, lemma_paragraphs_avoid, lemma_text_body, marks_after_body, marks_before_body,
    marks_before_shape, notes_marks, notes_slide, paragraph, paragraph_texts, paragraphs,
    paragraphs_of, placeholder_tag, text_body,
};
use crate::text::{
    blank, joined, lemma_split_nonempty, lemma_utf8_concat, lemma_utf8_injective, split, trimmed,
    utf8,
};
use crate::xml::{
    attribute_value, declaration_token, item_of, joinable, markup, open_names, plain_token,
    raw_attribute, reads_markup, seen_token, starts_with_mark, text_token, texts_apart,
    token_markup, unescaped, well_formed, xml_items, xml_stream, DECLARATION, XmlItem, XmlKind,
    XmlStream, XmlToken,
};
use vstd::prelude::*;

verus! {

/// Tokens as events.
pub open spec fn token_items(tokens: Seq<XmlToken>) -> Seq<XmlItem> {
    tokens.map_values(|t: XmlToken| item_of(t))
}

proof fn lemma_raw_markup(tokens: Seq<XmlToken>)
    ensures
        raw_of(token_items(tokens)) == token_markup(tokens),
    decreases tokens.len(),
{
    if tokens.len() > 0 {
        lemma_raw_markup(tokens.drop_last());
        assert(token_items(tokens).drop_last() =~= token_items(tokens.drop_last()));
        assert(token_items(tokens).last() == item_of(tokens.last()));
    }
}

// ---- finding the text body again ----

/// A text body as tokens.
pub open spec fn body_tokens(text: Seq<char>) -> Seq<XmlToken> {
    mark_tokens(text_body(text))
}

/// A text body starts and ends as one, and holds no end of one.
proof fn lemma_body_tokens(text: Seq<char>)
    ensures
        ({
            let b = body_tokens(text);
            &&& b.len() >= 2
            &&& b[0].kind == XmlKind::Start
            &&& b[0].name == utf8("p:txBody"@)
            &&& b.last().kind == XmlKind::End
            &&& b.last().name == utf8("p:txBody"@)
            &&& forall|i: int|
                0 < i < b.len() - 1 ==> (#[trigger] b[i]).name != utf8("p:txBody"@)
        }),
        token_markup(body_tokens(text)) == utf8(marks_text(text_body(text))),
        forall|i: int| 0 <= i < body_tokens(text).len() ==> plain_token(#[trigger] body_tokens(text)[i]),
        texts_apart(body_tokens(text)),
{
    let marks = text_body(text);
    let b = body_tokens(text);
    lemma_text_body(text);
    lemma_marks_markup(marks);
    lemma_plain_tokens(marks);
    lemma_paragraphs_avoid(text);
    reveal_strlit("a:bodyPr");
    reveal_strlit("a:lstStyle");
    reveal_strlit("p:txBody");
    assert("a:bodyPr"@[0] != "p:txBody"@[0]);
    assert("a:lstStyle"@[0] != "p:txBody"@[0]);
    assert(marks[0] == start_mark(bare_tag("p:txBody"@)));
    assert(marks.last() == end_mark("p:txBody"@));
    assert forall|i: int| 0 < i < b.len() - 1 implies (#[trigger] b[i]).name != utf8(
        "p:txBody"@,
    ) by {
        let m = marks[i];
        if i == 1 {
            assert(m == empty_mark(bare_tag("a:bodyPr"@)));
        } else if i == 2 {
            assert(m == empty_mark(bare_tag("a:lstStyle"@)));
        } else {
            assert(m == paragraphs(text)[i - 3]);
        }
        assert(m.tag.name != "p:txBody"@);
        lemma_mark_name(m);
        assert(b[i] == mark_token(m));
        if b[i].name == utf8("p:txBody"@) {
            lemma_utf8_injective(m.tag.name, "p:txBody"@);
        }
    }
    lemma_marks_apart(marks);
}

proof fn lemma_mark_name(m: XmlMark)
    ensures
        mark_token(m).name == utf8(m.tag.name) || mark_token(m).name == Seq::<u8>::empty(),
        mark_token(m).kind == m.kind || mark_token(m).kind == XmlKind::Text,
        utf8("p:txBody"@) != Seq::<u8>::empty(),
        utf8("p:sp"@) != Seq::<u8>::empty(),
{
    reveal_strlit("p:txBody");
    reveal_strlit("p:sp");
    if utf8("p:txBody"@) == Seq::<u8>::empty() {
        lemma_utf8_injective("p:txBody"@, Seq::empty());
    }
    if utf8("p:sp"@) == Seq::<u8>::empty() {
        lemma_utf8_injective("p:sp"@, Seq::empty());
    }
}

proof fn lemma_marks_apart(marks: Seq<XmlMark>)
    requires
        complete(marks),
    ensures
        texts_apart(mark_tokens(marks)),
{
    let tokens = mark_tokens(marks);
    assert forall|i: int, j: int| 0 <= i && j == i + 1 && j < tokens.len() implies !((
    #[trigger] tokens[i]).kind == XmlKind::Text && (#[trigger] tokens[j]).kind == XmlKind::Text) by {
        assert(tokens[i] == mark_token(marks[i]) && tokens[j] == mark_token(marks[j]));
        assert(plain_mark(marks[i]) && plain_mark(marks[j]));
        assert(!(marks[i].kind == XmlKind::Text && marks[j].kind == XmlKind::Text));
    }
}

/// Whether a text body that starts after the given events is that of the notes, and none
/// before it is.
pub open spec fn body_follows(events: Seq<XmlItem>) -> bool {
    &&& shape_after(events).shape_depth != -1
    &&& shape_after(events).is_body
    &&& forall|k: int| 0 <= k < events.len() ==> !#[trigger] body_starts_at(events, k)
}

proof fn lemma_body_start_is(events: Seq<XmlItem>, i: int, at: int)
    requires
        0 <= i <= at < events.len(),
        body_starts_at(events, at),
        forall|k: int| i <= k < at ==> !#[trigger] body_starts_at(events, k),
    ensures
        body_start_from(events, i) == Some(at),
    decreases at - i,
{
    if i < at {
        lemma_body_start_is(events, i + 1, at);
    }
}

proof fn lemma_after_body_is(events: Seq<XmlItem>, i: int, at: int)
    requires
        0 <= i <= at < events.len(),
        events[at].kind == XmlKind::End,
        events[at].name == utf8("p:txBody"@),
        forall|k: int| i <= k < at ==> (#[trigger] events[k]).name != utf8("p:txBody"@),
    ensures
        after_body(events, i) == at + 1,
    decreases at - i,
{
    if i < at {
        lemma_after_body_is(events, i + 1, at);
    }
}

/// A text body between `before` and `after` is replaced as a whole.
proof fn lemma_body_replaced(
    before: Seq<XmlToken>,
    old_text: Seq<char>,
    after: Seq<XmlToken>,
    text: Seq<char>,
)
    requires
        body_follows(token_items(before)),
    ensures
        with_body(token_items(before + body_tokens(old_text) + after), text) == Some(
            token_markup(before) + utf8(marks_text(text_body(text))) + token_markup(after),
        ),
{
    let b = body_tokens(old_text);
    let all = before + b + after;
    let events = token_items(all);
    let from = before.len() as int;
    let to = from + b.len();
    lemma_body_tokens(old_text);
    assert(events.take(from) =~= token_items(before));
    assert(events.skip(to) =~= token_items(after));
    assert(all[from] == b[0]);
    assert(events[from] == item_of(b[0]));
    assert(body_starts_at(events, from));
    assert forall|k: int| 0 <= k < from implies !#[trigger] body_starts_at(events, k) by {
        assert(events[k] == token_items(before)[k]);
        assert(events.take(k) =~= token_items(before).take(k));
        assert(!body_starts_at(token_items(before), k));
    }
    lemma_body_start_is(events, 0, from);
    assert forall|k: int| from + 1 <= k < to - 1 implies (#[trigger] events[k]).name != utf8(
        "p:txBody"@,
    ) by {
        assert(events[k] == item_of(b[k - from]));
    }
    assert(events[to - 1] == item_of(b[b.len() - 1]));
    lemma_after_body_is(events, from + 1, to - 1);
    lemma_raw_markup(before);
    lemma_raw_markup(after);
}

// ---- the events of a rewritten slide ----

/// The events with a text body in place of those from `from` up to `to`.
pub open spec fn replaced_tokens(
    tokens: Seq<XmlToken>,
    from: int,
    to: int,
    text: Seq<char>,
) -> Seq<XmlToken> {
    tokens.take(from) + body_tokens(text) + tokens.skip(to)
}

/// Whether the notes text holds no further text body.
pub open spec fn flat_body(events: Seq<XmlItem>) -> bool {
    body_start(events) matches Some(from) ==> forall|k: int|
        from < k < after_body(events, from + 1) ==> !((#[trigger] events[k]).kind == XmlKind::Start
            && events[k].name == utf8("p:txBody"@))
}

/// A text body that holds no further one leaves open what was open.
proof fn lemma_body_closes(tokens: Seq<XmlToken>, from: int, k: int)
    requires
        open_names(tokens) is Some,
        0 <= from < k <= tokens.len(),
        tokens[from].kind == XmlKind::Start,
        forall|i: int|
            from < i < k && (#[trigger] tokens[i]).name == tokens[from].name ==> tokens[i].kind
                != XmlKind::Start && tokens[i].kind != XmlKind::End,
    ensures
        open_names(tokens.take(from)) is Some,
        open_names(tokens.take(k)) is Some,
        ({
            let outer = open_names(tokens.take(from))->0;
            let names = open_names(tokens.take(k))->0;
            &&& names.len() > outer.len()
            &&& names.take(outer.len() as int) == outer
            &&& names[outer.len() as int] == tokens[from].name
            &&& forall|i: int|
                outer.len() < i < names.len() ==> #[trigger] names[i] != tokens[from].name
        }),
    decreases k - from,
{
    lemma_open_names_prefix(tokens, from);
    lemma_open_names_prefix(tokens, k);
    let outer = open_names(tokens.take(from))->0;
    let names = open_names(tokens.take(k))->0;
    assert(tokens.take(k).drop_last() == tokens.take(k - 1));
    assert(tokens.take(k).last() == tokens[k - 1]);
    if k == from + 1 {
        assert(names == outer.push(tokens[from].name));
        assert(names.take(outer.len() as int) =~= outer);
    } else {
        lemma_body_closes(tokens, from, k - 1);
        let before = open_names(tokens.take(k - 1))->0;
        let t = tokens[k - 1];
        if t.kind == XmlKind::Start {
            assert(names == before.push(t.name));
            assert(names.take(outer.len() as int) =~= outer);
        } else if t.kind == XmlKind::End {
            assert(names == before.drop_last());
            assert(before.last() == t.name);
            assert(before.len() - 1 != outer.len());
            assert(names.take(outer.len() as int) =~= outer);
        } else {
            assert(names == before);
        }
    }
}

/// Where an unclosed body runs up to the end, nothing stands after it; else what was open
/// before it is open after it.
proof fn lemma_open_after_body(tokens: Seq<XmlToken>)
    requires
        open_names(tokens) is Some,
        body_start(token_items(tokens)) is Some,
        flat_body(token_items(tokens)),
    ensures
        ({
            let from = body_start(token_items(tokens))->0;
            let to = after_body(token_items(tokens), from + 1);
            &&& 0 <= from < to <= tokens.len()
            &&& to == tokens.len() || open_names(tokens.take(to)) == open_names(tokens.take(from))
        }),
{
    let events = token_items(tokens);
    let body = utf8("p:txBody"@);
    lemma_body_start(events, 0);
    let from = body_start(events)->0;
    lemma_after_body(events, from + 1);
    let to = after_body(events, from + 1);
    assert(events[from] == item_of(tokens[from]));
    if to < tokens.len() {
        lemma_body_end(events, from + 1);
        assert forall|i: int|
            from < i < to - 1 && (#[trigger] tokens[i]).name == tokens[from].name implies tokens[i].kind
            != XmlKind::Start && tokens[i].kind != XmlKind::End by {
            assert(events[i] == item_of(tokens[i]));
        }
        lemma_body_closes(tokens, from, to - 1);
        lemma_open_names_prefix(tokens, to);
        let outer = open_names(tokens.take(from))->0;
        let before = open_names(tokens.take(to - 1))->0;
        assert(events[to - 1] == item_of(tokens[to - 1]));
        assert(tokens.take(to).drop_last() == tokens.take(to - 1));
        assert(tokens.take(to).last() == tokens[to - 1]);
        assert(before.last() == body);
        assert(before.len() - 1 == outer.len());
        assert(before.drop_last() =~= outer);
    }
}

/// The events continue after the end of a text body, unless they are at an end.
proof fn lemma_body_end(events: Seq<XmlItem>, i: int)
    requires
        0 <= i <= events.len(),
        after_body(events, i) < events.len(),
    ensures
        i < after_body(events, i),
        events[after_body(events, i) - 1].kind == XmlKind::End,
        events[after_body(events, i) - 1].name == utf8("p:txBody"@),
    decreases events.len() - i,
{
    if i < events.len() && !(events[i].kind == XmlKind::End && events[i].name == utf8(
        "p:txBody"@,
    )) {
        lemma_after_body(events, i + 1);
        lemma_body_end(events, i + 1);
    }
}

proof fn lemma_apart_concat(a: Seq<XmlToken>, b: Seq<XmlToken>)
    requires
        texts_apart(a),
        texts_apart(b),
        a.len() > 0 && b.len() > 0 ==> a.last().kind != XmlKind::Text || b[0].kind != XmlKind::Text,
    ensures
        texts_apart(a + b),
{
    let all = a + b;
    assert forall|i: int, j: int| 0 <= i && j == i + 1 && j < all.len() implies !((
    #[trigger] all[i]).kind == XmlKind::Text && (#[trigger] all[j]).kind == XmlKind::Text) by {
        let n = a.len() as int;
        if j < n {
            assert(all[i] == a[i] && all[j] == a[j]);
        } else if i < n {
            assert(all[i] == a[n - 1] && all[j] == b[0]);
        } else {
            assert(all[i] == b[i - n] && all[j] == b[j - n]);
        }
    }
}

proof fn lemma_apart_within(tokens: Seq<XmlToken>, n: int)
    requires
        texts_apart(tokens),
        0 <= n <= tokens.len(),
    ensures
        texts_apart(tokens.take(n)),
        texts_apart(tokens.skip(n)),
{
    let a = tokens.take(n);
    assert forall|i: int, j: int| 0 <= i && j == i + 1 && j < a.len() implies !((
    #[trigger] a[i]).kind == XmlKind::Text && (#[trigger] a[j]).kind == XmlKind::Text) by {
        assert(a[i] == tokens[i] && a[j] == tokens[j]);
    }
    let b = tokens.skip(n);
    assert forall|i: int, j: int| 0 <= i && j == i + 1 && j < b.len() implies !((
    #[trigger] b[i]).kind == XmlKind::Text && (#[trigger] b[j]).kind == XmlKind::Text) by {
        assert(b[i] == tokens[i + n] && b[j] == tokens[j + n]);
    }
}

/// A document with a new notes text is read as its events with the new text.
proof fn lemma_replaced_is_joinable(xml: Seq<u8>, text: Seq<char>)
    requires
        rewritable(xml),
        body_start(xml_items(xml, false)) is Some,
    ensures
        ({
            let tokens = xml_stream(xml, false).tokens;
            let from = body_start(xml_items(xml, false))->0;
            let to = after_body(xml_items(xml, false), from + 1);
            &&& 0 <= from < to <= tokens.len()
            &&& joinable(replaced_tokens(tokens, from, to, text))
        }),
{
    let tokens = xml_stream(xml, false).tokens;
    let events = xml_items(xml, false);
    assert(events =~= token_items(tokens));
    let from = body_start(events)->0;
    let to = after_body(events, from + 1);
    lemma_open_after_body(tokens);
    let before = tokens.take(from);
    let body = body_tokens(text);
    let after = tokens.skip(to);
    let all = replaced_tokens(tokens, from, to, text);
    lemma_body_tokens(text);
    lemma_text_body(text);
    assert forall|i: int| 0 <= i < all.len() implies plain_token(#[trigger] all[i]) || seen_token(
        all[i],
    ) by {
        if i < from {
            assert(all[i] == tokens[i]);
            assert(xml_stream(xml, false).tokens.contains(tokens[i]));
        } else if i < from + body.len() {
            assert(all[i] == body[i - from]);
        } else {
            assert(all[i] == tokens[i - from - body.len() + to]);
            assert(xml_stream(xml, false).tokens.contains(tokens[i - from - body.len() + to]));
        }
    }
    lemma_open_names_prefix(tokens, from);
    assert(open_names(before + body) == open_names(before));
    if to == tokens.len() {
        assert(all =~= before + body);
    } else {
        lemma_open_names_suffix(before + body, tokens.take(to), after);
        assert(tokens.take(to) + after =~= tokens);
    }
    lemma_apart_within(tokens, from);
    lemma_apart_within(tokens, to);
    lemma_apart_concat(before, body);
    lemma_apart_concat(before + body, after);
    if from > 0 {
        assert(all[0] == tokens[0]);
    } else {
        assert(all[0] == body[0]);
    }
}

// ---- rewriting twice ----

/// Whether a notes slide can get its text again and again: its tags match, its text body
/// holds no further one, and it starts with no second byte-order mark.
pub open spec fn rewritable(xml: Seq<u8>) -> bool {
    &&& well_formed(xml_stream(xml, false).tokens)
    &&& !starts_with_mark(xml_stream(xml, false).tokens)
    &&& flat_body(xml_items(xml, false))
}

/// A notes slide that got one text and then another is the slide that got the other at
/// once.
pub proof fn law_last_text_wins(
    xml: Seq<u8>,
    first: Seq<char>,
    rewritten: Seq<u8>,
    text: Seq<char>,
)
    requires
        rewritable(xml),
        notes_with_text(xml, first) == Ok::<Seq<u8>, Seq<char>>(rewritten),
        slide_read(rewritten),
    ensures
        notes_with_text(rewritten, text) == notes_with_text(xml, text),
        notes_with_text(rewritten, text) is Ok,
        rewritable(rewritten),
{
    let tokens = xml_stream(xml, false).tokens;
    let events = xml_items(xml, false);
    assert(events =~= token_items(tokens));
    lemma_body_start(events, 0);
    lemma_replaced_is_joinable(xml, first);
    let from = body_start(events)->0;
    let to = after_body(events, from + 1);
    let before = tokens.take(from);
    let after = tokens.skip(to);
    let all = replaced_tokens(tokens, from, to, first);
    lemma_body_tokens(first);
    assert(events.take(from) =~= token_items(before));
    assert(events.skip(to) =~= token_items(after));
    lemma_raw_markup(before);
    lemma_raw_markup(after);
    lemma_token_markup_concat(before, body_tokens(first));
    lemma_token_markup_concat(before + body_tokens(first), after);
    assert(rewritten == token_markup(all));
    assert(xml_stream(rewritten, false) == (XmlStream { tokens: all, error: None }));
    assert(xml_items(rewritten, false) =~= token_items(all));
    lemma_before_body(events);
    lemma_body_replaced(before, first, after, text);
    lemma_replaced_is_flat(before, first, after);
}

proof fn lemma_before_body(events: Seq<XmlItem>)
    requires
        body_start(events) is Some,
    ensures
        body_follows(events.take(body_start(events)->0)),
{
    lemma_body_start(events, 0);
    let from = body_start(events)->0;
    let before = events.take(from);
    assert forall|k: int| 0 <= k < before.len() implies !#[trigger] body_starts_at(before, k) by {
        assert(before[k] == events[k]);
        assert(before.take(k) =~= events.take(k));
        assert(!body_starts_at(events, k));
    }
}

proof fn lemma_replaced_is_flat(before: Seq<XmlToken>, text: Seq<char>, after: Seq<XmlToken>)
    requires
        body_follows(token_items(before)),
    ensures
        flat_body(token_items(before + body_tokens(text) + after)),
{
    let b = body_tokens(text);
    let all = before + b + after;
    let events = token_items(all);
    let from = before.len() as int;
    let to = from + b.len();
    lemma_body_tokens(text);
    assert(events.take(from) =~= token_items(before));
    assert(events[from] == item_of(b[0]));
    assert(body_starts_at(events, from));
    assert forall|k: int| 0 <= k < from implies !#[trigger] body_starts_at(events, k) by {
        assert(events[k] == token_items(before)[k]);
        assert(events.take(k) =~= token_items(before).take(k));
        assert(!body_starts_at(token_items(before), k));
    }
    lemma_body_start_is(events, 0, from);
    assert forall|k: int| from + 1 <= k < to - 1 implies (#[trigger] events[k]).name != utf8(
        "p:txBody"@,
    ) by {
        assert(events[k] == item_of(b[k - from]));
    }
    assert(events[to - 1] == item_of(b[b.len() - 1]));
    lemma_after_body_is(events, from + 1, to - 1);
}

// ---- new notes slides ----

/// A new notes slide up to its text body, as tokens.
pub open spec fn tokens_before_body() -> Seq<XmlToken> {
    seq![declaration_token(), text_token("\n"@)] + mark_tokens(marks_before_body())
}

/// A new notes slide as tokens.
pub open spec fn slide_tokens(text: Seq<char>) -> Seq<XmlToken> {
    tokens_before_body() + body_tokens(text) + mark_tokens(marks_after_body())
}

proof fn lemma_slide_tokens(text: Seq<char>)
    ensures
        slide_tokens(text) == seq![declaration_token(), text_token("\n"@)] + mark_tokens(
            notes_marks(text),
        ),
        token_markup(slide_tokens(text)) == utf8(notes_slide(text)),
        joinable(slide_tokens(text)),
{
    let head = seq![declaration_token(), text_token("\n"@)];
    let marks = notes_marks(text);
    let tokens = mark_tokens(marks);
    let all = slide_tokens(text);
    lemma_notes_around_body(text);
    lemma_notes_marks(text);
    assert(all =~= head + tokens);
    reveal_strlit("\n");
    // what is written
    lemma_marks_markup(marks);
    lemma_token_markup_concat(head, tokens);
    assert(head.drop_last() =~= seq![declaration_token()]);
    assert(head.drop_last().drop_last() =~= Seq::<XmlToken>::empty());
    assert(token_markup(head.drop_last().drop_last()) == Seq::<u8>::empty());
    assert(token_markup(head.drop_last()) =~= utf8("<?"@) + utf8(DECLARATION@) + utf8("?>"@));
    assert(token_markup(head) =~= utf8("<?"@) + utf8(DECLARATION@) + utf8("?>"@) + utf8("\n"@));
    lemma_utf8_concat("<?"@, DECLARATION@);
    lemma_utf8_concat("<?"@ + DECLARATION@, "?>"@);
    lemma_utf8_concat("<?"@ + DECLARATION@ + "?>"@, "\n"@);
    lemma_utf8_concat("<?"@ + DECLARATION@ + "?>"@ + "\n"@, marks_text(marks));
    // what is read
    lemma_plain_tokens(marks);
    assert forall|i: int| 0 <= i < all.len() implies plain_token(#[trigger] all[i]) || seen_token(
        all[i],
    ) by {
        if i == 0 {
            assert(all[i] == declaration_token());
        } else if i == 1 {
            assert(!"\n"@.contains('<'));
            assert(all[i] == text_token("\n"@));
        } else {
            assert(all[i] == tokens[i - 2]);
        }
    }
    assert(open_names(head.drop_last().drop_last()) == Some(Seq::<Seq<u8>>::empty()));
    assert(open_names(head.drop_last()) == Some(Seq::<Seq<u8>>::empty()));
    assert(open_names(head) == Some(Seq::<Seq<u8>>::empty()));
    assert(open_names(head + tokens) == open_names(head));
    lemma_marks_apart(marks);
    assert(texts_apart(head));
    assert(tokens[0] == mark_token(marks[0]));
    assert(marks[0].kind == XmlKind::Start);
    lemma_apart_concat(head, tokens);
    assert(all[0] == declaration_token());
}

/// How deep a walk is, is how many elements are open.
proof fn lemma_depth(tokens: Seq<XmlToken>)
    requires
        open_names(tokens) is Some,
    ensures
        shape_after(token_items(tokens)).depth == open_names(tokens)->0.len(),
    decreases tokens.len(),
{
    if tokens.len() > 0 {
        lemma_open_names_prefix(tokens, tokens.len() - 1);
        assert(tokens.take(tokens.len() - 1) == tokens.drop_last());
        lemma_depth(tokens.drop_last());
        assert(token_items(tokens).drop_last() =~= token_items(tokens.drop_last()));
        assert(token_items(tokens).last() == item_of(tokens.last()));
    }
}

/// Events without a shape stay in the shape that is open, and a placeholder among them
/// makes it one for the notes text.
proof fn lemma_within_shape(before: Seq<XmlItem>, events: Seq<XmlItem>)
    requires
        shape_after(before).shape_depth != -1,
        forall|i: int| 0 <= i < events.len() ==> (#[trigger] events[i]).name != utf8("p:sp"@),
    ensures
        shape_after(before + events).shape_depth == shape_after(before).shape_depth,
        forall|i: int|
            0 <= i < events.len() && body_placeholder(#[trigger] events[i]) ==> shape_after(
                before + events,
            ).is_body,
        shape_after(before).is_body ==> shape_after(before + events).is_body,
    decreases events.len(),
{
    if events.len() == 0 {
        assert(before + events =~= before);
    } else {
        let init = events.drop_last();
        lemma_within_shape(before, init);
        assert((before + events).drop_last() =~= before + init);
        assert((before + events).last() == events.last());
        assert(events[events.len() - 1].name != utf8("p:sp"@));
        assert forall|i: int|
            0 <= i < events.len() && body_placeholder(
                #[trigger] events[i],
            ) implies shape_after(before + events).is_body by {
            if i < init.len() {
                assert(init[i] == events[i]);
            }
        }
    }
}

proof fn lemma_placeholder()
    requires
        placeholder_decoded(item_of(mark_token(empty_mark(placeholder_tag())))),
    ensures
        body_placeholder(item_of(mark_token(empty_mark(placeholder_tag())))),
{
    let e = item_of(mark_token(empty_mark(placeholder_tag())));
    reveal_strlit("type");
    reveal_strlit("body");
    reveal_strlit("idx");
    reveal_strlit("sldImg");
    reveal_strlit("sldNum");
    reveal_strlit("dt");
    reveal_strlit("ftr");
    reveal_strlit("hdr");
    reveal_strlit("title");
    reveal_strlit("ctrTitle");
    reveal_strlit("subTitle");
    assert(e.attributes =~= seq![
        Some((utf8("type"@), utf8("body"@))),
        Some((utf8("idx"@), utf8("1"@))),
    ]);
    assert(raw_attribute(e.attributes, utf8("type"@)) == Some(utf8("body"@)));
    vstd::utf8::encode_utf8_valid_utf8("body"@);
    vstd::utf8::encode_utf8_decode_utf8("body"@);
    let ty = "body"@;
    assert(attribute_value(e.attributes, utf8("type"@)) == Some(ty));
    assert(ty.len() == 4);
    assert(ty[0] == 'b');
    assert("sldImg"@.len() == 6 && "sldNum"@.len() == 6 && "dt"@.len() == 2 && "ftr"@.len() == 3
        && "hdr"@.len() == 3 && "title"@.len() == 5 && "ctrTitle"@.len() == 8 && "subTitle"@.len()
        == 8);
    assert(!non_body_type(ty));
}

/// Before the text body of a new notes slide there is no other.
proof fn lemma_new_slide_has_no_earlier_body()
    ensures
        forall|k: int|
            0 <= k < tokens_before_body().len() ==> (
            #[trigger] token_items(tokens_before_body())[k]).name != utf8("p:txBody"@),
{
    let head = seq![declaration_token(), text_token("\n"@)];
    let front = head + mark_tokens(marks_before_shape());
    let all = tokens_before_body();
    lemma_before_shape_avoids();
    lemma_body_properties_avoid();
    reveal_strlit("p:txBody");
    reveal_strlit("p:sp");
    assert("p:sp"@.len() != "p:txBody"@.len());
    assert forall|k: int| 0 <= k < all.len() implies (#[trigger] token_items(all)[k]).name != utf8(
        "p:txBody"@,
    ) by {
        lemma_mark_name(start_mark(bare_tag("p:sp"@)));
        let n = front.len() as int;
        if k < 2 {
            assert(token_items(all)[k] == item_of(head[k]));
        } else {
            let m = if k < n {
                marks_before_shape()[k - 2]
            } else if k == n {
                start_mark(bare_tag("p:sp"@))
            } else {
                body_properties()[k - n - 1]
            };
            assert(all[k] == mark_token(m));
            assert(token_items(all)[k] == item_of(mark_token(m)));
            lemma_mark_name(m);
            assert(m.tag.name != "p:txBody"@);
            if token_items(all)[k].name == utf8("p:txBody"@) {
                lemma_utf8_injective(m.tag.name, "p:txBody"@);
            }
        }
    }
}

/// The text body of a new notes slide is that of the notes.
proof fn lemma_new_slide_body_follows()
    requires
        forall|i: int|
            0 <= i < tokens_before_body().len() ==> placeholder_decoded(
                #[trigger] token_items(tokens_before_body())[i],
            ),
    ensures
        body_follows(token_items(tokens_before_body())),
{
    let head = seq![declaration_token(), text_token("\n"@)];
    let front = head + mark_tokens(marks_before_shape());
    let start = mark_token(start_mark(bare_tag("p:sp"@)));
    let properties = mark_tokens(body_properties());
    let all = tokens_before_body();
    let opened = front.push(start);
    assert(all =~= opened + properties);
    // the shape
    lemma_slide_tokens(Seq::empty());
    lemma_open_names_prefix(slide_tokens(Seq::empty()), front.len() as int);
    assert(slide_tokens(Seq::empty()).take(front.len() as int) =~= front);
    lemma_depth(front);
    assert(token_items(opened).drop_last() =~= token_items(front));
    assert(token_items(opened).last() == item_of(start));
    assert(shape_after(token_items(opened)).shape_depth != -1);
    // its placeholder
    lemma_body_properties_avoid();
    let events = token_items(properties);
    assert forall|i: int| 0 <= i < events.len() implies (#[trigger] events[i]).name != utf8(
        "p:sp"@,
    ) by {
        let m = body_properties()[i];
        assert(events[i] == item_of(mark_token(m)));
        lemma_mark_name(m);
        if events[i].name == utf8("p:sp"@) {
            lemma_utf8_injective(m.tag.name, "p:sp"@);
        }
    }
    lemma_within_shape(token_items(opened), events);
    assert(token_items(all) =~= token_items(opened) + events);
    let i = choose|i: int|
        0 <= i < body_properties().len() && body_properties()[i] == empty_mark(placeholder_tag());
    assert(token_items(all)[opened.len() + i] == events[i]);
    lemma_placeholder();
    assert(body_placeholder(events[i]));
    // no earlier body
    lemma_new_slide_has_no_earlier_body();
}

/// A new notes slide that gets another text is the new notes slide with that text, byte
/// for byte.
pub proof fn law_new_slide_takes_another_text(first: Seq<char>, text: Seq<char>)
    requires
        slide_read(utf8(notes_slide(first))),
    ensures
        notes_with_text(utf8(notes_slide(first)), text) == Ok::<Seq<u8>, Seq<char>>(
            utf8(notes_slide(text)),
        ),
        rewritable(utf8(notes_slide(first))),
{
    let xml = utf8(notes_slide(first));
    let before = tokens_before_body();
    let after = mark_tokens(marks_after_body());
    lemma_slide_tokens(first);
    lemma_slide_tokens(text);
    assert(xml_stream(xml, false) == (XmlStream { tokens: slide_tokens(first), error: None }));
    assert(xml_items(xml, false) =~= token_items(slide_tokens(first)));
    let events = xml_items(xml, false);
    lemma_new_slide_has_no_earlier_body();
    lemma_body_start(events, 0);
    assert forall|i: int| 0 <= i < before.len() implies placeholder_decoded(
        #[trigger] token_items(before)[i],
    ) by {
        if let Some(t) = body_start(events) {
            if t < before.len() {
                assert(events[t] == token_items(before)[t]);
            }
        }
        assert(events[i] == token_items(before)[i]);
    }
    lemma_new_slide_body_follows();
    lemma_body_replaced(before, first, after, text);
    lemma_replaced_is_flat(before, first, after);
    lemma_body_tokens(text);
    lemma_token_markup_concat(before, body_tokens(text));
    lemma_token_markup_concat(before + body_tokens(text), after);
}

// ---- what stands around the text body ----

/// Whether `out` is `xml` with its notes text replaced by a body with `text`, and with
/// every byte before and after that text as it was.
pub open spec fn bytes_kept_around_body(xml: Seq<u8>, text: Seq<char>, out: Seq<u8>) -> bool {
    let events = xml_items(xml, false);
    let from = body_start(events)->0;
    let to = after_body(events, from + 1);
    let a = raw_of(events.take(from)).len() as int;
    let b = raw_of(events.take(to)).len() as int;
    &&& body_start(events) is Some
    &&& 0 <= a <= b <= xml.len()
    &&& out == xml.take(a) + utf8(marks_text(text_body(text))) + xml.skip(b)
}

/// Where a notes slide is the markup of its events, only the bytes of its notes text are
/// replaced.
pub proof fn law_bytes_around_body_are_kept(
    xml: Seq<u8>,
    tokens: Seq<XmlToken>,
    text: Seq<char>,
    out: Seq<u8>,
)
    requires
        joinable(tokens),
        xml == token_markup(tokens),
        slide_read(xml),
        notes_with_text(xml, text) == Ok::<Seq<u8>, Seq<char>>(out),
    ensures
        bytes_kept_around_body(xml, text, out),
{
    let events = xml_items(xml, false);
    assert(xml_stream(xml, false) == (XmlStream { tokens, error: None }));
    assert(events =~= token_items(tokens));
    lemma_body_start(events, 0);
    let from = body_start(events)->0;
    lemma_after_body(events, from + 1);
    let to = after_body(events, from + 1);
    lemma_raw_markup(tokens);
    lemma_raw_concat(events.take(from), events.subrange(from, to));
    lemma_raw_concat(events.take(to), events.skip(to));
    assert(events.take(from) + events.subrange(from, to) =~= events.take(to));
    assert(events.take(to) + events.skip(to) =~= events);
    let a = raw_of(events.take(from)).len() as int;
    let b = raw_of(events.take(to)).len() as int;
    assert(xml.take(a) =~= raw_of(events.take(from)));
    assert(xml.skip(b) =~= raw_of(events.skip(to)));
}

// ---- where the text body stands ----

/// Whether an event is a start or end tag of a shape.
pub open spec fn shape_tag(e: XmlItem) -> bool {
    e.name == utf8("p:sp"@) && (e.kind == XmlKind::Start || e.kind == XmlKind::End)
}

/// Whether event `s` opens a shape and no shape is opened or closed between it and event `t`.
pub open spec fn in_shape(events: Seq<XmlItem>, s: int, t: int) -> bool {
    &&& 0 <= s < t <= events.len()
    &&& events[s].kind == XmlKind::Start
    &&& events[s].name == utf8("p:sp"@)
    &&& forall|m: int| s < m < t ==> !shape_tag(#[trigger] events[m])
}

/// Whether event `q` is a placeholder for notes text before event `t`, in the shape that
/// event `s` opens.
pub open spec fn notes_shape(events: Seq<XmlItem>, s: int, q: int, t: int) -> bool {
    in_shape(events, s, t) && s < q < t && body_placeholder(events[q])
}

/// Whether event `t` is a start tag of a text body in a shape with a placeholder for notes
/// text before it.
pub open spec fn notes_body_tag(events: Seq<XmlItem>, t: int) -> bool {
    &&& 0 <= t < events.len()
    &&& events[t].kind == XmlKind::Start
    &&& events[t].name == utf8("p:txBody"@)
    &&& exists|s: int, q: int| #[trigger] notes_shape(events, s, q, t)
}

/// Where a walk stands, told by the positions of the tags before it.
spec fn walk_is_told(tokens: Seq<XmlToken>, n: int) -> bool {
    let events = token_items(tokens);
    let walk = shape_after(token_items(tokens.take(n)));
    let names = open_names(tokens.take(n))->0;
    &&& open_names(tokens.take(n)) is Some
    &&& walk.depth == names.len()
    &&& walk.shape_depth == -1 <==> !exists|s: int| #[trigger] in_shape(events, s, n)
    &&& walk.shape_depth != -1 ==> 1 <= walk.shape_depth <= walk.depth && names[walk.shape_depth
        - 1] == utf8("p:sp"@)
    &&& forall|d: int|
        walk.shape_depth != -1 && walk.shape_depth <= d < names.len() ==> #[trigger] names[d]
            != utf8("p:sp"@)
    &&& walk.is_body <==> exists|s: int, q: int| #[trigger] notes_shape(events, s, q, n)
}

proof fn lemma_in_shape_step(events: Seq<XmlItem>, s: int, n: int)
    requires
        0 <= n < events.len(),
    ensures
        in_shape(events, s, n + 1) <==> {
            ||| s == n && events[n].kind == XmlKind::Start && events[n].name == utf8("p:sp"@)
            ||| in_shape(events, s, n) && !shape_tag(events[n])
        },
{
    if in_shape(events, s, n + 1) && s < n {
        assert(!shape_tag(events[n]));
        assert forall|m: int| s < m < n implies !shape_tag(#[trigger] events[m]) by {}
    }
    if in_shape(events, s, n) && !shape_tag(events[n]) {
        assert forall|m: int| s < m < n + 1 implies !shape_tag(#[trigger] events[m]) by {}
    }
}

#[verifier::spinoff_prover]
proof fn lemma_walk_step(tokens: Seq<XmlToken>, n: int)
    requires
        0 <= n < tokens.len(),
        open_names(tokens.take(n + 1)) is Some,
        walk_is_told(tokens, n),
    ensures
        walk_is_told(tokens, n + 1),
{
    let events = token_items(tokens);
    let e = events[n];
    let before = token_items(tokens.take(n));
    let after = token_items(tokens.take(n + 1));
    assert(tokens.take(n + 1).drop_last() =~= tokens.take(n));
    assert(tokens.take(n + 1).last() == tokens[n]);
    assert(after.drop_last() =~= before);
    assert(after.last() == e);
    let old_names = open_names(tokens.take(n))->0;
    let names = open_names(tokens.take(n + 1))->0;
    let old_walk = shape_after(before);
    let walk = shape_after(after);
    assert(e.kind == tokens[n].kind && e.name == tokens[n].name);
    assert forall|s: int| #[trigger] in_shape(events, s, n + 1) <==> {
        ||| s == n && e.kind == XmlKind::Start && e.name == utf8("p:sp"@)
        ||| in_shape(events, s, n) && !shape_tag(e)
    } by {
        lemma_in_shape_step(events, s, n);
    }
    if e.kind == XmlKind::Start && e.name == utf8("p:sp"@) {
        assert(in_shape(events, n, n + 1));
        assert forall|s: int, q: int| !(#[trigger] notes_shape(events, s, q, n + 1)) by {
            if notes_shape(events, s, q, n + 1) {
                assert(in_shape(events, s, n + 1));
            }
        }
        assert(names == old_names.push(e.name));
    } else if shape_tag(e) {
        assert forall|s: int| !(#[trigger] in_shape(events, s, n + 1)) by {}
        assert forall|s: int, q: int| !(#[trigger] notes_shape(events, s, q, n + 1)) by {
            if notes_shape(events, s, q, n + 1) {
                assert(in_shape(events, s, n + 1));
            }
        }
        assert(names == old_names.drop_last());
        assert(old_names.last() == e.name);
        if old_walk.shape_depth != -1 && old_walk.shape_depth != old_walk.depth {
            assert(old_names[old_names.len() - 1] != utf8("p:sp"@));
        }
    } else {
        assert forall|s: int| #[trigger] in_shape(events, s, n + 1) <==> in_shape(events, s, n) by {}
        if exists|s: int| #[trigger] in_shape(events, s, n) {
            let s = choose|s: int| #[trigger] in_shape(events, s, n);
            assert(in_shape(events, s, n + 1));
        }
        if exists|s: int| #[trigger] in_shape(events, s, n + 1) {
            let s = choose|s: int| #[trigger] in_shape(events, s, n + 1);
            assert(in_shape(events, s, n));
        }
        if old_walk.is_body {
            let (s, q) = choose|s: int, q: int| #[trigger] notes_shape(events, s, q, n);
            assert(in_shape(events, s, n + 1));
            assert(notes_shape(events, s, q, n + 1));
        }
        if exists|s: int, q: int| #[trigger] notes_shape(events, s, q, n + 1) {
            let (s, q) = choose|s: int, q: int| #[trigger] notes_shape(events, s, q, n + 1);
            assert(in_shape(events, s, n));
            if q < n {
                assert(notes_shape(events, s, q, n));
            }
        }
        if body_placeholder(e) && old_walk.shape_depth != -1 {
            let s = choose|s: int| #[trigger] in_shape(events, s, n);
            assert(in_shape(events, s, n + 1));
            assert(notes_shape(events, s, n, n + 1));
        }
        if e.kind == XmlKind::End {
            assert(names == old_names.drop_last());
            assert(old_names.last() == e.name);
            if old_walk.shape_depth != -1 && old_walk.shape_depth == old_walk.depth {
                assert(old_names[old_walk.shape_depth - 1] == utf8("p:sp"@));
            }
        } else if e.kind == XmlKind::Start {
            assert(names == old_names.push(e.name));
        } else {
            assert(names == old_names);
        }
    }
}

proof fn lemma_walk_is_told(tokens: Seq<XmlToken>, n: int)
    requires
        0 <= n <= tokens.len(),
        open_names(tokens) is Some,
    ensures
        walk_is_told(tokens, n),
    decreases n,
{
    if n == 0 {
        assert(tokens.take(0) =~= Seq::<XmlToken>::empty());
        assert(token_items(tokens.take(0)) =~= Seq::<XmlItem>::empty());
    } else {
        lemma_walk_is_told(tokens, n - 1);
        lemma_open_names_prefix(tokens, n);
        lemma_walk_step(tokens, n - 1);
    }
}

proof fn lemma_body_tag(tokens: Seq<XmlToken>, t: int)
    requires
        open_names(tokens) is Some,
        0 <= t < tokens.len(),
    ensures
        body_starts_at(token_items(tokens), t) <==> notes_body_tag(token_items(tokens), t),
{
    let events = token_items(tokens);
    lemma_walk_is_told(tokens, t);
    assert(events.take(t) =~= token_items(tokens.take(t)));
    if exists|s: int, q: int| #[trigger] notes_shape(events, s, q, t) {
        let (s, q) = choose|s: int, q: int| #[trigger] notes_shape(events, s, q, t);
        assert(in_shape(events, s, t));
    }
}

/// The text that is replaced is the first text body in a shape with a placeholder for notes
/// text before it, from its start tag up to the first end tag of a text body after that,
/// wherever in the slide it stands. Everything before and after it is kept.
pub proof fn law_first_notes_body_is_replaced(
    xml: Seq<u8>,
    tokens: Seq<XmlToken>,
    t: int,
    u: int,
    text: Seq<char>,
)
    requires
        xml_stream(xml, false) == (XmlStream { tokens, error: None }),
        slide_read(xml),
        notes_body_tag(token_items(tokens), t),
        forall|k: int| k < t ==> !#[trigger] notes_body_tag(token_items(tokens), k),
        t < u < tokens.len(),
        tokens[u].kind == XmlKind::End,
        tokens[u].name == utf8("p:txBody"@),
        forall|k: int|
            t < k < u ==> !((#[trigger] tokens[k]).kind == XmlKind::End && tokens[k].name == utf8(
                "p:txBody"@,
            )),
    ensures
        notes_with_text(xml, text) == Ok::<Seq<u8>, Seq<char>>(
            token_markup(tokens.take(t)) + utf8(marks_text(text_body(text))) + token_markup(
                tokens.skip(u + 1),
            ),
        ),
{
    let events = token_items(tokens);
    assert(xml_items(xml, false) =~= events);
    lemma_body_tag(tokens, t);
    assert forall|k: int| 0 <= k < t implies !#[trigger] body_starts_at(events, k) by {
        lemma_body_tag(tokens, k);
        assert(!notes_body_tag(events, k));
    }
    lemma_body_start_is(events, 0, t);
    lemma_after_body(events, t + 1);
    let after = after_body(events, t + 1);
    if after < u + 1 {
        lemma_body_end_found(events, t + 1);
        assert(events[after - 1].kind == tokens[after - 1].kind && events[after - 1].name
            == tokens[after - 1].name);
    } else if after > u + 1 {
        assert(events[u].kind == tokens[u].kind && events[u].name == tokens[u].name);
    }
    lemma_raw_markup(tokens.take(t));
    lemma_raw_markup(tokens.skip(u + 1));
    assert(events.take(t) =~= token_items(tokens.take(t)));
    assert(events.skip(u + 1) =~= token_items(tokens.skip(u + 1)));
}

proof fn lemma_body_end_found(events: Seq<XmlItem>, i: int)
    requires
        0 <= i <= events.len(),
        after_body(events, i) < events.len(),
    ensures
        i < after_body(events, i),
        events[after_body(events, i) - 1].kind == XmlKind::End,
        events[after_body(events, i) - 1].name == utf8("p:txBody"@),
    decreases events.len() - i,
{
    if i < events.len() && !(events[i].kind == XmlKind::End && events[i].name == utf8("p:txBody"@)) {
        lemma_body_end_found(events, i + 1);
    }
}

/// A slide without such a text body is refused, and says so.
pub proof fn law_slide_without_notes_body_is_refused(
    xml: Seq<u8>,
    tokens: Seq<XmlToken>,
    text: Seq<char>,
)
    requires
        xml_stream(xml, false) == (XmlStream { tokens, error: None }),
        slide_read(xml),
        forall|k: int| !#[trigger] notes_body_tag(token_items(tokens), k),
    ensures
        notes_with_text(xml, text) == Err::<Seq<u8>, Seq<char>>(
            "메모 텍스트 상자를 찾지 못했습니다"@,
        ),
{
    let events = token_items(tokens);
    assert(xml_items(xml, false) =~= events);
    lemma_body_start(events, 0);
    if let Some(t) = body_start(events) {
        lemma_body_tag(tokens, t);
        assert(!notes_body_tag(events, t));
    }
}

/// A slide that cannot be read to its end is refused with the reader's error.
pub proof fn law_unreadable_slide_is_refused(xml: Seq<u8>, m: Seq<char>, text: Seq<char>)
    requires
        xml_stream(xml, false).error == Some(m),
    ensures
        notes_with_text(xml, text) == Err::<Seq<u8>, Seq<char>>(m),
{
}

// ---- the text as a reader sees it ----

/// The texts of the paragraphs in what a reader hands out: each start tag `a:p` begins one,
/// and a text right after a start tag `a:t` belongs to the last one begun, decoded and with
/// its entities turned back into characters.
pub open spec fn read_paragraphs(tokens: Seq<XmlToken>) -> Seq<Seq<char>>
    decreases tokens.len(),
{
    if tokens.len() == 0 {
        Seq::empty()
    } else {
        let before = read_paragraphs(tokens.drop_last());
        let t = tokens.last();
        if t.kind == XmlKind::Start && t.name == utf8("a:p"@) {
            before.push(Seq::empty())
        } else if t.kind == XmlKind::Text && before.len() > 0 && tokens.len() > 1
            && tokens[tokens.len() - 2].kind == XmlKind::Start && tokens[tokens.len() - 2].name
            == utf8("a:t"@) {
            before.drop_last().push(
                before.last() + unescaped(vstd::utf8::decode_utf8(t.content)),
            )
        } else {
            before
        }
    }
}

proof fn lemma_token_of(m: XmlMark, name: Seq<char>)
    requires
        plain_mark(m),
    ensures
        mark_token(m).kind == m.kind,
        m.kind == XmlKind::Start ==> (mark_token(m).name == utf8(name) <==> m.tag.name == name),
        m.kind == XmlKind::Text ==> vstd::utf8::decode_utf8(mark_token(m).content) == m.text,
{
    if m.kind == XmlKind::Start && mark_token(m).name == utf8(name) {
        lemma_utf8_injective(m.tag.name, name);
    }
    vstd::utf8::encode_utf8_decode_utf8(m.text);
}

proof fn lemma_paragraphs_are_read(head: Seq<XmlToken>, marks: Seq<XmlMark>)
    requires
        plain_marks(marks),
        read_paragraphs(head).len() == 0,
    ensures
        read_paragraphs(head + mark_tokens(marks)) == paragraph_texts(marks),
    decreases marks.len(),
{
    let tokens = mark_tokens(marks);
    let all = head + tokens;
    if marks.len() == 0 {
        assert(all =~= head);
        assert(read_paragraphs(head) =~= Seq::<Seq<char>>::empty());
    } else {
        let init = marks.drop_last();
        let n = marks.len() as int;
        assert forall|i: int| 0 <= i < init.len() implies plain_mark(#[trigger] init[i]) by {
            assert(init[i] == marks[i]);
        }
        lemma_paragraphs_are_read(head, init);
        assert(all.drop_last() =~= head + mark_tokens(init));
        assert(all.last() == mark_token(marks[n - 1]));
        assert(plain_mark(marks[n - 1]));
        lemma_token_of(marks[n - 1], "a:p"@);
        if n > 1 {
            assert(all[all.len() - 2] == mark_token(marks[n - 2]));
            assert(plain_mark(marks[n - 2]));
            lemma_token_of(marks[n - 2], "a:t"@);
        } else {
            assert(init =~= Seq::<XmlMark>::empty());
            assert(paragraph_texts(init).len() == 0);
        }
    }
}

proof fn lemma_marks_are_read(marks: Seq<XmlMark>, xml: Seq<u8>)
    requires
        complete(marks),
        marks.len() > 0,
        marks[0].kind != XmlKind::Text,
        xml == utf8(marks_text(marks)),
        reads_markup(xml, xml_stream(xml, false)),
    ensures
        xml_stream(xml, false) == (XmlStream { tokens: mark_tokens(marks), error: None }),
        read_paragraphs(xml_stream(xml, false).tokens) == paragraph_texts(marks),
{
    let tokens = mark_tokens(marks);
    let none = Seq::<XmlToken>::empty();
    lemma_marks_markup(marks);
    lemma_plain_tokens(marks);
    lemma_marks_apart(marks);
    assert(open_names(none) == Some(Seq::<Seq<u8>>::empty()));
    assert(open_names(none + tokens) == open_names(none));
    assert(none + tokens =~= tokens);
    assert(plain_mark(marks[0]));
    lemma_token_of(marks[0], Seq::empty());
    assert(tokens[0] == mark_token(marks[0]));
    assert(joinable(tokens));
    lemma_paragraphs_are_read(none, marks);
}

/// Whether a reader sees `text` in `xml`: one paragraph for each line, whose texts joined
/// with line ends are the text, or one without a text where the text is blank.
pub open spec fn reads_as_text(xml: Seq<u8>, text: Seq<char>) -> bool {
    let read = read_paragraphs(xml_stream(xml, false).tokens);
    &&& xml_stream(xml, false).error is None
    &&& !blank(text) ==> joined(read, '\n') == text && read.len() == text.filter(
        |c: char| c == '\n',
    ).len() + 1
    &&& blank(text) ==> read == seq![Seq::<char>::empty()]
}

/// Paragraphs, text bodies and new notes slides, as they are written, read as the text they
/// were made of, however long it is.
pub proof fn law_written_text_is_read(text: Seq<char>, xml: Seq<u8>)
    requires
        reads_markup(xml, xml_stream(xml, false)),
        xml == utf8(marks_text(paragraphs(text))) || xml == utf8(marks_text(text_body(text))) || xml
            == utf8(notes_slide(text)),
    ensures
        reads_as_text(xml, text),
{
    law_paragraphs_give_the_text_back(text);
    law_slide_gives_the_text_back(text);
    lemma_text_body(text);
    if xml == utf8(marks_text(text_body(text))) {
        assert(text_body(text)[0] == start_mark(bare_tag("p:txBody"@)));
        lemma_marks_are_read(text_body(text), xml);
    } else if xml == utf8(notes_slide(text)) {
        let head = seq![declaration_token(), text_token("\n"@)];
        lemma_slide_tokens(text);
        lemma_notes_marks(text);
        assert(head.drop_last() =~= seq![declaration_token()]);
        assert(head.drop_last().drop_last() =~= Seq::<XmlToken>::empty());
        assert(read_paragraphs(head.drop_last().drop_last()).len() == 0);
        assert(read_paragraphs(head.drop_last()).len() == 0);
        assert(read_paragraphs(head).len() == 0);
        lemma_paragraphs_are_read(head, notes_marks(text));
    } else {
        lemma_first_paragraph(text);
        lemma_marks_are_read(paragraphs(text), xml);
    }
}

proof fn lemma_first_paragraph(text: Seq<char>)
    ensures
        paragraphs(text).len() > 0,
        paragraphs(text)[0].kind == XmlKind::Start,
{
    if trimmed(text).len() > 0 {
        let lines = split(text, '\n');
        lemma_split_nonempty(text, '\n');
        lemma_first_of_lines(lines);
    }
}

proof fn lemma_first_of_lines(lines: Seq<Seq<char>>)
    requires
        lines.len() > 0,
    ensures
        paragraphs_of(lines).len() > 0,
        paragraphs_of(lines)[0].kind == XmlKind::Start,
    decreases lines.len(),
{
    let init = lines.drop_last();
    assert(paragraph(lines.last()).len() > 0);
    assert(paragraph(lines.last())[0].kind == XmlKind::Start);
    if lines.len() > 1 {
        lemma_first_of_lines(init);
    } else {
        assert(paragraphs_of(init) =~= Seq::<XmlMark>::empty());
    }
}

} // verus!
