//! XML as a list of events, and text escaped for XML.

use crate::text::{
    chars_of, extend_chars, from_utf8_lossy, has_prefix, has_suffix, same_bytes, text_of, utf8,
    utf8_lossy,
};
use quick_xml::events::Event;
use quick_xml::reader::Reader;
use vstd::prelude::*;
use vstd::string::StringExecFns;

verus! {

/// What an XML event is.
#[derive(Clone, Copy, Debug, PartialEq, Eq, Structural)]
pub enum XmlKind {
    Start,
    Empty,
    End,
    Text,
    CData,
    Comment,
    Decl,
    PI,
    DocType,
    Eof,
}

/// An XML event as the tokenizer hands it out.
///
/// `name` is the name of a start, empty or end tag. `attributes` are those of a
/// start or empty tag, in order: a key and a raw value, or `None` for one that is
/// malformed. `content` is what stands between the delimiters.
#[verifier::ext_equal]
pub struct XmlToken {
    pub kind: XmlKind,
    pub name: Seq<u8>,
    pub attributes: Seq<Option<(Seq<u8>, Seq<u8>)>>,
    pub content: Seq<u8>,
}

/// What is left to read: the events up to the end of the input or up to the first
/// error, and the text of that error.
#[verifier::ext_equal]
pub struct XmlStream {
    pub tokens: Seq<XmlToken>,
    pub error: Option<Seq<char>>,
}

/// The stream that `quick_xml` reads from a document, with or without the white
/// space around text.
pub uninterp spec fn xml_stream(xml: Seq<u8>, trim_text: bool) -> XmlStream;

/// What a reader has not read yet.
pub uninterp spec fn reader_stream(reader: Reader<&[u8]>) -> XmlStream;

/// What an event holds.
pub uninterp spec fn event_token(event: Event<'static>) -> XmlToken;

// ---- simple documents ----

/// A tag: its name, and its attributes with their values as they are written.
#[verifier::ext_equal]
pub struct XmlTag {
    pub name: Seq<char>,
    pub attributes: Seq<(Seq<char>, Seq<char>)>,
}

pub open spec fn name_char(c: char) -> bool {
    'a' <= c <= 'z' || 'A' <= c <= 'Z' || '0' <= c <= '9' || c == ':'
}

/// Whether a name is made of letters, digits and colons.
pub open spec fn plain_name(s: Seq<char>) -> bool {
    s.len() > 0 && forall|i: int| 0 <= i < s.len() ==> name_char(#[trigger] s[i])
}

/// Whether the name of a tag and the keys of its attributes are plain, no key occurs
/// twice, and no value holds a double quote or an angle bracket.
pub open spec fn plain_tag(t: XmlTag) -> bool {
    &&& plain_name(t.name)
    &&& forall|i: int|
        0 <= i < t.attributes.len() ==> plain_name((#[trigger] t.attributes[i]).0)
            && !t.attributes[i].1.contains('"') && !t.attributes[i].1.contains('<')
            && !t.attributes[i].1.contains('>')
    &&& forall|i: int, j: int|
        0 <= i < j < t.attributes.len() ==> (#[trigger] t.attributes[i]).0 != (
        #[trigger] t.attributes[j]).0
}

/// An attribute as it stands in a tag.
pub open spec fn attribute_text(key: Seq<char>, value: Seq<char>) -> Seq<char> {
    " "@ + key + "=\""@ + value + "\""@
}

/// What stands between the delimiters of a tag.
pub open spec fn tag_text(name: Seq<char>, attributes: Seq<(Seq<char>, Seq<char>)>) -> Seq<char>
    decreases attributes.len(),
{
    if attributes.len() == 0 {
        name
    } else {
        tag_text(name, attributes.drop_last()) + attribute_text(
            attributes.last().0,
            attributes.last().1,
        )
    }
}

/// Empty tags, one after another.
pub open spec fn empty_tags(tags: Seq<XmlTag>) -> Seq<char>
    decreases tags.len(),
{
    if tags.len() == 0 {
        Seq::empty()
    } else {
        empty_tags(tags.drop_last()) + ("<"@ + tag_text(tags.last().name, tags.last().attributes)
            + "/>"@)
    }
}

pub const DECLARATION: &'static str = "xml version=\"1.0\" encoding=\"UTF-8\" standalone=\"yes\"";

/// The declaration and the start tag of a document.
pub open spec fn document_start(root: XmlTag) -> Seq<char> {
    "<?"@ + DECLARATION@ + "?>\n<"@ + tag_text(root.name, root.attributes) + ">"@
}

/// The end tag of a document.
pub open spec fn document_end(root: XmlTag) -> Seq<char> {
    "</"@ + root.name + ">"@
}

/// A document with the given tags inside the given root.
pub open spec fn document(root: XmlTag, tags: Seq<XmlTag>) -> Seq<char> {
    document_start(root) + empty_tags(tags) + document_end(root)
}

/// A tag as an event.
pub open spec fn tag_token(kind: XmlKind, t: XmlTag) -> XmlToken {
    XmlToken {
        kind,
        name: utf8(t.name),
        attributes: t.attributes.map_values(
            |a: (Seq<char>, Seq<char>)| Some((utf8(a.0), utf8(a.1))),
        ),
        content: utf8(tag_text(t.name, t.attributes)),
    }
}

/// An end tag as an event.
pub open spec fn end_token(name: Seq<char>) -> XmlToken {
    XmlToken {
        kind: XmlKind::End,
        name: utf8(name),
        attributes: Seq::empty(),
        content: utf8(name),
    }
}

/// A text as an event.
pub open spec fn text_token(s: Seq<char>) -> XmlToken {
    XmlToken {
        kind: XmlKind::Text,
        name: Seq::empty(),
        attributes: Seq::empty(),
        content: utf8(s),
    }
}

/// The declaration as an event.
pub open spec fn declaration_token() -> XmlToken {
    XmlToken {
        kind: XmlKind::Decl,
        name: Seq::empty(),
        attributes: Seq::empty(),
        content: utf8(DECLARATION@),
    }
}

/// A document as events, without the white space between its tags.
pub open spec fn document_stream(root: XmlTag, tags: Seq<XmlTag>) -> XmlStream {
    XmlStream {
        tokens: seq![declaration_token(), tag_token(XmlKind::Start, root)] + tags.map_values(
            |t: XmlTag| tag_token(XmlKind::Empty, t),
        ) + seq![end_token(root.name)],
        error: None,
    }
}

/// Whether `stream` is right for `xml`, should that be a simple document.
pub open spec fn reads_documents(xml: Seq<u8>, stream: XmlStream) -> bool {
    forall|root: XmlTag, tags: Seq<XmlTag>|
        #![trigger document(root, tags)]
        plain_tag(root) && (forall|i: int| 0 <= i < tags.len() ==> plain_tag(#[trigger] tags[i]))
            && xml == utf8(document(root, tags)) ==> stream == document_stream(root, tags)
}

// ---- joined markup ----

/// Whether a token is a plain tag, the end of one, a text without `<`, or the
/// declaration.
pub open spec fn plain_token(t: XmlToken) -> bool {
    ||| exists|tag: XmlTag| plain_tag(tag) && t == #[trigger] tag_token(XmlKind::Start, tag)
    ||| exists|tag: XmlTag| plain_tag(tag) && t == #[trigger] tag_token(XmlKind::Empty, tag)
    ||| exists|name: Seq<char>| plain_name(name) && t == #[trigger] end_token(name)
    ||| exists|text: Seq<char>|
        text.len() > 0 && !text.contains('<') && t == #[trigger] text_token(text)
    ||| t == declaration_token()
}

/// Whether a token is among those that some document is read as.
pub open spec fn seen_token(t: XmlToken) -> bool {
    exists|xml: Seq<u8>| (#[trigger] xml_stream(xml, false)).tokens.contains(t)
}

/// The names of the elements that are open after the tokens, innermost last; none where
/// an end tag does not match.
pub open spec fn open_names(tokens: Seq<XmlToken>) -> Option<Seq<Seq<u8>>>
    decreases tokens.len(),
{
    if tokens.len() == 0 {
        Some(Seq::empty())
    } else {
        let t = tokens.last();
        match open_names(tokens.drop_last()) {
            None => None,
            Some(names) => if t.kind == XmlKind::Start {
                Some(names.push(t.name))
            } else if t.kind == XmlKind::End {
                if names.len() > 0 && names.last() == t.name {
                    Some(names.drop_last())
                } else {
                    None
                }
            } else {
                Some(names)
            },
        }
    }
}

/// No text follows a text.
pub open spec fn texts_apart(tokens: Seq<XmlToken>) -> bool {
    forall|i: int, j: int|
        0 <= i && j == i + 1 && j < tokens.len() ==> !((#[trigger] tokens[i]).kind == XmlKind::Text
            && (#[trigger] tokens[j]).kind == XmlKind::Text)
}

/// Every end tag matches, and no text follows a text.
pub open spec fn well_formed(tokens: Seq<XmlToken>) -> bool {
    open_names(tokens) is Some && texts_apart(tokens)
}

/// Whether the tokens start with a byte-order mark in a text.
pub open spec fn starts_with_mark(tokens: Seq<XmlToken>) -> bool {
    tokens.len() > 0 && tokens[0].kind == XmlKind::Text && tokens[0].content.len() >= 3
        && tokens[0].content.take(3) == seq![0xefu8, 0xbbu8, 0xbfu8]
}

/// Tokens as markup, one after another.
pub open spec fn token_markup(tokens: Seq<XmlToken>) -> Seq<u8>
    decreases tokens.len(),
{
    if tokens.len() == 0 {
        Seq::empty()
    } else {
        token_markup(tokens.drop_last()) + markup(tokens.last().kind, tokens.last().content)
    }
}

/// Whether the markup of the tokens, joined, is read as the tokens.
pub open spec fn joinable(tokens: Seq<XmlToken>) -> bool {
    &&& forall|i: int|
        0 <= i < tokens.len() ==> plain_token(#[trigger] tokens[i]) || seen_token(tokens[i])
    &&& well_formed(tokens)
    &&& !starts_with_mark(tokens)
}

/// Whether `stream` is right for `xml`, should that be joined markup.
pub open spec fn reads_markup(xml: Seq<u8>, stream: XmlStream) -> bool {
    forall|tokens: Seq<XmlToken>|
        joinable(tokens) && xml == #[trigger] token_markup(tokens) ==> stream == (XmlStream {
            tokens,
            error: None,
        })
}

// ---- markup put into a document ----

/// Whether a document ends with a whole tag, comment or the like: it is read without an
/// error, and what is read last is no text.
pub open spec fn whole(xml: Seq<u8>, trim_text: bool) -> bool {
    let s = xml_stream(xml, trim_text);
    s.error is None && s.tokens.len() > 0 && s.tokens.last().kind != XmlKind::Text
}

/// Whether tokens can be put in between two others: they are plain, there is no text among
/// them, and they leave open what was open.
pub open spec fn inset(tokens: Seq<XmlToken>) -> bool {
    &&& forall|i: int|
        0 <= i < tokens.len() ==> plain_token(#[trigger] tokens[i]) && tokens[i].kind
            != XmlKind::Text
    &&& forall|before: Seq<XmlToken>|
        open_names(#[trigger] (before + tokens)) == open_names(before)
}

/// Whether `stream` reads `tokens` and then what `rest` reads.
pub open spec fn reads_then(stream: XmlStream, tokens: Seq<XmlToken>, rest: XmlStream) -> bool {
    stream == (XmlStream { tokens: tokens + rest.tokens, error: rest.error })
}

/// Whether `stream` is right for `xml`, should that be another document with markup put
/// in after a whole tag: what stands before and after that is read as it is without it.
pub open spec fn reads_insets(xml: Seq<u8>, trim_text: bool, stream: XmlStream) -> bool {
    forall|head: Seq<u8>, tokens: Seq<XmlToken>, tail: Seq<u8>|
        whole(head, trim_text) && inset(tokens) && xml == #[trigger] (head + token_markup(tokens)
            + tail) ==> exists|rest: XmlStream|
            #[trigger] reads_then(stream, xml_stream(head, trim_text).tokens + tokens, rest)
                && reads_then(
                xml_stream(head + tail, trim_text),
                xml_stream(head, trim_text).tokens,
                rest,
            )
}

// ---- reading events ----

/// The reader of `quick_xml`.
#[verifier::external_type_specification]
#[verifier::external_body]
#[verifier::reject_recursive_types(R)]
pub struct ExReader<R>(Reader<R>);

/// An event of `quick_xml`.
#[verifier::external_type_specification]
#[verifier::external_body]
pub struct ExEvent<'a>(Event<'a>);

/// `Reader::from_reader` with the setting `trim_text`: nothing is read yet.
///
/// With the setting on, a document made of a declaration and of plain empty tags inside a
/// plain root is going to be read as just these, without an error. With it off, every end
/// tag that is going to be read matches, and no text follows a text; and where the input
/// is the markup of such tokens, plain ones or ones that come of reading, it is going to be
/// read as these, without an error. A byte-order mark at the start is dropped, so nothing
/// is said of a text there that starts with one.
///
/// Either way the input is read from front to back, and what is read after a whole tag
/// depends on what follows it and on which elements are open: balanced plain tags that
/// stand there are read as these, and what is around them as it is without them.
#[verifier::external_body]
fn open_reader<'a>(xml: &'a [u8], trim_text: bool) -> (r: Reader<&'a [u8]>)
    ensures
        reader_stream(r) == xml_stream(xml@, trim_text),
        trim_text ==> reads_documents(xml@, reader_stream(r)),
        reads_insets(xml@, trim_text, reader_stream(r)),
        !trim_text ==> reads_markup(xml@, reader_stream(r)),
        !trim_text ==> well_formed(reader_stream(r).tokens),
{
    let mut reader = Reader::from_reader(xml);
    reader.config_mut().trim_text(trim_text);
    reader
}

/// `Reader::read_event_into`: takes the first event off the stream. At the end it
/// gives the event `Eof`, or the error that stopped it.
#[verifier::external_body]
fn read_event(reader: &mut Reader<&[u8]>) -> (r: Result<Event<'static>, String>)
    ensures
        ({
            let before = reader_stream(*old(reader));
            let after = reader_stream(*final(reader));
            match r {
                Ok(e) => if before.tokens.len() > 0 {
                    &&& event_token(e) == before.tokens[0]
                    &&& event_token(e).kind != XmlKind::Eof
                    &&& after.tokens == before.tokens.drop_first()
                    &&& after.error == before.error
                } else {
                    before.error is None && event_token(e).kind == XmlKind::Eof
                },
                Err(m) => before.tokens.len() == 0 && before.error == Some(m@),
            }
        }),
{
    let mut buf = Vec::new();
    let event = reader.read_event_into(&mut buf).map_err(|e| e.to_string())?;
    Ok(event.into_owned())
}

/// Which variant of `Event` an event is.
#[verifier::external_body]
fn event_kind(event: &Event<'static>) -> (r: XmlKind)
    ensures
        r == event_token(*event).kind,
{
    match event {
        Event::Start(_) => XmlKind::Start,
        Event::Empty(_) => XmlKind::Empty,
        Event::End(_) => XmlKind::End,
        Event::Text(_) => XmlKind::Text,
        Event::CData(_) => XmlKind::CData,
        Event::Comment(_) => XmlKind::Comment,
        Event::Decl(_) => XmlKind::Decl,
        Event::PI(_) => XmlKind::PI,
        Event::DocType(_) => XmlKind::DocType,
        Event::Eof => XmlKind::Eof,
    }
}

/// `BytesStart::name` or `BytesEnd::name`; empty for an event that is no tag.
#[verifier::external_body]
fn event_name(event: &Event<'static>) -> (r: Vec<u8>)
    ensures
        r@ == event_token(*event).name,
{
    match event {
        Event::Start(e) => e.name().as_ref().to_vec(),
        Event::Empty(e) => e.name().as_ref().to_vec(),
        Event::End(e) => e.name().as_ref().to_vec(),
        _ => Vec::new(),
    }
}

/// `BytesStart::attributes`, each item as its key and its raw value or, where it
/// is an error, as `None`; none for an event that is no start or empty tag.
#[verifier::external_body]
fn event_attributes(event: &Event<'static>) -> (r: Vec<Option<(Vec<u8>, Vec<u8>)>>)
    ensures
        attribute_views(r@) == event_token(*event).attributes,
{
    let attributes = match event {
        Event::Start(e) => e.attributes(),
        Event::Empty(e) => e.attributes(),
        _ => return Vec::new(),
    };
    attributes.map(|a| a.ok().map(|a| (a.key.as_ref().to_vec(), a.value.into_owned()))).collect()
}

/// `content` between two delimiters.
pub open spec fn enclosed(before: Seq<char>, content: Seq<u8>, after: Seq<char>) -> Seq<u8> {
    utf8(before) + content + utf8(after)
}

/// An event as markup.
pub open spec fn markup(kind: XmlKind, content: Seq<u8>) -> Seq<u8> {
    match kind {
        XmlKind::Start => enclosed("<"@, content, ">"@),
        XmlKind::Empty => enclosed("<"@, content, "/>"@),
        XmlKind::End => enclosed("</"@, content, ">"@),
        XmlKind::Text => content,
        XmlKind::CData => enclosed("<![CDATA["@, content, "]]>"@),
        XmlKind::Comment => enclosed("<!--"@, content, "-->"@),
        XmlKind::Decl | XmlKind::PI => enclosed("<?"@, content, "?>"@),
        XmlKind::DocType => enclosed("<!DOCTYPE "@, content, ">"@),
        XmlKind::Eof => Seq::empty(),
    }
}

/// `Writer::write_event` into memory: it puts the content of the event between the
/// delimiters of its kind, and does not fail.
#[verifier::external_body]
fn reader_slice(event: &Event<'static>) -> (r: Result<Vec<u8>, String>)
    ensures
        r is Ok,
        r->Ok_0@ == markup(event_token(*event).kind, event_token(*event).content),
{
    let mut w = quick_xml::writer::Writer::new(std::io::Cursor::new(Vec::new()));
    w.write_event(event.clone()).map_err(|e| e.to_string())?;
    Ok(w.into_inner().into_inner())
}

// ---- events as plain values ----

/// An XML event: what it is, its name and attributes where it is a tag, and its
/// markup.
pub struct XmlEvent {
    pub kind: XmlKind,
    pub name: Vec<u8>,
    pub attributes: Vec<Option<(Vec<u8>, Vec<u8>)>>,
    pub raw: Vec<u8>,
}

/// What an [`XmlEvent`] says.
#[verifier::ext_equal]
pub struct XmlItem {
    pub kind: XmlKind,
    pub name: Seq<u8>,
    pub attributes: Seq<Option<(Seq<u8>, Seq<u8>)>>,
    pub raw: Seq<u8>,
}

/// What an attribute says.
pub open spec fn attribute_view(a: Option<(Vec<u8>, Vec<u8>)>) -> Option<(Seq<u8>, Seq<u8>)> {
    match a {
        Some((key, value)) => Some((key@, value@)),
        None => None,
    }
}

/// What a list of attributes says.
pub open spec fn attribute_views(a: Seq<Option<(Vec<u8>, Vec<u8>)>>) -> Seq<
    Option<(Seq<u8>, Seq<u8>)>,
> {
    a.map_values(|x: Option<(Vec<u8>, Vec<u8>)>| attribute_view(x))
}

impl View for XmlEvent {
    type V = XmlItem;

    open spec fn view(&self) -> XmlItem {
        XmlItem {
            kind: self.kind,
            name: self.name@,
            attributes: attribute_views(self.attributes@),
            raw: self.raw@,
        }
    }
}

/// What a list of events says.
pub open spec fn items(events: Seq<XmlEvent>) -> Seq<XmlItem> {
    events.map_values(|e: XmlEvent| e@)
}

/// What the tokenizer hands out, with the markup in place of the content.
pub open spec fn item_of(t: XmlToken) -> XmlItem {
    XmlItem {
        kind: t.kind,
        name: t.name,
        attributes: t.attributes,
        raw: markup(t.kind, t.content),
    }
}

/// The events of a document, up to its end or its first error.
pub open spec fn xml_items(xml: Seq<u8>, trim_text: bool) -> Seq<XmlItem> {
    xml_stream(xml, trim_text).tokens.map_values(|t: XmlToken| item_of(t))
}

/// The text of the error that ends the events of a document early.
pub open spec fn xml_error(xml: Seq<u8>, trim_text: bool) -> Option<Seq<char>> {
    xml_stream(xml, trim_text).error
}

/// The text of an optional string.
pub open spec fn text_in(s: Option<String>) -> Option<Seq<char>> {
    match s {
        Some(s) => Some(s@),
        None => None,
    }
}

/// The events of a document and the error that ended them early, if one did.
pub fn read_events(xml: &[u8], trim_text: bool) -> (r: (Vec<XmlEvent>, Option<String>))
    ensures
        items(r.0@) == xml_items(xml@, trim_text),
        text_in(r.1) == xml_error(xml@, trim_text),
        trim_text ==> reads_documents(xml@, xml_stream(xml@, trim_text)),
        reads_insets(xml@, trim_text, xml_stream(xml@, trim_text)),
        !trim_text ==> reads_markup(xml@, xml_stream(xml@, trim_text)),
        !trim_text ==> well_formed(xml_stream(xml@, trim_text).tokens),
{
    let mut events: Vec<XmlEvent> = Vec::new();
    let mut reader = open_reader(xml, trim_text);
    let ghost all = xml_stream(xml@, trim_text);
    assert(all.tokens.skip(0) == all.tokens);
    loop
        invariant
            all == xml_stream(xml@, trim_text),
            trim_text ==> reads_documents(xml@, xml_stream(xml@, trim_text)),
            reads_insets(xml@, trim_text, xml_stream(xml@, trim_text)),
            !trim_text ==> reads_markup(xml@, xml_stream(xml@, trim_text)),
            !trim_text ==> well_formed(xml_stream(xml@, trim_text).tokens),
            events@.len() <= all.tokens.len(),
            reader_stream(reader).tokens == all.tokens.skip(events@.len() as int),
            reader_stream(reader).error == all.error,
            items(events@) == xml_items(xml@, trim_text).take(events@.len() as int),
        decreases all.tokens.len() - events@.len(),
    {
        let ghost n = events@.len() as int;
        match read_event(&mut reader) {
            Err(m) => {
                assert(xml_items(xml@, trim_text).take(n) == xml_items(xml@, trim_text));
                return (events, Some(m));
            },
            Ok(event) => {
                let kind = event_kind(&event);
                if kind == XmlKind::Eof {
                    assert(n == all.tokens.len());
                    assert(xml_items(xml@, trim_text).take(n) == xml_items(xml@, trim_text));
                    return (events, None);
                }
                let name = event_name(&event);
                let attributes = event_attributes(&event);
                match reader_slice(&event) {
                    Ok(raw) => {
                        let ghost before = events@;
                        let e = XmlEvent { kind, name, attributes, raw };
                        events.push(e);
                        assert(all.tokens.skip(n).drop_first() == all.tokens.skip(n + 1));
                        assert(e@ == item_of(all.tokens[n]));
                        assert(items(events@) == items(before).push(e@));
                        assert(xml_items(xml@, trim_text).take(n + 1) == xml_items(
                            xml@,
                            trim_text,
                        ).take(n).push(item_of(all.tokens[n])));
                    },
                    Err(m) => {
                        return (events, Some(m));
                    },
                }
            },
        }
    }
}

/// The raw value of the first well-formed attribute with the given key.
pub open spec fn raw_attribute(
    attributes: Seq<Option<(Seq<u8>, Seq<u8>)>>,
    key: Seq<u8>,
) -> Option<Seq<u8>>
    decreases attributes.len(),
{
    if attributes.len() == 0 {
        None
    } else {
        match attributes[0] {
            Some((k, v)) if k == key => Some(v),
            _ => raw_attribute(attributes.drop_first(), key),
        }
    }
}

/// The value of the first well-formed attribute with the given key, as text.
pub open spec fn attribute_value(
    attributes: Seq<Option<(Seq<u8>, Seq<u8>)>>,
    key: Seq<u8>,
) -> Option<Seq<char>> {
    match raw_attribute(attributes, key) {
        Some(v) => Some(utf8_lossy(v)),
        None => None,
    }
}

/// Whether the value of an attribute is read as the text it is, should it be UTF-8.
pub open spec fn attribute_decoded(
    attributes: Seq<Option<(Seq<u8>, Seq<u8>)>>,
    key: Seq<u8>,
) -> bool {
    raw_attribute(attributes, key) matches Some(v) ==> vstd::utf8::valid_utf8(v) ==> utf8_lossy(v)
        == vstd::utf8::decode_utf8(v)
}

/// The value of an attribute of an event, as [`attribute_value`] says.
pub fn get_attr(e: &XmlEvent, key: &[u8]) -> (r: Option<String>)
    ensures
        text_in(r) == attribute_value(e@.attributes, key@),
        attribute_decoded(e@.attributes, key@),
{
    let ghost views = attribute_views(e.attributes@);
    let mut i: usize = 0;
    assert(views.skip(0) == views);
    while i < e.attributes.len()
        invariant
            i <= e.attributes@.len(),
            views == attribute_views(e.attributes@),
            raw_attribute(views, key@) == raw_attribute(views.skip(i as int), key@),
        decreases e.attributes@.len() - i,
    {
        assert(views.skip(i as int)[0] == attribute_view(e.attributes@[i as int]));
        assert(views.skip(i as int).drop_first() == views.skip(i + 1));
        match &e.attributes[i] {
            Some((k, v)) => {
                if same_bytes(k.as_slice(), key) {
                    return Some(from_utf8_lossy(v.as_slice()));
                }
            },
            None => {},
        }
        i = i + 1;
    }
    None
}

/// Whether the attribute at `j` has the given key and is the first one that has.
pub open spec fn first_with_key(
    attributes: Seq<Option<(Seq<u8>, Seq<u8>)>>,
    key: Seq<u8>,
    j: int,
) -> bool {
    &&& 0 <= j < attributes.len()
    &&& attributes[j] is Some
    &&& (attributes[j]->0).0 == key
    &&& forall|i: int|
        0 <= i < j && (#[trigger] attributes[i]) is Some ==> (attributes[i]->0).0 != key
}

/// Whether no attribute has the given key.
pub open spec fn without_key(attributes: Seq<Option<(Seq<u8>, Seq<u8>)>>, key: Seq<u8>) -> bool {
    forall|i: int|
        0 <= i < attributes.len() && (#[trigger] attributes[i]) is Some ==> (attributes[i]->0).0
            != key
}

/// An attribute is found under its key wherever it stands and whatever stands beside it:
/// the first one with the key counts, and malformed ones do not.
pub proof fn law_first_attribute_is_read(
    attributes: Seq<Option<(Seq<u8>, Seq<u8>)>>,
    key: Seq<u8>,
)
    ensures
        forall|j: int|
            #[trigger] first_with_key(attributes, key, j) ==> raw_attribute(attributes, key)
                == Some((attributes[j]->0).1),
        without_key(attributes, key) <==> raw_attribute(attributes, key) is None,
        !without_key(attributes, key) ==> exists|j: int| first_with_key(attributes, key, j),
    decreases attributes.len(),
{
    if attributes.len() > 0 {
        let rest = attributes.drop_first();
        law_first_attribute_is_read(rest, key);
        if attributes[0] is Some && (attributes[0]->0).0 == key {
            assert(first_with_key(attributes, key, 0));
        } else {
            assert forall|j: int| #[trigger] first_with_key(attributes, key, j) implies raw_attribute(
                attributes,
                key,
            ) == Some((attributes[j]->0).1) by {
                assert forall|i: int| 0 <= i < j - 1 && (#[trigger] rest[i]) is Some implies (
                rest[i]->0).0 != key by {
                    assert(rest[i] == attributes[i + 1]);
                }
                assert(first_with_key(rest, key, j - 1));
            }
            if without_key(attributes, key) {
                assert forall|i: int| 0 <= i < rest.len() && (#[trigger] rest[i]) is Some implies (
                rest[i]->0).0 != key by {
                    assert(rest[i] == attributes[i + 1]);
                }
            }
            if without_key(rest, key) {
                assert forall|i: int|
                    0 <= i < attributes.len() && (#[trigger] attributes[i]) is Some implies (
                attributes[i]->0).0 != key by {
                    if i > 0 {
                        assert(rest[i - 1] == attributes[i]);
                    }
                }
            } else {
                let j = choose|j: int| first_with_key(rest, key, j);
                assert forall|i: int|
                    0 <= i < j + 1 && (#[trigger] attributes[i]) is Some implies (
                attributes[i]->0).0 != key by {
                    if i > 0 {
                        assert(rest[i - 1] == attributes[i]);
                    }
                }
                assert(first_with_key(attributes, key, j + 1));
            }
        }
    }
}

/// The value of an attribute that is UTF-8 is read as the text it is.
pub proof fn law_attribute_text_is_read(
    attributes: Seq<Option<(Seq<u8>, Seq<u8>)>>,
    key: Seq<u8>,
    j: int,
    value: Seq<char>,
)
    requires
        attribute_decoded(attributes, key),
        first_with_key(attributes, key, j),
        (attributes[j]->0).1 == utf8(value),
    ensures
        attribute_value(attributes, key) == Some(value),
{
    law_first_attribute_is_read(attributes, key);
    vstd::utf8::encode_utf8_valid_utf8(value);
    vstd::utf8::encode_utf8_decode_utf8(value);
}

/// Appends an attribute to a tag.
pub fn append_attribute(s: &mut String, key: &str, value: &str)
    ensures
        final(s)@ == old(s)@ + attribute_text(key@, value@),
{
    let ghost before = s@;
    s.append(" ");
    s.append(key);
    s.append("=\"");
    s.append(value);
    s.append("\"");
    assert(s@ =~= before + attribute_text(key@, value@));
}

// ---- escaping ----

/// A character as it is written in XML text, or in an attribute in double quotes.
pub open spec fn escaped_char(c: char, in_attribute: bool) -> Seq<char> {
    if c == '&' {
        "&amp;"@
    } else if c == '<' {
        "&lt;"@
    } else if c == '>' {
        "&gt;"@
    } else if c == '"' && in_attribute {
        "&quot;"@
    } else {
        seq![c]
    }
}

/// A text as it is written in XML.
pub open spec fn escaped(s: Seq<char>, in_attribute: bool) -> Seq<char>
    decreases s.len(),
{
    if s.len() == 0 {
        Seq::empty()
    } else {
        escaped(s.drop_last(), in_attribute) + escaped_char(s.last(), in_attribute)
    }
}

fn escape(s: &[char], in_attribute: bool) -> (r: Vec<char>)
    ensures
        r@ == escaped(s@, in_attribute),
{
    let mut out: Vec<char> = Vec::new();
    let mut i: usize = 0;
    while i < s.len()
        invariant
            i <= s@.len(),
            out@ == escaped(s@.take(i as int), in_attribute),
        decreases s@.len() - i,
    {
        let c = s[i];
        assert(s@.take(i + 1).drop_last() == s@.take(i as int));
        if c == '&' {
            extend_chars(&mut out, chars_of("&amp;").as_slice());
        } else if c == '<' {
            extend_chars(&mut out, chars_of("&lt;").as_slice());
        } else if c == '>' {
            extend_chars(&mut out, chars_of("&gt;").as_slice());
        } else if c == '"' && in_attribute {
            extend_chars(&mut out, chars_of("&quot;").as_slice());
        } else {
            let ghost before = out@;
            out.push(c);
            assert(out@ == before + seq![c]);
        }
        i = i + 1;
    }
    assert(s@.take(i as int) == s@);
    out
}

/// A text escaped for use between tags.
pub fn xml_escape_text(s: &str) -> (r: String)
    ensures
        r@ == escaped(s@, false),
{
    text_of(escape(chars_of(s).as_slice(), false).as_slice())
}

/// A text escaped for use in an attribute in double quotes.
pub fn xml_escape_attr(s: &str) -> (r: String)
    ensures
        r@ == escaped(s@, true),
{
    text_of(escape(chars_of(s).as_slice(), true).as_slice())
}

/// `s` with the four named entities that [`escaped`] uses turned back into the
/// characters they stand for.
pub open spec fn unescaped(s: Seq<char>) -> Seq<char>
    decreases s.len(),
{
    if s.len() == 0 {
        Seq::empty()
    } else if s.len() >= 5 && has_prefix(s, "&amp;"@) {
        seq!['&'] + unescaped(s.skip(5))
    } else if s.len() >= 4 && has_prefix(s, "&lt;"@) {
        seq!['<'] + unescaped(s.skip(4))
    } else if s.len() >= 4 && has_prefix(s, "&gt;"@) {
        seq!['>'] + unescaped(s.skip(4))
    } else if s.len() >= 6 && has_prefix(s, "&quot;"@) {
        seq!['"'] + unescaped(s.skip(6))
    } else {
        seq![s[0]] + unescaped(s.drop_first())
    }
}

proof fn lemma_escaped_front(s: Seq<char>, in_attribute: bool)
    requires
        s.len() > 0,
    ensures
        escaped(s, in_attribute) == escaped_char(s[0], in_attribute) + escaped(
            s.drop_first(),
            in_attribute,
        ),
    decreases s.len(),
{
    if s.len() == 1 {
        assert(s.drop_last() =~= Seq::<char>::empty());
        assert(s.drop_first() =~= Seq::<char>::empty());
        assert(escaped(s.drop_last(), in_attribute) == Seq::<char>::empty());
        assert(escaped(s.drop_first(), in_attribute) == Seq::<char>::empty());
        assert(escaped(s, in_attribute) =~= escaped_char(s[0], in_attribute));
        assert(escaped(s, in_attribute) =~= escaped_char(s[0], in_attribute) + escaped(
            s.drop_first(),
            in_attribute,
        ));
    } else {
        lemma_escaped_front(s.drop_last(), in_attribute);
        assert(s.drop_last().drop_first() == s.drop_first().drop_last());
        assert(escaped(s, in_attribute) =~= escaped_char(s[0], in_attribute) + escaped(
            s.drop_first(),
            in_attribute,
        ));
    }
}

proof fn lemma_entities()
    ensures
        "&amp;"@ == seq!['&', 'a', 'm', 'p', ';'],
        "&lt;"@ == seq!['&', 'l', 't', ';'],
        "&gt;"@ == seq!['&', 'g', 't', ';'],
        "&quot;"@ == seq!['&', 'q', 'u', 'o', 't', ';'],
{
    reveal_strlit("&amp;");
    reveal_strlit("&lt;");
    reveal_strlit("&gt;");
    reveal_strlit("&quot;");
    assert("&amp;"@ =~= seq!['&', 'a', 'm', 'p', ';']);
    assert("&lt;"@ =~= seq!['&', 'l', 't', ';']);
    assert("&gt;"@ =~= seq!['&', 'g', 't', ';']);
    assert("&quot;"@ =~= seq!['&', 'q', 'u', 'o', 't', ';']);
}

/// An escaped text unescapes to the text.
pub proof fn law_escaped_reads_back(s: Seq<char>, in_attribute: bool)
    ensures
        unescaped(escaped(s, in_attribute)) == s,
    decreases s.len(),
{
    if s.len() > 0 {
        lemma_escaped_front(s, in_attribute);
        lemma_entities();
        law_escaped_reads_back(s.drop_first(), in_attribute);
        let e = escaped_char(s[0], in_attribute);
        let rest = escaped(s.drop_first(), in_attribute);
        let whole = e + rest;
        assert(whole.skip(e.len() as int) == rest);
        assert(whole.take(e.len() as int) == e);
        assert(whole[0] == e[0]);
        assert(seq![s[0]] + s.drop_first() == s);
        if s[0] == '&' {
        } else if s[0] == '<' {
            assert(whole[1] == 'l');
            assert(whole.len() >= 5 ==> whole.take(5)[1] == whole[1]);
        } else if s[0] == '>' {
            assert(whole[1] == 'g');
            assert(whole.len() >= 5 ==> whole.take(5)[1] == whole[1]);
            assert(whole.take(4)[1] == whole[1]);
        } else if s[0] == '"' && in_attribute {
            assert(whole[1] == 'q');
            assert(whole.len() >= 5 ==> whole.take(5)[1] == whole[1]);
            assert(whole.take(4)[1] == whole[1]);
        } else {
            assert(whole.drop_first() == rest);
            assert(whole.len() >= 4 ==> whole.take(4)[0] == whole[0]);
            assert(whole.len() >= 5 ==> whole.take(5)[0] == whole[0]);
            assert(whole.len() >= 6 ==> whole.take(6)[0] == whole[0]);
        }
    }
}

/// An escaped text holds no `<` and no `>`, and in an attribute no `"`, so it can
/// neither open a tag nor end the attribute.
pub proof fn law_escaped_holds_no_markup(s: Seq<char>, in_attribute: bool)
    ensures
        !escaped(s, in_attribute).contains('<'),
        !escaped(s, in_attribute).contains('>'),
        in_attribute ==> !escaped(s, in_attribute).contains('"'),
    decreases s.len(),
{
    if s.len() > 0 {
        law_escaped_holds_no_markup(s.drop_last(), in_attribute);
        lemma_entities();
        let init = escaped(s.drop_last(), in_attribute);
        let e = escaped_char(s.last(), in_attribute);
        assert forall|i: int| 0 <= i < (init + e).len() implies (init + e)[i] != '<' && (init + e)[i]
            != '>' && (in_attribute ==> (init + e)[i] != '"') by {
            if i < init.len() {
                assert((init + e)[i] == init[i]);
                assert(init.contains(init[i]));
            } else {
                assert((init + e)[i] == e[i - init.len()]);
            }
        }
    }
}

/// A character that is written as itself, and does not end an entity.
pub open spec fn unescaped_char(c: char) -> bool {
    c != '&' && c != '<' && c != '>' && c != '"' && c != ';'
}

/// A text without special characters is written as it is.
pub proof fn lemma_escaped_plain(s: Seq<char>, in_attribute: bool)
    requires
        forall|i: int| 0 <= i < s.len() ==> unescaped_char(#[trigger] s[i]),
    ensures
        escaped(s, in_attribute) == s,
    decreases s.len(),
{
    if s.len() > 0 {
        let init = s.drop_last();
        assert forall|i: int| 0 <= i < init.len() implies unescaped_char(#[trigger] init[i]) by {
            assert(init[i] == s[i]);
        }
        lemma_escaped_plain(init, in_attribute);
        assert(unescaped_char(s[s.len() - 1]));
        assert(init + seq![s.last()] =~= s);
    }
}

/// Whether a text holds no character that is escaped in an attribute.
pub open spec fn plain_text(s: Seq<char>) -> bool {
    forall|i: int|
        0 <= i < s.len() ==> (#[trigger] s[i]) != '&' && s[i] != '<' && s[i] != '>' && s[i] != '"'
}

/// Such a text is written as it is.
pub proof fn lemma_plain_text(s: Seq<char>, in_attribute: bool)
    requires
        plain_text(s),
    ensures
        escaped(s, in_attribute) == s,
    decreases s.len(),
{
    if s.len() > 0 {
        let init = s.drop_last();
        assert forall|i: int| 0 <= i < init.len() implies (#[trigger] init[i]) != '&' && init[i]
            != '<' && init[i] != '>' && init[i] != '"' by {
            assert(init[i] == s[i]);
        }
        lemma_plain_text(init, in_attribute);
        assert(s[s.len() - 1] == s.last());
        assert(init + seq![s.last()] =~= s);
    }
}

/// An escaped text that ends in something plain comes from a text that does.
pub proof fn lemma_escaped_suffix(s: Seq<char>, in_attribute: bool, suffix: Seq<char>)
    requires
        forall|i: int| 0 <= i < suffix.len() ==> unescaped_char(#[trigger] suffix[i]),
        has_suffix(escaped(s, in_attribute), suffix),
    ensures
        has_suffix(s, suffix),
    decreases suffix.len(),
{
    if suffix.len() == 0 {
        assert(s.skip(s.len() as int) =~= suffix);
    } else {
        let e = escaped(s, in_attribute);
        let c = suffix.last();
        assert(unescaped_char(suffix[suffix.len() - 1]));
        assert(e.skip(e.len() - suffix.len())[suffix.len() - 1] == e.last());
        assert(e.last() == c);
        assert(s.len() > 0);
        let init = s.drop_last();
        lemma_entities();
        let t = escaped_char(s.last(), in_attribute);
        assert(e.last() == t.last());
        assert(t == seq![s.last()]);
        assert(s.last() == c);
        let ei = escaped(init, in_attribute);
        assert(e =~= ei.push(c));
        let short = suffix.drop_last();
        assert(ei.skip(ei.len() - short.len()) =~= short) by {
            assert forall|k: int| 0 <= k < short.len() implies ei.skip(ei.len() - short.len())[k]
                == short[k] by {
                assert(e.skip(e.len() - suffix.len())[k] == suffix[k]);
            }
        }
        assert forall|i: int| 0 <= i < short.len() implies unescaped_char(#[trigger] short[i]) by {
            assert(short[i] == suffix[i]);
        }
        lemma_escaped_suffix(init, in_attribute, short);
        assert(s.skip(s.len() - suffix.len()) =~= suffix) by {
            assert forall|k: int| 0 <= k < suffix.len() implies s.skip(s.len() - suffix.len())[k]
                == suffix[k] by {
                if k < short.len() {
                    assert(init.skip(init.len() - short.len())[k] == short[k]);
                }
            }
        }
    }
}

proof fn lemma_escaped_concat(a: Seq<char>, b: Seq<char>, in_attribute: bool)
    ensures
        escaped(a + b, in_attribute) == escaped(a, in_attribute) + escaped(b, in_attribute),
    decreases b.len(),
{
    if b.len() == 0 {
        assert(a + b =~= a);
        assert(escaped(a, in_attribute) + escaped(b, in_attribute) =~= escaped(a, in_attribute));
    } else {
        lemma_escaped_concat(a, b.drop_last(), in_attribute);
        assert((a + b).drop_last() =~= a + b.drop_last());
        assert((a + b).last() == b.last());
        assert(escaped(a + b, in_attribute) =~= escaped(a, in_attribute) + escaped(b, in_attribute));
    }
}

/// Each character is escaped by itself, wherever it stands in a text: the ampersand and the
/// angle brackets always, the double quote in an attribute, and no other.
pub proof fn law_each_character_is_escaped_by_itself(
    a: Seq<char>,
    c: char,
    b: Seq<char>,
    in_attribute: bool,
)
    ensures
        escaped(a + seq![c] + b, in_attribute) == escaped(a, in_attribute) + (match c {
            '&' => "&amp;"@,
            '<' => "&lt;"@,
            '>' => "&gt;"@,
            '"' => if in_attribute {
                "&quot;"@
            } else {
                seq!['"']
            },
            _ => seq![c],
        }) + escaped(b, in_attribute),
{
    lemma_escaped_concat(a + seq![c], b, in_attribute);
    lemma_escaped_concat(a, seq![c], in_attribute);
    assert(seq![c].drop_last() =~= Seq::<char>::empty());
    assert(escaped(seq![c].drop_last(), in_attribute) == Seq::<char>::empty());
    assert(escaped(seq![c], in_attribute) =~= escaped_char(c, in_attribute));
}

} // verus!
