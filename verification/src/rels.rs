//! Relationship parts: what a part of the package refers to, under which id.

use crate::numbering::{first_free, free_number, numbered};
use crate::text::{
    chars_of, decimal, decimal_text, ends_with, extend_chars, has_prefix, has_suffix,
    join_with_char, joined, law_joined_pieces_split_again, lemma_utf8_injective, number_u32,
    parse_u32, same_bytes, same_chars, split, split_at_char, starts_with, text_of, texts, utf8,
    utf8_bytes,
};
use crate::xml::{
    append_attribute, attribute_decoded, attribute_text, attribute_value, document, document_end,
    document_start, document_stream, empty_tags, escaped, first_with_key, get_attr, item_of, items,
    law_attribute_text_is_read, law_escaped_holds_no_markup, law_escaped_reads_back,
    law_first_attribute_is_read, lemma_escaped_suffix, lemma_plain_text, plain_tag, plain_text,
    raw_attribute, read_events, reads_documents, tag_text, tag_token, unescaped, unescaped_char,
    without_key, xml_escape_attr, xml_items, xml_stream, XmlEvent, XmlItem, XmlKind, XmlTag,
    DECLARATION,
};
use vstd::prelude::*;
use vstd::slice::slice_subrange;
use vstd::string::StringExecFns;

verus! {

/// A relationship: its id, its type and what it points to.
pub struct Relationship {
    pub id: String,
    pub ty: String,
    pub target: String,
}

/// What a [`Relationship`] says.
#[verifier::ext_equal]
pub struct Rel {
    pub id: Seq<char>,
    pub ty: Seq<char>,
    pub target: Seq<char>,
}

impl View for Relationship {
    type V = Rel;

    open spec fn view(&self) -> Rel {
        Rel { id: self.id@, ty: self.ty@, target: self.target@ }
    }
}

/// Relationships in the order in which their ids were first put in.
pub struct RelMap {
    entries: Vec<Relationship>,
}

impl View for RelMap {
    type V = Seq<Rel>;

    closed spec fn view(&self) -> Seq<Rel> {
        self.entries@.map_values(|r: Relationship| r@)
    }
}

/// No id occurs twice.
pub open spec fn distinct_ids(rels: Seq<Rel>) -> bool {
    forall|i: int, j: int|
        0 <= i < j < rels.len() ==> (#[trigger] rels[i]).id != (#[trigger] rels[j]).id
}

pub open spec fn has_id(rels: Seq<Rel>, id: Seq<char>) -> bool {
    exists|i: int| 0 <= i < rels.len() && (#[trigger] rels[i]).id == id
}

/// `rels` with `r` in the place of what had its id, or else at the end.
pub open spec fn put_rel(rels: Seq<Rel>, r: Rel) -> Seq<Rel> {
    if has_id(rels, r.id) {
        rels.map_values(
            |x: Rel|
                if x.id == r.id {
                    r
                } else {
                    x
                },
        )
    } else {
        rels.push(r)
    }
}

/// The relationship with the given id.
pub open spec fn find_rel(rels: Seq<Rel>, id: Seq<char>) -> Option<Rel>
    decreases rels.len(),
{
    if rels.len() == 0 {
        None
    } else if rels[0].id == id {
        Some(rels[0])
    } else {
        find_rel(rels.drop_first(), id)
    }
}

/// The first relationship whose type ends in `suffix`.
pub open spec fn find_type(rels: Seq<Rel>, suffix: Seq<char>) -> Option<Rel>
    decreases rels.len(),
{
    if rels.len() == 0 {
        None
    } else if has_suffix(rels[0].ty, suffix) {
        Some(rels[0])
    } else {
        find_type(rels.drop_first(), suffix)
    }
}

impl RelMap {
    /// No id occurs twice.
    pub open spec fn wf(&self) -> bool {
        distinct_ids(self@)
    }

    pub fn new() -> (r: RelMap)
        ensures
            r@ == Seq::<Rel>::empty(),
            r.wf(),
    {
        let r = RelMap { entries: Vec::new() };
        assert(r@ =~= Seq::<Rel>::empty());
        r
    }

    pub fn len(&self) -> (r: usize)
        ensures
            r == self@.len(),
    {
        self.entries.len()
    }

    /// The relationship at a position.
    pub fn at(&self, i: usize) -> (r: &Relationship)
        requires
            i < self@.len(),
        ensures
            r@ == self@[i as int],
    {
        &self.entries[i]
    }

    fn position(&self, id: &str) -> (r: Option<usize>)
        ensures
            match r {
                Some(i) => i < self@.len() && self@[i as int].id == id@ && forall|k: int|
                    0 <= k < i ==> (#[trigger] self@[k]).id != id@,
                None => !has_id(self@, id@),
            },
    {
        let id_chars = chars_of(id);
        let mut i: usize = 0;
        while i < self.entries.len()
            invariant
                i <= self.entries@.len(),
                id_chars@ == id@,
                forall|k: int| 0 <= k < i ==> (#[trigger] self@[k]).id != id@,
            decreases self.entries@.len() - i,
        {
            assert(self@[i as int] == self.entries@[i as int]@);
            if same_chars(chars_of(self.entries[i].id.as_str()).as_slice(), id_chars.as_slice()) {
                return Some(i);
            }
            i = i + 1;
        }
        None
    }

    pub fn contains_id(&self, id: &str) -> (r: bool)
        ensures
            r == has_id(self@, id@),
    {
        match self.position(id) {
            Some(_) => true,
            None => false,
        }
    }

    /// What the id points to.
    pub fn target(&self, id: &str) -> (r: Option<String>)
        ensures
            match r {
                Some(t) => find_rel(self@, id@) matches Some(rel) && rel.target == t@,
                None => find_rel(self@, id@) is None,
            },
    {
        match self.position(id) {
            Some(i) => {
                proof {
                    lemma_find_at(self@, id@, i as int);
                }
                Some(self.entries[i].target.clone())
            },
            None => {
                proof {
                    lemma_find_none(self@, id@);
                }
                None
            },
        }
    }

    /// What the first relationship whose type ends in `suffix` points to.
    pub fn target_of_type(&self, suffix: &str) -> (r: Option<String>)
        ensures
            match r {
                Some(t) => find_type(self@, suffix@) matches Some(rel) && rel.target == t@,
                None => find_type(self@, suffix@) is None,
            },
    {
        let suffix_chars = chars_of(suffix);
        let mut i: usize = 0;
        assert(self@.skip(0) == self@);
        while i < self.entries.len()
            invariant
                i <= self.entries@.len(),
                suffix_chars@ == suffix@,
                find_type(self@, suffix@) == find_type(self@.skip(i as int), suffix@),
            decreases self.entries@.len() - i,
        {
            assert(self@.skip(i as int)[0] == self.entries@[i as int]@);
            assert(self@.skip(i as int).drop_first() == self@.skip(i + 1));
            if ends_with(
                chars_of(self.entries[i].ty.as_str()).as_slice(),
                suffix_chars.as_slice(),
            ) {
                return Some(self.entries[i].target.clone());
            }
            i = i + 1;
        }
        None
    }

    /// Puts a relationship in, replacing the one with its id if there is one.
    pub fn insert(&mut self, r: Relationship)
        requires
            old(self).wf(),
        ensures
            final(self)@ == put_rel(old(self)@, r@),
            final(self).wf(),
    {
        let ghost before = self@;
        match self.position(r.id.as_str()) {
            Some(i) => {
                assert(has_id(before, r@.id));
                assert(before[i as int].id == r@.id);
                self.entries.set(i, r);
                assert(self@ =~= before.update(i as int, r@));
                assert(self@ =~= put_rel(before, r@));
            },
            None => {
                self.entries.push(r);
                assert(self@ =~= before.push(r@));
            },
        }
    }
}

proof fn lemma_find_at(rels: Seq<Rel>, id: Seq<char>, i: int)
    requires
        0 <= i < rels.len(),
        rels[i].id == id,
        forall|k: int| 0 <= k < i ==> (#[trigger] rels[k]).id != id,
    ensures
        find_rel(rels, id) == Some(rels[i]),
    decreases rels.len(),
{
    if i > 0 {
        let rest = rels.drop_first();
        assert(rels[0].id != id);
        assert forall|k: int| 0 <= k < i - 1 implies (#[trigger] rest[k]).id != id by {
            assert(rest[k] == rels[k + 1]);
        }
        lemma_find_at(rest, id, i - 1);
    }
}

proof fn lemma_find_none(rels: Seq<Rel>, id: Seq<char>)
    requires
        !has_id(rels, id),
    ensures
        find_rel(rels, id) is None,
    decreases rels.len(),
{
    if rels.len() > 0 {
        let rest = rels.drop_first();
        assert(rels[0].id != id);
        assert forall|k: int| 0 <= k < rest.len() implies (#[trigger] rest[k]).id != id by {
            assert(rest[k] == rels[k + 1]);
        }
        lemma_find_none(rest, id);
    }
}

// ---- reading ----

/// The relationship that an event holds: a tag `Relationship` with an id, a type
/// and a target.
pub open spec fn rel_in(e: XmlItem) -> Option<Rel> {
    if (e.kind == XmlKind::Start || e.kind == XmlKind::Empty) && e.name == utf8("Relationship"@) {
        match (
            attribute_value(e.attributes, utf8("Id"@)),
            attribute_value(e.attributes, utf8("Type"@)),
            attribute_value(e.attributes, utf8("Target"@)),
        ) {
            (Some(id), Some(ty), Some(target)) => Some(Rel { id, ty, target }),
            _ => None,
        }
    } else {
        None
    }
}

/// The relationships in a list of events. Of two with one id, the later one holds.
pub open spec fn rels_in(events: Seq<XmlItem>) -> Seq<Rel>
    decreases events.len(),
{
    if events.len() == 0 {
        Seq::empty()
    } else {
        let before = rels_in(events.drop_last());
        match rel_in(events.last()) {
            Some(r) => put_rel(before, r),
            None => before,
        }
    }
}

/// The relationships in a relationship part.
pub open spec fn rels_of(xml: Seq<u8>) -> Seq<Rel> {
    rels_in(xml_items(xml, true))
}

/// Whether what a relationship says in UTF-8 is read as the text it is.
pub open spec fn rel_decoded(e: XmlItem) -> bool {
    (e.kind == XmlKind::Start || e.kind == XmlKind::Empty) && e.name == utf8("Relationship"@) ==> {
        &&& attribute_decoded(e.attributes, utf8("Id"@))
        &&& attribute_decoded(e.attributes, utf8("Type"@))
        &&& attribute_decoded(e.attributes, utf8("Target"@))
    }
}

fn relationship_in(e: &XmlEvent) -> (r: Option<Relationship>)
    ensures
        match r {
            Some(x) => rel_in(e@) == Some(x@),
            None => rel_in(e@) is None,
        },
        rel_decoded(e@),
{
    if e.kind != XmlKind::Start && e.kind != XmlKind::Empty {
        return None;
    }
    if !same_bytes(e.name.as_slice(), "Relationship".as_bytes()) {
        return None;
    }
    let id = get_attr(e, "Id".as_bytes());
    let ty = get_attr(e, "Type".as_bytes());
    let target = get_attr(e, "Target".as_bytes());
    match (id, ty, target) {
        (Some(id), Some(ty), Some(target)) => Some(Relationship { id, ty, target }),
        _ => None,
    }
}

/// The relationships in a list of events, as [`rels_in`] says.
pub fn collect_rels(events: &Vec<XmlEvent>) -> (r: RelMap)
    ensures
        r@ == rels_in(items(events@)),
        r.wf(),
        forall|k: int| 0 <= k < events@.len() ==> rel_decoded(#[trigger] items(events@)[k]),
{
    let mut map = RelMap::new();
    let mut i: usize = 0;
    while i < events.len()
        invariant
            i <= events@.len(),
            map@ == rels_in(items(events@).take(i as int)),
            map.wf(),
            forall|k: int| 0 <= k < i ==> rel_decoded(#[trigger] items(events@)[k]),
        decreases events@.len() - i,
    {
        assert(items(events@).take(i + 1).drop_last() == items(events@).take(i as int));
        assert(items(events@).take(i + 1).last() == events@[i as int]@);
        match relationship_in(&events[i]) {
            Some(r) => {
                map.insert(r);
            },
            None => {},
        }
        i = i + 1;
    }
    assert(items(events@).take(i as int) == items(events@));
    map
}

/// A relationship as it is written and read: with its texts escaped.
pub open spec fn written_rel(r: Rel) -> Rel {
    Rel { id: escaped(r.id, true), ty: escaped(r.ty, true), target: escaped(r.target, true) }
}

/// What a relationship part made of the given relationships says: the same ones, by id
/// number, with their texts escaped.
pub open spec fn written_rels(rels: Seq<Rel>) -> Seq<Rel> {
    sorted_rels(rels).map_values(|r: Rel| written_rel(r))
}

/// Whether `read` is right for `xml`, should that be a part with written relationships.
pub open spec fn reads_written_rels(xml: Seq<u8>, read: Seq<Rel>) -> bool {
    forall|rels: Seq<Rel>|
        distinct_ids(rels) && xml == utf8(#[trigger] rels_xml(rels)) ==> read == written_rels(rels)
}

/// The relationships in a relationship part, as far as it can be read.
pub fn get_rels_map(xml: &[u8]) -> (r: RelMap)
    ensures
        r@ == rels_of(xml@),
        r.wf(),
        reads_written_rels(xml@, r@),
        forall|k: int|
            0 <= k < xml_items(xml@, true).len() ==> rel_decoded(
                #[trigger] xml_items(xml@, true)[k],
            ),
{
    let (events, _) = read_events(xml, true);
    let map = collect_rels(&events);
    proof {
        assert forall|rels: Seq<Rel>|
            distinct_ids(rels) && xml@ == utf8(#[trigger] rels_xml(rels)) implies map@
            == written_rels(rels) by {
            lemma_reads_written_rels(xml@, rels);
        }
    }
    map
}

proof fn lemma_rel_names()
    ensures
        plain_tag(rels_root()),
        forall|r: Rel| plain_tag(#[trigger] rel_tag(r)),
        utf8("Relationships"@) != utf8("Relationship"@),
        utf8("Id"@) != utf8("Type"@),
        utf8("Id"@) != utf8("Target"@),
        utf8("Type"@) != utf8("Target"@),
{
    reveal_strlit("Relationships");
    reveal_strlit("Relationship");
    reveal_strlit("xmlns");
    reveal_strlit("Id");
    reveal_strlit("Type");
    reveal_strlit("Target");
    reveal_strlit("http://schemas.openxmlformats.org/package/2006/relationships");
    if utf8("Relationships"@) == utf8("Relationship"@) {
        lemma_utf8_injective("Relationships"@, "Relationship"@);
    }
    if utf8("Id"@) == utf8("Type"@) {
        lemma_utf8_injective("Id"@, "Type"@);
    }
    if utf8("Id"@) == utf8("Target"@) {
        lemma_utf8_injective("Id"@, "Target"@);
    }
    if utf8("Type"@) == utf8("Target"@) {
        lemma_utf8_injective("Type"@, "Target"@);
    }
    assert("Id"@.len() == 2 && "Type"@.len() == 4 && "Target"@.len() == 6);
    assert forall|r: Rel| plain_tag(#[trigger] rel_tag(r)) by {
        law_escaped_holds_no_markup(r.id, true);
        law_escaped_holds_no_markup(r.ty, true);
        law_escaped_holds_no_markup(r.target, true);
    }
}

proof fn lemma_has_id_push(rels: Seq<Rel>, r: Rel, id: Seq<char>)
    ensures
        has_id(rels.push(r), id) == (has_id(rels, id) || r.id == id),
{
    let all = rels.push(r);
    if has_id(rels, id) {
        let i = choose|i: int| 0 <= i < rels.len() && (#[trigger] rels[i]).id == id;
        assert(all[i].id == id);
    }
    if r.id == id {
        assert(all[rels.len() as int].id == id);
    }
    if has_id(all, id) {
        let i = choose|i: int| 0 <= i < all.len() && (#[trigger] all[i]).id == id;
        if i < rels.len() {
            assert(rels[i].id == id);
        }
    }
}

proof fn lemma_insert_ids(sorted: Seq<Rel>, r: Rel, id: Seq<char>)
    ensures
        has_id(insert_sorted(sorted, r), id) == (has_id(sorted, id) || r.id == id),
    decreases sorted.len(),
{
    if sorted.len() == 0 || id_number(sorted.last().id) <= id_number(r.id) {
        lemma_has_id_push(sorted, r, id);
    } else {
        lemma_insert_ids(sorted.drop_last(), r, id);
        lemma_has_id_push(insert_sorted(sorted.drop_last(), r), sorted.last(), id);
        lemma_has_id_push(sorted.drop_last(), sorted.last(), id);
        assert(sorted.drop_last().push(sorted.last()) == sorted);
    }
}

proof fn lemma_distinct_push(rels: Seq<Rel>, r: Rel)
    requires
        distinct_ids(rels),
        !has_id(rels, r.id),
    ensures
        distinct_ids(rels.push(r)),
{
    let all = rels.push(r);
    assert forall|i: int, j: int| 0 <= i < j < all.len() implies (#[trigger] all[i]).id != (
    #[trigger] all[j]).id by {
        assert(all[i] == rels[i]);
        if j < rels.len() {
            assert(all[j] == rels[j]);
        }
    }
}

proof fn lemma_distinct_init(rels: Seq<Rel>)
    requires
        distinct_ids(rels),
        rels.len() > 0,
    ensures
        distinct_ids(rels.drop_last()),
        !has_id(rels.drop_last(), rels.last().id),
{
    let init = rels.drop_last();
    assert forall|i: int, j: int| 0 <= i < j < init.len() implies (#[trigger] init[i]).id != (
    #[trigger] init[j]).id by {
        assert(init[i] == rels[i] && init[j] == rels[j]);
    }
    if has_id(init, rels.last().id) {
        let i = choose|i: int| 0 <= i < init.len() && (#[trigger] init[i]).id == rels.last().id;
        assert(rels[i].id == rels[rels.len() - 1].id);
    }
}

proof fn lemma_insert_distinct(sorted: Seq<Rel>, r: Rel)
    requires
        distinct_ids(sorted),
        !has_id(sorted, r.id),
    ensures
        distinct_ids(insert_sorted(sorted, r)),
    decreases sorted.len(),
{
    if sorted.len() == 0 || id_number(sorted.last().id) <= id_number(r.id) {
        lemma_distinct_push(sorted, r);
    } else {
        let init = sorted.drop_last();
        lemma_distinct_init(sorted);
        assert(init.push(sorted.last()) == sorted);
        lemma_has_id_push(init, sorted.last(), r.id);
        lemma_insert_distinct(init, r);
        lemma_insert_ids(init, r, sorted.last().id);
        lemma_distinct_push(insert_sorted(init, r), sorted.last());
    }
}

/// Sorting keeps the ids, and none of them occurs twice after it if none did before.
pub proof fn lemma_sorted_ids(rels: Seq<Rel>, id: Seq<char>)
    ensures
        has_id(sorted_rels(rels), id) == has_id(rels, id),
        distinct_ids(rels) ==> distinct_ids(sorted_rels(rels)),
    decreases rels.len(),
{
    if rels.len() > 0 {
        let init = rels.drop_last();
        let last = rels.last();
        assert(init.push(last) == rels);
        lemma_sorted_ids(init, id);
        lemma_sorted_ids(init, last.id);
        lemma_insert_ids(sorted_rels(init), last, id);
        lemma_has_id_push(init, last, id);
        if distinct_ids(rels) {
            lemma_distinct_init(rels);
            lemma_insert_distinct(sorted_rels(init), last);
        }
    }
}

proof fn lemma_rel_of_tag(r: Rel)
    requires
        rel_decoded(item_of(tag_token(XmlKind::Empty, rel_tag(r)))),
    ensures
        rel_in(item_of(tag_token(XmlKind::Empty, rel_tag(r)))) == Some(written_rel(r)),
{
    let e = item_of(tag_token(XmlKind::Empty, rel_tag(r)));
    let w = written_rel(r);
    lemma_rel_names();
    let a = e.attributes;
    assert(a.len() == 3);
    assert(a[0] == Some((utf8("Id"@), utf8(w.id))));
    assert(a[1] == Some((utf8("Type"@), utf8(w.ty))));
    assert(a[2] == Some((utf8("Target"@), utf8(w.target))));
    let b = a.drop_first();
    let c = b.drop_first();
    assert(b[0] == a[1] && c[0] == a[2]);
    assert(raw_attribute(a, utf8("Id"@)) == Some(utf8(w.id)));
    assert(raw_attribute(b, utf8("Type"@)) == Some(utf8(w.ty)));
    assert(raw_attribute(a, utf8("Type"@)) == Some(utf8(w.ty)));
    assert(raw_attribute(c, utf8("Target"@)) == Some(utf8(w.target)));
    assert(raw_attribute(b, utf8("Target"@)) == Some(utf8(w.target)));
    assert(raw_attribute(a, utf8("Target"@)) == Some(utf8(w.target)));
    vstd::utf8::encode_utf8_decode_utf8(w.id);
    vstd::utf8::encode_utf8_decode_utf8(w.ty);
    vstd::utf8::encode_utf8_decode_utf8(w.target);
    vstd::utf8::encode_utf8_valid_utf8(w.id);
    vstd::utf8::encode_utf8_valid_utf8(w.ty);
    vstd::utf8::encode_utf8_valid_utf8(w.target);
}

proof fn lemma_rels_of_tags(events: Seq<XmlItem>, sorted: Seq<Rel>, n: int)
    requires
        0 <= n <= sorted.len(),
        distinct_ids(sorted),
        events.len() >= 2 + sorted.len(),
        rel_in(events[0]) is None,
        rel_in(events[1]) is None,
        forall|i: int|
            0 <= i < sorted.len() ==> rel_in(#[trigger] events[i + 2]) == Some(
                written_rel(sorted[i]),
            ),
    ensures
        rels_in(events.take(n + 2)) == sorted.take(n).map_values(|r: Rel| written_rel(r)),
    decreases n,
{
    if n == 0 {
        assert(events.take(2).drop_last() == events.take(1));
        assert(events.take(1).drop_last() == events.take(0));
        assert(rels_in(events.take(0)) == Seq::<Rel>::empty());
        assert(events.take(1).last() == events[0]);
        assert(events.take(2).last() == events[1]);
        assert(rels_in(events.take(1)) == Seq::<Rel>::empty());
        assert(rels_in(events.take(2)) =~= sorted.take(0).map_values(|r: Rel| written_rel(r)));
    } else {
        lemma_rels_of_tags(events, sorted, n - 1);
        let before = sorted.take(n - 1).map_values(|r: Rel| written_rel(r));
        let w = written_rel(sorted[n - 1]);
        assert(events.take(n + 2).drop_last() == events.take(n + 1));
        assert(events.take(n + 2).last() == events[n - 1 + 2]);
        assert(!has_id(before, w.id)) by {
            if has_id(before, w.id) {
                let i = choose|i: int| 0 <= i < before.len() && (#[trigger] before[i]).id == w.id;
                law_escaped_reads_back(sorted[i].id, true);
                law_escaped_reads_back(sorted[n - 1].id, true);
                assert(sorted[i].id == sorted[n - 1].id);
            }
        }
        assert(before.push(w) =~= sorted.take(n).map_values(|r: Rel| written_rel(r)));
    }
}

proof fn lemma_reads_written_rels(xml: Seq<u8>, rels: Seq<Rel>)
    requires
        distinct_ids(rels),
        xml == utf8(rels_xml(rels)),
        reads_documents(xml, xml_stream(xml, true)),
        forall|k: int|
            0 <= k < xml_items(xml, true).len() ==> rel_decoded(#[trigger] xml_items(xml, true)[k]),
    ensures
        rels_of(xml) == written_rels(rels),
{
    let sorted = sorted_rels(rels);
    let tags = rel_tags(sorted);
    let events = xml_items(xml, true);
    lemma_rel_names();
    lemma_sorted_ids(rels, Seq::empty());
    assert forall|i: int| 0 <= i < tags.len() implies plain_tag(#[trigger] tags[i]) by {
        assert(tags[i] == rel_tag(sorted[i]));
    }
    assert(document(rels_root(), tags) == rels_xml(rels));
    let tokens = document_stream(rels_root(), tags).tokens;
    assert(xml_stream(xml, true).tokens == tokens);
    assert(tokens.len() == sorted.len() + 3);
    assert(events.len() == tokens.len());
    assert(events[0].kind == XmlKind::Decl);
    assert(events[1] == item_of(tag_token(XmlKind::Start, rels_root())));
    assert forall|i: int| 0 <= i < sorted.len() implies rel_in(#[trigger] events[i + 2]) == Some(
        written_rel(sorted[i]),
    ) by {
        assert(tokens[i + 2] == tag_token(XmlKind::Empty, rel_tag(sorted[i])));
        assert(events[i + 2] == item_of(tag_token(XmlKind::Empty, rel_tag(sorted[i]))));
        lemma_rel_of_tag(sorted[i]);
    }
    let n = sorted.len() as int;
    lemma_rels_of_tags(events, sorted, n);
    assert(sorted.take(n) == sorted);
    assert(events[n + 2].kind == XmlKind::End);
    assert(events.drop_last() == events.take(n + 2));
    assert(events.last() == events[n + 2]);
}

// ---- new ids ----

/// The ids of the relationships.
pub open spec fn ids(rels: Seq<Rel>) -> Seq<Seq<char>> {
    rels.map_values(|r: Rel| r.id)
}

/// The least id of the form `rId1`, `rId2`, ... that is not in use.
pub open spec fn next_rid(rels: Seq<Rel>) -> Seq<char> {
    numbered("rId"@, free_number(ids(rels), "rId"@, Seq::empty()), Seq::empty())
}

proof fn lemma_has_id(rels: Seq<Rel>, id: Seq<char>)
    ensures
        has_id(rels, id) == ids(rels).contains(id),
{
    if has_id(rels, id) {
        let i = choose|i: int| 0 <= i < rels.len() && (#[trigger] rels[i]).id == id;
        assert(ids(rels)[i] == id);
    }
    if ids(rels).contains(id) {
        let i = choose|i: int| 0 <= i < ids(rels).len() && ids(rels)[i] == id;
        assert(rels[i].id == id);
    }
}

/// An id that is not in use, as [`next_rid`] says.
pub fn next_unused_rid(map: &RelMap) -> (r: String)
    ensures
        r@ == next_rid(map@),
{
    let ghost taken = ids(map@);
    let tries: u128 = map.len() as u128;
    let mut n: u128 = 1;
    loop
        invariant
            1 <= n <= tries + 1,
            tries == map@.len(),
            tries <= usize::MAX,
            taken == ids(map@),
            free_number(taken, "rId"@, Seq::empty()) == first_free(
                taken,
                "rId"@,
                Seq::empty(),
                n as nat,
                (tries + 1 - n) as nat,
            ),
        decreases tries + 1 - n,
    {
        let mut candidate = "rId".to_string();
        candidate.append(decimal_text(n).as_str());
        proof {
            lemma_has_id(map@, candidate@);
            assert(candidate@ =~= numbered("rId"@, n as nat, Seq::empty()));
        }
        if n > tries || !map.contains_id(candidate.as_str()) {
            return candidate;
        }
        n = n + 1;
    }
}

/// A new id is in use by no relationship.
pub proof fn law_next_rid_is_unused(rels: Seq<Rel>)
    ensures
        !has_id(rels, next_rid(rels)),
{
    crate::numbering::law_free_number_is_least(ids(rels), "rId"@, Seq::empty());
    lemma_has_id(rels, next_rid(rels));
}

// ---- writing ----

pub const RELS_NAMESPACE: &'static str =
    "http://schemas.openxmlformats.org/package/2006/relationships";

/// `s` without any `prefix` at its start.
pub open spec fn without_prefixes(s: Seq<char>, prefix: Seq<char>) -> Seq<char>
    decreases s.len(),
{
    if prefix.len() > 0 && has_prefix(s, prefix) {
        without_prefixes(s.skip(prefix.len() as int), prefix)
    } else {
        s
    }
}

/// The number in an id such as `rId7`; ids without one come last.
pub open spec fn id_number(id: Seq<char>) -> u32 {
    match number_u32(without_prefixes(id, "rId"@)) {
        Some(n) => n,
        None => u32::MAX,
    }
}

/// `sorted` with `r` after everything whose id number is not larger.
pub open spec fn insert_sorted(sorted: Seq<Rel>, r: Rel) -> Seq<Rel>
    decreases sorted.len(),
{
    if sorted.len() == 0 || id_number(sorted.last().id) <= id_number(r.id) {
        sorted.push(r)
    } else {
        insert_sorted(sorted.drop_last(), r).push(sorted.last())
    }
}

/// The relationships by id number; those with one number keep their order.
pub open spec fn sorted_rels(rels: Seq<Rel>) -> Seq<Rel>
    decreases rels.len(),
{
    if rels.len() == 0 {
        Seq::empty()
    } else {
        insert_sorted(sorted_rels(rels.drop_last()), rels.last())
    }
}

/// The root of a relationship part.
pub open spec fn rels_root() -> XmlTag {
    XmlTag { name: "Relationships"@, attributes: seq![("xmlns"@, RELS_NAMESPACE@)] }
}

/// A relationship as an XML tag.
pub open spec fn rel_tag(r: Rel) -> XmlTag {
    XmlTag {
        name: "Relationship"@,
        attributes: seq![
            ("Id"@, escaped(r.id, true)),
            ("Type"@, escaped(r.ty, true)),
            ("Target"@, escaped(r.target, true)),
        ],
    }
}

/// Relationships as XML tags.
pub open spec fn rel_tags(rels: Seq<Rel>) -> Seq<XmlTag> {
    rels.map_values(|r: Rel| rel_tag(r))
}

/// A relationship part with the given relationships.
pub open spec fn rels_xml(rels: Seq<Rel>) -> Seq<char> {
    document(rels_root(), rel_tags(sorted_rels(rels)))
}

fn number_of_id(id: &str) -> (r: u32)
    ensures
        r == id_number(id@),
{
    let chars = chars_of(id);
    let prefix = chars_of("rId");
    let mut from: usize = 0;
    assert(chars@.skip(0) == chars@);
    proof {
        reveal_strlit("rId");
    }
    while starts_with(slice_subrange(chars.as_slice(), from, chars.len()), prefix.as_slice())
        invariant
            from <= chars@.len(),
            prefix@ == "rId"@,
            prefix@.len() == 3,
            without_prefixes(chars@, prefix@) == without_prefixes(chars@.skip(from as int), prefix@),
        decreases chars@.len() - from,
    {
        assert(chars@.subrange(from as int, chars@.len() as int) == chars@.skip(from as int));
        assert(chars@.skip(from as int).skip(3) == chars@.skip(from + 3));
        from = from + 3;
    }
    assert(chars@.subrange(from as int, chars@.len() as int) == chars@.skip(from as int));
    match parse_u32(slice_subrange(chars.as_slice(), from, chars.len())) {
        Some(n) => n,
        None => u32::MAX,
    }
}

proof fn lemma_insert_position(sorted: Seq<Rel>, r: Rel, j: int)
    requires
        0 <= j <= sorted.len(),
        j > 0 ==> id_number(sorted[j - 1].id) <= id_number(r.id),
        forall|k: int| j <= k < sorted.len() ==> id_number((#[trigger] sorted[k]).id) > id_number(r.id),
    ensures
        insert_sorted(sorted, r) == sorted.insert(j, r),
    decreases sorted.len(),
{
    if j < sorted.len() {
        assert(id_number(sorted[sorted.len() - 1].id) > id_number(r.id));
        lemma_insert_position(sorted.drop_last(), r, j);
        assert(sorted.drop_last().insert(j, r).push(sorted.last()) =~= sorted.insert(j, r));
    } else {
        assert(sorted.insert(j, r) =~= sorted.push(r));
    }
}

/// What a list of relationships says.
pub open spec fn rel_views(v: Seq<Relationship>) -> Seq<Rel> {
    v.map_values(|r: Relationship| r@)
}

fn sort_rels(map: &RelMap) -> (r: Vec<Relationship>)
    ensures
        rel_views(r@) == sorted_rels(map@),
{
    let mut sorted: Vec<Relationship> = Vec::new();
    let mut i: usize = 0;
    assert(rel_views(sorted@) =~= sorted_rels(map@.take(0)));
    while i < map.len()
        invariant
            i <= map@.len(),
            rel_views(sorted@) == sorted_rels(map@.take(i as int)),
        decreases map@.len() - i,
    {
        let entry = map.at(i);
        let number: u32 = number_of_id(entry.id.as_str());
        let mut j: usize = sorted.len();
        while j > 0 && number_of_id(sorted[j - 1].id.as_str()) > number
            invariant
                j <= sorted@.len(),
                number == id_number(entry@.id),
                forall|k: int|
                    j <= k < sorted@.len() ==> id_number((#[trigger] rel_views(sorted@)[k]).id)
                        > number,
            decreases j,
        {
            assert(rel_views(sorted@)[j - 1] == sorted@[j - 1]@);
            j = j - 1;
        }
        let ghost before = sorted@;
        let copy = Relationship {
            id: entry.id.clone(),
            ty: entry.ty.clone(),
            target: entry.target.clone(),
        };
        assert(j > 0 ==> rel_views(before)[j - 1] == before[j - 1]@);
        proof {
            lemma_insert_position(rel_views(before), entry@, j as int);
        }
        sorted.insert(j, copy);
        assert(rel_views(sorted@) =~= rel_views(before).insert(j as int, entry@));
        assert(map@.take(i + 1).drop_last() == map@.take(i as int));
        i = i + 1;
    }
    assert(map@.take(i as int) == map@);
    sorted
}

fn append_root(s: &mut String)
    ensures
        final(s)@ == old(s)@ + document_start(rels_root()),
{
    let ghost before = s@;
    s.append("<?");
    s.append(DECLARATION);
    s.append("?>\n<");
    s.append("Relationships");
    append_attribute(s, "xmlns", RELS_NAMESPACE);
    s.append(">");
    proof {
        let a = rels_root().attributes;
        assert(a.drop_last() =~= Seq::<(Seq<char>, Seq<char>)>::empty());
        assert(tag_text("Relationships"@, a.drop_last()) == "Relationships"@);
        assert(tag_text("Relationships"@, a) == "Relationships"@ + attribute_text(
            "xmlns"@,
            RELS_NAMESPACE@,
        ));
    }
    assert(s@ =~= before + document_start(rels_root()));
}

fn append_rel(s: &mut String, r: &Relationship)
    ensures
        final(s)@ == old(s)@ + ("<"@ + tag_text(rel_tag(r@).name, rel_tag(r@).attributes) + "/>"@),
{
    let ghost before = s@;
    let id = xml_escape_attr(r.id.as_str());
    let ty = xml_escape_attr(r.ty.as_str());
    let target = xml_escape_attr(r.target.as_str());
    s.append("<");
    s.append("Relationship");
    append_attribute(s, "Id", id.as_str());
    append_attribute(s, "Type", ty.as_str());
    append_attribute(s, "Target", target.as_str());
    s.append("/>");
    proof {
        let name = "Relationship"@;
        let a3 = rel_tag(r@).attributes;
        let a2 = a3.drop_last();
        let a1 = a2.drop_last();
        let a0 = a1.drop_last();
        assert(a0 =~= Seq::<(Seq<char>, Seq<char>)>::empty());
        assert(a1.last() == ("Id"@, id@));
        assert(a2.last() == ("Type"@, ty@));
        assert(a3.last() == ("Target"@, target@));
        assert(tag_text(name, a0) == name);
        assert(tag_text(name, a1) == name + attribute_text("Id"@, id@));
        assert(tag_text(name, a2) == tag_text(name, a1) + attribute_text("Type"@, ty@));
        assert(tag_text(name, a3) == tag_text(name, a2) + attribute_text("Target"@, target@));
    }
    assert(s@ =~= before + ("<"@ + tag_text(rel_tag(r@).name, rel_tag(r@).attributes) + "/>"@));
}

/// A relationship part with the given relationships, as [`rels_xml`] says.
pub fn build_rels_xml(map: &RelMap) -> (r: String)
    ensures
        r@ == rels_xml(map@),
{
    let sorted = sort_rels(map);
    let ghost tags = rel_tags(rel_views(sorted@));
    let ghost start = document_start(rels_root());
    let mut s = String::new();
    append_root(&mut s);
    let mut i: usize = 0;
    assert(tags.take(0) =~= Seq::<XmlTag>::empty());
    assert(s@ =~= start + empty_tags(tags.take(0)));
    while i < sorted.len()
        invariant
            i <= sorted@.len(),
            tags == rel_tags(rel_views(sorted@)),
            start == document_start(rels_root()),
            s@ == start + empty_tags(tags.take(i as int)),
        decreases sorted@.len() - i,
    {
        append_rel(&mut s, &sorted[i]);
        assert(tags.take(i + 1).drop_last() == tags.take(i as int));
        assert(tags.take(i + 1).last() == rel_tag(sorted@[i as int]@));
        assert(s@ =~= start + empty_tags(tags.take(i + 1)));
        i = i + 1;
    }
    assert(tags.take(i as int) == tags);
    s.append("</");
    s.append("Relationships");
    s.append(">");
    assert(s@ =~= document(rels_root(), tags));
    s
}

/// A relationship part without relationships.
pub fn empty_rels_xml_bytes() -> (r: Vec<u8>)
    ensures
        r@ == utf8(rels_xml(Seq::empty())),
{
    utf8_bytes(build_rels_xml(&RelMap::new()).as_str())
}

// ---- resolving targets ----

/// The path segments after going along `segments` from `at`.
pub open spec fn walked(at: Seq<Seq<char>>, segments: Seq<Seq<char>>) -> Seq<Seq<char>>
    decreases segments.len(),
{
    if segments.len() == 0 {
        at
    } else {
        let before = walked(at, segments.drop_last());
        let s = segments.last();
        if s == ".."@ {
            if before.len() > 0 {
                before.drop_last()
            } else {
                before
            }
        } else if s == "."@ || s.len() == 0 {
            before
        } else {
            before.push(s)
        }
    }
}

/// The segments that are not empty.
pub open spec fn nonempty(segments: Seq<Seq<char>>) -> Seq<Seq<char>>
    decreases segments.len(),
{
    if segments.len() == 0 {
        Seq::empty()
    } else if segments.last().len() == 0 {
        nonempty(segments.drop_last())
    } else {
        nonempty(segments.drop_last()).push(segments.last())
    }
}

/// The path that `target` names, seen from the directory `base_dir`.
pub open spec fn resolved(base_dir: Seq<char>, target: Seq<char>) -> Seq<char> {
    joined(walked(nonempty(split(base_dir, '/')), split(target, '/')), '/')
}

fn copy_chars(s: &[char]) -> (r: Vec<char>)
    ensures
        r@ == s@,
{
    let mut v: Vec<char> = Vec::new();
    extend_chars(&mut v, s);
    assert(v@ =~= s@);
    v
}

/// The path that a target names, as [`resolved`] says.
pub fn resolve_rel_target(base_dir: &str, target: &str) -> (r: String)
    ensures
        r@ == resolved(base_dir@, target@),
{
    let base = split_at_char(chars_of(base_dir).as_slice(), '/');
    let mut parts: Vec<Vec<char>> = Vec::new();
    let mut i: usize = 0;
    assert(texts(parts@) =~= nonempty(texts(base@).take(0)));
    while i < base.len()
        invariant
            i <= base@.len(),
            texts(parts@) == nonempty(texts(base@).take(i as int)),
        decreases base@.len() - i,
    {
        assert(texts(base@).take(i + 1).drop_last() == texts(base@).take(i as int));
        assert(texts(base@).take(i + 1).last() == base@[i as int]@);
        if base[i].len() > 0 {
            let copy = copy_chars(base[i].as_slice());
            proof {
                crate::text::lemma_texts_push(parts@, copy);
            }
            parts.push(copy);
        }
        i = i + 1;
    }
    assert(texts(base@).take(i as int) == texts(base@));
    let ghost start = texts(parts@);
    let up = chars_of("..");
    let here = chars_of(".");
    let segments = split_at_char(chars_of(target).as_slice(), '/');
    let mut j: usize = 0;
    assert(texts(parts@) =~= walked(start, texts(segments@).take(0)));
    while j < segments.len()
        invariant
            j <= segments@.len(),
            up@ == ".."@,
            here@ == "."@,
            texts(parts@) == walked(start, texts(segments@).take(j as int)),
        decreases segments@.len() - j,
    {
        assert(texts(segments@).take(j + 1).drop_last() == texts(segments@).take(j as int));
        assert(texts(segments@).take(j + 1).last() == segments@[j as int]@);
        let ghost before = parts@;
        if same_chars(segments[j].as_slice(), up.as_slice()) {
            if parts.len() > 0 {
                parts.pop();
                assert(texts(parts@) =~= texts(before).drop_last());
            }
        } else if same_chars(segments[j].as_slice(), here.as_slice()) || segments[j].len() == 0 {
        } else {
            let copy = copy_chars(segments[j].as_slice());
            proof {
                crate::text::lemma_texts_push(parts@, copy);
            }
            parts.push(copy);
        }
        j = j + 1;
    }
    assert(texts(segments@).take(j as int) == texts(segments@));
    text_of(join_with_char(&parts, '/').as_slice())
}

// ---- what the operations guarantee ----

/// What was put in is found under its id; what other ids point to stays.
pub proof fn law_put_rel_is_found(rels: Seq<Rel>, r: Rel, id: Seq<char>)
    ensures
        find_rel(put_rel(rels, r), r.id) == Some(r),
        id != r.id ==> find_rel(put_rel(rels, r), id) == find_rel(rels, id),
    decreases rels.len(),
{
    if rels.len() == 0 {
        assert(put_rel(rels, r)[0] == r);
        assert(put_rel(rels, r).drop_first() =~= rels);
    } else {
        let rest = rels.drop_first();
        law_put_rel_is_found(rest, r, id);
        let all = put_rel(rels, r);
        if rels[0].id == r.id {
            assert(has_id(rels, r.id));
            assert(all[0] == r);
            if id != r.id {
                if has_id(rest, r.id) {
                    assert(all.drop_first() =~= put_rel(rest, r));
                } else {
                    assert forall|k: int| 0 <= k < rest.len() implies rest[k].id != r.id by {
                        assert(rest[k].id != r.id);
                    }
                    assert(all.drop_first() =~= rest);
                }
            }
        } else {
            if has_id(rest, r.id) {
                let k = choose|k: int| 0 <= k < rest.len() && (#[trigger] rest[k]).id == r.id;
                assert(rels[k + 1].id == r.id);
            } else {
                assert forall|k: int| 0 <= k < rels.len() implies (#[trigger] rels[k]).id != r.id by {
                    if k > 0 {
                        assert(rest[k - 1].id != r.id);
                    }
                }
            }
            assert(has_id(rels, r.id) == has_id(rest, r.id));
            assert(all[0] == rels[0]);
            assert(all.drop_first() =~= put_rel(rest, r));
        }
    }
}

/// No relationship has a smaller id number than the one before it.
pub open spec fn in_order(rels: Seq<Rel>) -> bool {
    forall|i: int, j: int|
        0 <= i <= j < rels.len() ==> id_number((#[trigger] rels[i]).id) <= id_number(
            (#[trigger] rels[j]).id,
        )
}

/// The relationships with one id number.
pub open spec fn with_number(rels: Seq<Rel>, n: u32) -> Seq<Rel>
    decreases rels.len(),
{
    if rels.len() == 0 {
        Seq::empty()
    } else if id_number(rels.last().id) == n {
        with_number(rels.drop_last(), n).push(rels.last())
    } else {
        with_number(rels.drop_last(), n)
    }
}

proof fn lemma_insert_bounded(sorted: Seq<Rel>, r: Rel, most: u32)
    requires
        forall|i: int| 0 <= i < sorted.len() ==> id_number((#[trigger] sorted[i]).id) <= most,
        id_number(r.id) <= most,
    ensures
        forall|i: int|
            0 <= i < insert_sorted(sorted, r).len() ==> id_number(
                (#[trigger] insert_sorted(sorted, r)[i]).id,
            ) <= most,
    decreases sorted.len(),
{
    if sorted.len() > 0 {
        assert(id_number(sorted[sorted.len() - 1].id) <= most);
        assert forall|i: int| 0 <= i < sorted.drop_last().len() implies id_number(
            (#[trigger] sorted.drop_last()[i]).id,
        ) <= most by {
            assert(sorted.drop_last()[i] == sorted[i]);
        }
        lemma_insert_bounded(sorted.drop_last(), r, most);
        let inner = insert_sorted(sorted.drop_last(), r);
        let all = insert_sorted(sorted, r);
        assert forall|i: int| 0 <= i < all.len() implies id_number((#[trigger] all[i]).id) <= most by {
            if id_number(sorted.last().id) <= id_number(r.id) {
                assert(i < sorted.len() ==> all[i] == sorted[i]);
            } else {
                assert(i < inner.len() ==> all[i] == inner[i]);
            }
        }
    }
}

proof fn lemma_insert_in_order(sorted: Seq<Rel>, r: Rel)
    requires
        in_order(sorted),
    ensures
        in_order(insert_sorted(sorted, r)),
    decreases sorted.len(),
{
    let all = insert_sorted(sorted, r);
    if sorted.len() > 0 {
        let last = sorted.last();
        let init = sorted.drop_last();
        assert forall|i: int, j: int| 0 <= i <= j < init.len() implies id_number(
            (#[trigger] init[i]).id,
        ) <= id_number((#[trigger] init[j]).id) by {
            assert(init[i] == sorted[i] && init[j] == sorted[j]);
        }
        assert forall|i: int| 0 <= i < init.len() implies id_number((#[trigger] init[i]).id)
            <= id_number(last.id) by {
            assert(init[i] == sorted[i]);
            assert(last == sorted[sorted.len() - 1]);
        }
        lemma_insert_in_order(init, r);
        if id_number(last.id) > id_number(r.id) {
            lemma_insert_bounded(init, r, id_number(last.id));
        }
    }
}

proof fn lemma_insert_keeps(sorted: Seq<Rel>, r: Rel, n: u32)
    ensures
        with_number(insert_sorted(sorted, r), n) == (if id_number(r.id) == n {
            with_number(sorted, n).push(r)
        } else {
            with_number(sorted, n)
        }),
    decreases sorted.len(),
{
    if sorted.len() == 0 || id_number(sorted.last().id) <= id_number(r.id) {
        assert(sorted.push(r).drop_last() == sorted);
    } else {
        lemma_insert_keeps(sorted.drop_last(), r, n);
        let all = insert_sorted(sorted.drop_last(), r).push(sorted.last());
        assert(all.drop_last() == insert_sorted(sorted.drop_last(), r));
    }
}

/// The relationships are written by id number, and those with one number are
/// written once each, in the order they had.
pub proof fn law_written_in_order(rels: Seq<Rel>)
    ensures
        in_order(sorted_rels(rels)),
        forall|n: u32| #[trigger] with_number(sorted_rels(rels), n) == with_number(rels, n),
    decreases rels.len(),
{
    if rels.len() > 0 {
        let init = rels.drop_last();
        law_written_in_order(init);
        lemma_insert_in_order(sorted_rels(init), rels.last());
        assert forall|n: u32| #[trigger] with_number(sorted_rels(rels), n) == with_number(rels, n) by {
            lemma_insert_keeps(sorted_rels(init), rels.last(), n);
            assert(with_number(sorted_rels(init), n) == with_number(init, n));
        }
    }
}

/// A segment that stands for itself in a path.
pub open spec fn plain_segment(s: Seq<char>) -> bool {
    s.len() > 0 && s != "."@ && s != ".."@
}

/// From a plain directory, a target resolves to plain segments only, with no `.`,
/// no `..` and no empty segment among them.
pub proof fn law_resolved_segments_are_plain(base_dir: Seq<char>, target: Seq<char>)
    requires
        forall|i: int|
            0 <= i < split(base_dir, '/').len() ==> (#[trigger] split(base_dir, '/')[i]) != "."@
                && split(base_dir, '/')[i] != ".."@,
    ensures
        resolved(base_dir, target) == joined(
            walked(nonempty(split(base_dir, '/')), split(target, '/')),
            '/',
        ),
        forall|i: int|
            0 <= i < walked(nonempty(split(base_dir, '/')), split(target, '/')).len()
                ==> plain_segment(
                #[trigger] walked(nonempty(split(base_dir, '/')), split(target, '/'))[i],
            ),
{
    lemma_nonempty_plain(split(base_dir, '/'));
    lemma_walked_plain(nonempty(split(base_dir, '/')), split(target, '/'));
}

proof fn lemma_nonempty_plain(segments: Seq<Seq<char>>)
    requires
        forall|i: int|
            0 <= i < segments.len() ==> (#[trigger] segments[i]) != "."@ && segments[i] != ".."@,
    ensures
        forall|i: int|
            0 <= i < nonempty(segments).len() ==> plain_segment(#[trigger] nonempty(segments)[i]),
    decreases segments.len(),
{
    if segments.len() > 0 {
        let init = segments.drop_last();
        assert forall|i: int| 0 <= i < init.len() implies (#[trigger] init[i]) != "."@ && init[i]
            != ".."@ by {
            assert(init[i] == segments[i]);
        }
        lemma_nonempty_plain(init);
        assert(segments.last() == segments[segments.len() - 1]);
        let before = nonempty(init);
        let all = nonempty(segments);
        assert forall|i: int| 0 <= i < all.len() implies plain_segment(#[trigger] all[i]) by {
            assert(i < before.len() ==> all[i] == before[i]);
        }
    }
}

proof fn lemma_walked_plain(at: Seq<Seq<char>>, segments: Seq<Seq<char>>)
    requires
        forall|i: int| 0 <= i < at.len() ==> plain_segment(#[trigger] at[i]),
    ensures
        forall|i: int|
            0 <= i < walked(at, segments).len() ==> plain_segment(#[trigger] walked(at, segments)[i]),
    decreases segments.len(),
{
    if segments.len() > 0 {
        lemma_walked_plain(at, segments.drop_last());
        let before = walked(at, segments.drop_last());
        let all = walked(at, segments);
        assert forall|i: int| 0 <= i < all.len() implies plain_segment(#[trigger] all[i]) by {
            assert(i < before.len() ==> all[i] == before[i]);
        }
    }
}

/// No segment of a split text holds the separator.
proof fn lemma_split_segments(s: Seq<char>, sep: char)
    ensures
        forall|i: int| 0 <= i < split(s, sep).len() ==> !(#[trigger] split(s, sep)[i]).contains(sep),
    decreases s.len(),
{
    if s.len() > 0 {
        let init = split(s.drop_last(), sep);
        let all = split(s, sep);
        lemma_split_segments(s.drop_last(), sep);
        crate::text::lemma_split_nonempty(s.drop_last(), sep);
        assert forall|i: int| 0 <= i < all.len() implies !(#[trigger] all[i]).contains(sep) by {
            if s.last() == sep {
                if i < init.len() {
                    assert(all[i] == init[i]);
                }
            } else if i < init.len() - 1 {
                assert(all[i] == init[i]);
            } else {
                assert(all[i] == init.last().push(s.last()));
                assert(!init[init.len() - 1].contains(sep));
                assert forall|k: int| 0 <= k < all[i].len() implies all[i][k] != sep by {
                    if k < init.last().len() {
                        assert(init.last().contains(init.last()[k]));
                    }
                }
            }
        }
    }
}

proof fn lemma_nonempty_segments(segments: Seq<Seq<char>>, sep: char)
    requires
        forall|i: int| 0 <= i < segments.len() ==> !(#[trigger] segments[i]).contains(sep),
    ensures
        forall|i: int|
            0 <= i < nonempty(segments).len() ==> (#[trigger] nonempty(segments)[i]).len() > 0
                && !nonempty(segments)[i].contains(sep),
    decreases segments.len(),
{
    if segments.len() > 0 {
        let init = segments.drop_last();
        assert forall|i: int| 0 <= i < init.len() implies !(#[trigger] init[i]).contains(sep) by {
            assert(init[i] == segments[i]);
        }
        lemma_nonempty_segments(init, sep);
        assert(segments.last() == segments[segments.len() - 1]);
        let before = nonempty(init);
        let all = nonempty(segments);
        assert forall|i: int| 0 <= i < all.len() implies (#[trigger] all[i]).len() > 0
            && !all[i].contains(sep) by {
            assert(i < before.len() ==> all[i] == before[i]);
        }
    }
}

proof fn lemma_walked_segments(at: Seq<Seq<char>>, segments: Seq<Seq<char>>, sep: char)
    requires
        forall|i: int|
            0 <= i < at.len() ==> (#[trigger] at[i]).len() > 0 && !at[i].contains(sep),
        forall|i: int| 0 <= i < segments.len() ==> !(#[trigger] segments[i]).contains(sep),
    ensures
        forall|i: int|
            0 <= i < walked(at, segments).len() ==> (#[trigger] walked(at, segments)[i]).len() > 0
                && !walked(at, segments)[i].contains(sep),
    decreases segments.len(),
{
    if segments.len() > 0 {
        let init = segments.drop_last();
        assert forall|i: int| 0 <= i < init.len() implies !(#[trigger] init[i]).contains(sep) by {
            assert(init[i] == segments[i]);
        }
        lemma_walked_segments(at, init, sep);
        assert(segments.last() == segments[segments.len() - 1]);
        let before = walked(at, init);
        let all = walked(at, segments);
        assert forall|i: int| 0 <= i < all.len() implies (#[trigger] all[i]).len() > 0
            && !all[i].contains(sep) by {
            assert(i < before.len() ==> all[i] == before[i]);
        }
    }
}

/// A resolved target does not end in a slash: it never names a directory.
pub proof fn law_resolved_target_is_no_directory(base_dir: Seq<char>, target: Seq<char>)
    ensures
        resolved(base_dir, target).len() > 0 ==> resolved(base_dir, target).last() != '/',
{
    let base = split(base_dir, '/');
    let segments = walked(nonempty(base), split(target, '/'));
    lemma_split_segments(base_dir, '/');
    lemma_split_segments(target, '/');
    lemma_nonempty_segments(base, '/');
    lemma_walked_segments(nonempty(base), split(target, '/'), '/');
    if segments.len() > 0 {
        let last = segments[segments.len() - 1];
        assert(last.len() > 0 && !last.contains('/'));
        assert(last.contains(last[last.len() - 1]));
        assert(resolved(base_dir, target).last() == last.last());
    }
}

/// Putting a relationship in does not make an id occur twice.
pub proof fn law_put_rel_keeps_ids_distinct(rels: Seq<Rel>, r: Rel)
    requires
        distinct_ids(rels),
    ensures
        distinct_ids(put_rel(rels, r)),
{
    if has_id(rels, r.id) {
        let all = put_rel(rels, r);
        assert forall|i: int, j: int| 0 <= i < j < all.len() implies (#[trigger] all[i]).id != (
        #[trigger] all[j]).id by {
            assert(all[i].id == rels[i].id && all[j].id == rels[j].id);
        }
    } else {
        lemma_distinct_push(rels, r);
    }
}

/// No id occurs twice in what is read from a part.
pub proof fn law_read_ids_are_distinct(events: Seq<XmlItem>)
    ensures
        distinct_ids(rels_in(events)),
    decreases events.len(),
{
    if events.len() > 0 {
        law_read_ids_are_distinct(events.drop_last());
        if let Some(r) = rel_in(events.last()) {
            law_put_rel_keeps_ids_distinct(rels_in(events.drop_last()), r);
        }
    }
}

proof fn lemma_insert_contains(sorted: Seq<Rel>, r: Rel, x: Rel)
    ensures
        insert_sorted(sorted, r).contains(x) == (sorted.contains(x) || x == r),
    decreases sorted.len(),
{
    broadcast use vstd::seq_lib::group_seq_properties;

    if sorted.len() > 0 && id_number(sorted.last().id) > id_number(r.id) {
        lemma_insert_contains(sorted.drop_last(), r, x);
        assert(sorted.drop_last().push(sorted.last()) == sorted);
    }
}

pub proof fn lemma_sorted_contains(rels: Seq<Rel>, x: Rel)
    ensures
        sorted_rels(rels).contains(x) == rels.contains(x),
    decreases rels.len(),
{
    broadcast use vstd::seq_lib::group_seq_properties;

    if rels.len() > 0 {
        lemma_sorted_contains(rels.drop_last(), x);
        lemma_insert_contains(sorted_rels(rels.drop_last()), rels.last(), x);
        assert(rels.drop_last().push(rels.last()) == rels);
    }
}

proof fn lemma_no_such_type(rels: Seq<Rel>, suffix: Seq<char>, i: int)
    requires
        find_type(rels, suffix) is None,
        0 <= i < rels.len(),
    ensures
        !has_suffix(rels[i].ty, suffix),
    decreases rels.len(),
{
    if i > 0 {
        assert(rels.drop_first()[i - 1] == rels[i]);
        lemma_no_such_type(rels.drop_first(), suffix, i - 1);
    }
}

proof fn lemma_only_such_type(rels: Seq<Rel>, suffix: Seq<char>, r: Rel)
    requires
        rels.contains(r),
        has_suffix(r.ty, suffix),
        forall|i: int|
            0 <= i < rels.len() && has_suffix((#[trigger] rels[i]).ty, suffix) ==> rels[i] == r,
    ensures
        find_type(rels, suffix) == Some(r),
    decreases rels.len(),
{
    let k = choose|k: int| 0 <= k < rels.len() && rels[k] == r;
    if !has_suffix(rels[0].ty, suffix) {
        let rest = rels.drop_first();
        assert(rest[k - 1] == r);
        assert forall|i: int|
            0 <= i < rest.len() && has_suffix((#[trigger] rest[i]).ty, suffix) implies rest[i]
            == r by {
            assert(rest[i] == rels[i + 1]);
        }
        lemma_only_such_type(rest, suffix, r);
    } else {
        assert(rels[0] == r);
    }
}

/// A relationship of a new type, put in and written, is the one of its type that is
/// read.
pub proof fn law_written_type_is_found(rels: Seq<Rel>, r: Rel, suffix: Seq<char>)
    requires
        !has_id(rels, r.id),
        find_type(rels, suffix) is None,
        has_suffix(escaped(r.ty, true), suffix),
        forall|i: int| 0 <= i < suffix.len() ==> unescaped_char(#[trigger] suffix[i]),
    ensures
        find_type(written_rels(put_rel(rels, r)), suffix) == Some(written_rel(r)),
{
    let all = put_rel(rels, r);
    let sorted = sorted_rels(all);
    let written = written_rels(all);
    assert(all == rels.push(r));
    assert(all[rels.len() as int] == r);
    lemma_sorted_contains(all, r);
    let k = choose|k: int| 0 <= k < sorted.len() && sorted[k] == r;
    assert(written[k] == written_rel(r));
    assert(written.contains(written_rel(r)));
    assert forall|i: int|
        0 <= i < written.len() && has_suffix((#[trigger] written[i]).ty, suffix) implies written[i]
        == written_rel(r) by {
        let x = sorted[i];
        assert(written[i] == written_rel(x));
        lemma_escaped_suffix(x.ty, true, suffix);
        lemma_sorted_contains(all, x);
        assert(sorted.contains(x));
        let m = choose|m: int| 0 <= m < all.len() && all[m] == x;
        if m < rels.len() {
            lemma_no_such_type(rels, suffix, m);
        }
    }
    lemma_only_such_type(written, suffix, written_rel(r));
}

/// Where no id occurs twice, a relationship is the one with its id.
pub proof fn lemma_found_rel(rels: Seq<Rel>, k: int)
    requires
        distinct_ids(rels),
        0 <= k < rels.len(),
    ensures
        find_rel(rels, rels[k].id) == Some(rels[k]),
    decreases rels.len(),
{
    if k > 0 {
        let rest = rels.drop_first();
        assert(rels[0].id != rels[k].id);
        assert(distinct_ids(rest)) by {
            assert forall|i: int, j: int| 0 <= i < j < rest.len() implies (#[trigger] rest[i]).id
                != (#[trigger] rest[j]).id by {
                assert(rest[i] == rels[i + 1] && rest[j] == rels[j + 1]);
            }
        }
        assert(rest[k - 1] == rels[k]);
        lemma_found_rel(rest, k - 1);
    }
}

/// A relationship is found where there is one with the id.
pub proof fn lemma_find_rel(rels: Seq<Rel>, id: Seq<char>)
    ensures
        find_rel(rels, id) is Some <==> has_id(rels, id),
    decreases rels.len(),
{
    if rels.len() > 0 {
        let rest = rels.drop_first();
        lemma_find_rel(rest, id);
        if has_id(rest, id) {
            let k = choose|k: int| 0 <= k < rest.len() && (#[trigger] rest[k]).id == id;
            assert(rels[k + 1].id == id);
        }
        if has_id(rels, id) && rels[0].id != id {
            let k = choose|k: int| 0 <= k < rels.len() && (#[trigger] rels[k]).id == id;
            assert(rest[k - 1].id == id);
        }
    }
}

/// A relationship as a tag, written out.
pub open spec fn rel_text(id: Seq<char>, ty: Seq<char>, target: Seq<char>) -> Seq<char> {
    "<Relationship Id=\""@ + id + "\" Type=\""@ + ty + "\" Target=\""@ + target + "\"/>"@
}

#[verifier::spinoff_prover]
proof fn lemma_rel_text(r: Rel)
    ensures
        "<"@ + tag_text(rel_tag(r).name, rel_tag(r).attributes) + "/>"@ == rel_text(
            escaped(r.id, true),
            escaped(r.ty, true),
            escaped(r.target, true),
        ),
{
    let name = "Relationship"@;
    let w = written_rel(r);
    let a3 = rel_tag(r).attributes;
    let a2 = a3.drop_last();
    let a1 = a2.drop_last();
    let a0 = a1.drop_last();
    assert(a0 =~= Seq::<(Seq<char>, Seq<char>)>::empty());
    assert(a1.last() == ("Id"@, w.id));
    assert(a2.last() == ("Type"@, w.ty));
    assert(a3.last() == ("Target"@, w.target));
    assert(tag_text(name, a0) == name);
    assert(tag_text(name, a1) == name + attribute_text("Id"@, w.id));
    assert(tag_text(name, a2) == tag_text(name, a1) + attribute_text("Type"@, w.ty));
    assert(tag_text(name, a3) == tag_text(name, a2) + attribute_text("Target"@, w.target));
    reveal_strlit("<Relationship Id=\"");
    reveal_strlit("\" Type=\"");
    reveal_strlit("\" Target=\"");
    reveal_strlit("\"/>");
    reveal_strlit("<");
    reveal_strlit("/>");
    reveal_strlit("Relationship");
    reveal_strlit("Id");
    reveal_strlit("Type");
    reveal_strlit("Target");
    reveal_strlit(" ");
    reveal_strlit("=\"");
    reveal_strlit("\"");
    assert("<Relationship Id=\""@ =~= "<"@ + "Relationship"@ + (" "@ + "Id"@ + "=\""@));
    assert("\" Type=\""@ =~= "\""@ + (" "@ + "Type"@ + "=\""@));
    assert("\" Target=\""@ =~= "\""@ + (" "@ + "Target"@ + "=\""@));
    assert("\"/>"@ =~= "\""@ + "/>"@);
    let text = rel_text(w.id, w.ty, w.target);
    assert(text =~= "<"@ + ("Relationship"@ + (" "@ + "Id"@ + "=\""@ + w.id + "\""@) + (" "@
        + "Type"@ + "=\""@ + w.ty + "\""@) + (" "@ + "Target"@ + "=\""@ + w.target + "\""@)) + "/>"@);
}

pub const RELS_START: &'static str = r#"<?xml version="1.0" encoding="UTF-8" standalone="yes"?>
<Relationships xmlns="http://schemas.openxmlformats.org/package/2006/relationships">"#;

#[verifier::spinoff_prover]
#[verifier::rlimit(60)]
proof fn lemma_rels_start()
    ensures
        document_start(rels_root()) == RELS_START@,
{
    let a = rels_root().attributes;
    assert(a.drop_last() =~= Seq::<(Seq<char>, Seq<char>)>::empty());
    assert(tag_text("Relationships"@, a.drop_last()) == "Relationships"@);
    assert(tag_text("Relationships"@, a) == "Relationships"@ + attribute_text(
        "xmlns"@,
        RELS_NAMESPACE@,
    ));
    reveal_strlit(r#"<?xml version="1.0" encoding="UTF-8" standalone="yes"?>
<Relationships xmlns="http://schemas.openxmlformats.org/package/2006/relationships">"#);
    reveal_strlit("<?");
    reveal_strlit("xml version=\"1.0\" encoding=\"UTF-8\" standalone=\"yes\"");
    reveal_strlit("?>\n<");
    reveal_strlit("Relationships");
    reveal_strlit(" ");
    reveal_strlit("xmlns");
    reveal_strlit("=\"");
    reveal_strlit("http://schemas.openxmlformats.org/package/2006/relationships");
    reveal_strlit("\"");
    reveal_strlit(">");
    assert("<?"@ + DECLARATION@ + "?>\n<"@ + ("Relationships"@ + (" "@ + "xmlns"@ + "=\""@
        + RELS_NAMESPACE@ + "\""@)) + ">"@ =~= RELS_START@);
}

/// Relationships that are written in the order they have.
proof fn lemma_rels_xml_text(rels: Seq<Rel>, n: int)
    requires
        0 <= n <= rels.len(),
    ensures
        n == 0 ==> empty_tags(rel_tags(rels).take(n)) == Seq::<char>::empty(),
        n > 0 ==> empty_tags(rel_tags(rels).take(n)) == empty_tags(rel_tags(rels).take(n - 1))
            + rel_text(
            escaped(rels[n - 1].id, true),
            escaped(rels[n - 1].ty, true),
            escaped(rels[n - 1].target, true),
        ),
{
    if n > 0 {
        let tags = rel_tags(rels);
        assert(tags.take(n).drop_last() == tags.take(n - 1));
        assert(tags.take(n).last() == rel_tag(rels[n - 1]));
        lemma_rel_text(rels[n - 1]);
    }
}

/// The number of an id that is `rId` and a number is that number; further `rId` before an
/// id do not count; and an id without a number comes after all others.
pub proof fn law_number_of_an_id(id: Seq<char>, n: u32)
    ensures
        id_number("rId"@ + decimal(n as nat)) == n,
        id_number("rId"@ + id) == id_number(id),
        !has_prefix(id, "rId"@) && number_u32(id) is None ==> id_number(id) == u32::MAX,
        !has_prefix(id, "rId"@) && number_u32(id) == Some(n) ==> id_number(id) == n,
{
    reveal_strlit("rId");
    let d = decimal(n as nat);
    crate::text::law_decimal_reads_back(n as nat);
    let s = "rId"@ + d;
    assert(s.take(3) =~= "rId"@);
    assert(s.skip(3) =~= d);
    assert(crate::text::is_digit(d[0]));
    if has_prefix(d, "rId"@) {
        assert(d.take(3)[0] == d[0]);
    }
    assert(without_prefixes(s, "rId"@) == without_prefixes(d, "rId"@));
    let t = "rId"@ + id;
    assert(t.take(3) =~= "rId"@);
    assert(t.skip(3) =~= id);
}

/// Two relationships in the order of their numbers are written in that order.
pub proof fn lemma_sorted_pair(a: Rel, b: Rel)
    requires
        id_number(a.id) <= id_number(b.id),
    ensures
        sorted_rels(seq![a, b]) == seq![a, b],
        sorted_rels(seq![a]) == seq![a],
{
    assert(seq![a, b].drop_last() =~= seq![a]);
    assert(seq![a].drop_last() =~= Seq::<Rel>::empty());
    assert(sorted_rels(seq![a].drop_last()) == Seq::<Rel>::empty());
    assert(insert_sorted(Seq::<Rel>::empty(), a) =~= seq![a]);
    assert(sorted_rels(seq![a]) == seq![a]);
    assert(insert_sorted(seq![a], b) =~= seq![a, b]);
    assert(seq![a, b].last() == b);
    assert(sorted_rels(seq![a, b]) == insert_sorted(sorted_rels(seq![a, b].drop_last()), b));
}

proof fn lemma_rels_end()
    ensures
        document_end(rels_root()) == "</Relationships>"@,
{
    reveal_strlit("</");
    reveal_strlit("Relationships");
    reveal_strlit(">");
    reveal_strlit("</Relationships>");
    assert("</"@ + "Relationships"@ + ">"@ =~= "</Relationships>"@);
}

/// Two relationships in the order of their numbers, written out.
pub proof fn lemma_two_rels_xml(a: Rel, b: Rel)
    requires
        id_number(a.id) <= id_number(b.id),
        written_rel(a) == a,
        written_rel(b) == b,
    ensures
        rels_xml(seq![a, b]) == RELS_START@ + rel_text(a.id, a.ty, a.target) + rel_text(
            b.id,
            b.ty,
            b.target,
        ) + "</Relationships>"@,
        rels_xml(seq![a]) == RELS_START@ + rel_text(a.id, a.ty, a.target) + "</Relationships>"@,
{
    lemma_sorted_pair(a, b);
    lemma_rels_start();
    lemma_rels_end();
    let two = seq![a, b];
    let one = seq![a];
    lemma_rels_xml_text(two, 0);
    lemma_rels_xml_text(two, 1);
    lemma_rels_xml_text(two, 2);
    lemma_rels_xml_text(one, 0);
    lemma_rels_xml_text(one, 1);
    assert(rel_tags(two).take(2) =~= rel_tags(two));
    assert(rel_tags(one).take(1) =~= rel_tags(one));
    assert(written_rel(a).id == a.id && written_rel(a).ty == a.ty && written_rel(a).target
        == a.target);
    assert(written_rel(b).id == b.id && written_rel(b).ty == b.ty && written_rel(b).target
        == b.target);
    assert(rels_xml(two) =~= RELS_START@ + rel_text(a.id, a.ty, a.target) + rel_text(
        b.id,
        b.ty,
        b.target,
    ) + "</Relationships>"@);
    assert(rels_xml(one) =~= RELS_START@ + rel_text(a.id, a.ty, a.target) + "</Relationships>"@);
}

/// A relationship without special characters is written as it is.
pub proof fn lemma_plain_rel(r: Rel)
    requires
        plain_text(r.id),
        plain_text(r.ty),
        plain_text(r.target),
    ensures
        written_rel(r) == r,
{
    lemma_plain_text(r.id, true);
    lemma_plain_text(r.ty, true);
    lemma_plain_text(r.target, true);
}

// ---- what is read, tag by tag ----

/// Whether a tag has the three attributes of a relationship at the given positions, each the
/// first with its key, and they say `r`.
pub open spec fn says_rel(e: XmlItem, i: int, j: int, k: int, r: Rel) -> bool {
    &&& first_with_key(e.attributes, utf8("Id"@), i)
    &&& first_with_key(e.attributes, utf8("Type"@), j)
    &&& first_with_key(e.attributes, utf8("Target"@), k)
    &&& (e.attributes[i]->0).1 == utf8(r.id)
    &&& (e.attributes[j]->0).1 == utf8(r.ty)
    &&& (e.attributes[k]->0).1 == utf8(r.target)
}

/// A start or empty tag `Relationship` with an id, a type and a target is a relationship
/// with just these, wherever they stand and whatever else stands in the tag. Without one of
/// the three, or under another name, it is none.
pub proof fn law_relationship_is_what_its_tag_says(e: XmlItem)
    requires
        rel_decoded(e),
    ensures
        (e.kind == XmlKind::Start || e.kind == XmlKind::Empty) && e.name == utf8("Relationship"@)
            ==> forall|i: int, j: int, k: int, r: Rel|
            #[trigger] says_rel(e, i, j, k, r) ==> rel_in(e) == Some(r),
        rel_in(e) is Some <==> (e.kind == XmlKind::Start || e.kind == XmlKind::Empty) && e.name
            == utf8("Relationship"@) && !without_key(e.attributes, utf8("Id"@)) && !without_key(
            e.attributes,
            utf8("Type"@),
        ) && !without_key(e.attributes, utf8("Target"@)),
{
    law_first_attribute_is_read(e.attributes, utf8("Id"@));
    law_first_attribute_is_read(e.attributes, utf8("Type"@));
    law_first_attribute_is_read(e.attributes, utf8("Target"@));
    if (e.kind == XmlKind::Start || e.kind == XmlKind::Empty) && e.name == utf8("Relationship"@) {
        assert forall|i: int, j: int, k: int, r: Rel|
            #[trigger] says_rel(e, i, j, k, r) implies rel_in(e) == Some(r) by {
            law_attribute_text_is_read(e.attributes, utf8("Id"@), i, r.id);
            law_attribute_text_is_read(e.attributes, utf8("Type"@), j, r.ty);
            law_attribute_text_is_read(e.attributes, utf8("Target"@), k, r.target);
        }
    }
}

/// Whether `at` are the positions of the relationships among the events, in order.
pub open spec fn rel_positions(events: Seq<XmlItem>, at: Seq<int>) -> bool {
    &&& forall|i: int, j: int| 0 <= i < j < at.len() ==> #[trigger] at[i] < #[trigger] at[j]
    &&& forall|i: int|
        0 <= i < at.len() ==> 0 <= #[trigger] at[i] < events.len() && rel_in(events[at[i]]) is Some
    &&& forall|k: int|
        0 <= k < events.len() && rel_in(#[trigger] events[k]) is Some ==> at.contains(k)
}

proof fn lemma_rels_read(events: Seq<XmlItem>, at: Seq<int>, n: int, m: int)
    requires
        rel_positions(events, at),
        forall|i: int, j: int|
            0 <= i < j < at.len() ==> (rel_in(events[#[trigger] at[i]])->0).id != (rel_in(
                events[#[trigger] at[j]],
            )->0).id,
        0 <= n <= events.len(),
        0 <= m <= at.len(),
        forall|i: int| 0 <= i < m ==> #[trigger] at[i] < n,
        forall|i: int| m <= i < at.len() ==> #[trigger] at[i] >= n,
    ensures
        rels_in(events.take(n)).len() == m,
        forall|i: int|
            0 <= i < m ==> Some(#[trigger] rels_in(events.take(n))[i]) == rel_in(events[at[i]]),
    decreases n,
{
    if n == 0 {
        if m > 0 {
            assert(at[0] < n);
        }
    } else {
        let k = n - 1;
        assert(events.take(n).drop_last() =~= events.take(k));
        assert(events.take(n).last() == events[k]);
        if rel_in(events[k]) is Some {
            assert(at.contains(k));
            let q = choose|q: int| 0 <= q < at.len() && at[q] == k;
            assert(q < m) by {
                if q >= m {
                    assert(at[q] >= n);
                }
            }
            if q < m - 1 {
                assert(at[q] < at[m - 1]);
                assert(at[m - 1] < n);
            }
            assert(q == m - 1);
            assert forall|i: int| 0 <= i < m - 1 implies #[trigger] at[i] < k by {
                assert(at[i] < at[m - 1]);
            }
            assert forall|i: int| m - 1 <= i < at.len() implies #[trigger] at[i] >= k by {
                if i > m - 1 {
                    assert(at[m - 1] < at[i]);
                }
            }
            lemma_rels_read(events, at, k, m - 1);
            let before = rels_in(events.take(k));
            let r = rel_in(events[k])->0;
            assert(!has_id(before, r.id)) by {
                if has_id(before, r.id) {
                    let i = choose|i: int| 0 <= i < before.len() && (#[trigger] before[i]).id == r.id;
                    assert(Some(before[i]) == rel_in(events[at[i]]));
                    assert((rel_in(events[at[i]])->0).id != (rel_in(events[at[m - 1]])->0).id);
                }
            }
            let all = rels_in(events.take(n));
            assert(all == before.push(r));
            assert forall|i: int| 0 <= i < m implies Some(#[trigger] all[i]) == rel_in(
                events[at[i]],
            ) by {
                if i < m - 1 {
                    assert(all[i] == before[i]);
                }
            }
        } else {
            assert forall|i: int| 0 <= i < m implies #[trigger] at[i] < k by {
                assert(rel_in(events[at[i]]) is Some);
            }
            lemma_rels_read(events, at, k, m);
        }
    }
}

/// Every relationship of a part is read, however many there are, in document order, where
/// no id occurs twice.
pub proof fn law_every_relationship_of_a_part_is_read(xml: Seq<u8>, at: Seq<int>)
    requires
        rel_positions(xml_items(xml, true), at),
        forall|i: int, j: int|
            0 <= i < j < at.len() ==> (rel_in(xml_items(xml, true)[#[trigger] at[i]])->0).id != (
            rel_in(xml_items(xml, true)[#[trigger] at[j]])->0).id,
    ensures
        rels_of(xml).len() == at.len(),
        forall|i: int|
            0 <= i < at.len() ==> Some(#[trigger] rels_of(xml)[i]) == rel_in(
                xml_items(xml, true)[at[i]],
            ),
{
    law_every_relationship_is_read(xml_items(xml, true), at);
}

/// Every relationship among events is read, however many there are, in their order, where
/// no id occurs twice.
pub proof fn law_every_relationship_is_read(events: Seq<XmlItem>, at: Seq<int>)
    requires
        rel_positions(events, at),
        forall|i: int, j: int|
            0 <= i < j < at.len() ==> (rel_in(events[#[trigger] at[i]])->0).id != (rel_in(
                events[#[trigger] at[j]],
            )->0).id,
    ensures
        rels_in(events).len() == at.len(),
        forall|i: int|
            0 <= i < at.len() ==> Some(#[trigger] rels_in(events)[i]) == rel_in(events[at[i]]),
{
    let n = events.len() as int;
    assert(events.take(n) =~= events);
    lemma_rels_read(events, at, n, at.len() as int);
}

/// Whether an event holds a relationship with the given id.
pub open spec fn rel_with_id(e: XmlItem, id: Seq<char>) -> bool {
    rel_in(e) matches Some(r) && r.id == id
}

/// Under an id the last relationship of the part with that id is found.
pub proof fn law_last_relationship_of_an_id_holds(events: Seq<XmlItem>, k: int, id: Seq<char>)
    requires
        0 <= k < events.len(),
        rel_with_id(events[k], id),
        forall|m: int| k < m < events.len() ==> !rel_with_id(#[trigger] events[m], id),
    ensures
        find_rel(rels_in(events), id) == rel_in(events[k]),
    decreases events.len(),
{
    let init = events.drop_last();
    let n = events.len() - 1;
    let e = events[n];
    assert(e == events.last());
    if k < n {
        assert(!rel_with_id(events[n], id));
        assert(init[k] == events[k]);
        assert forall|m: int| k < m < init.len() implies !rel_with_id(#[trigger] init[m], id) by {
            assert(init[m] == events[m]);
        }
        law_last_relationship_of_an_id_holds(init, k, id);
    }
    if let Some(r) = rel_in(e) {
        law_put_rel_is_found(rels_in(init), r, id);
    }
}

/// Under an id that no relationship of the part has, nothing is found.
pub proof fn law_id_of_no_relationship_is_not_found(events: Seq<XmlItem>, id: Seq<char>)
    requires
        forall|m: int| 0 <= m < events.len() ==> !rel_with_id(#[trigger] events[m], id),
    ensures
        find_rel(rels_in(events), id) is None,
    decreases events.len(),
{
    if events.len() > 0 {
        let init = events.drop_last();
        let n = events.len() - 1;
        assert(events[n] == events.last());
        assert(!rel_with_id(events[n], id));
        assert forall|m: int| 0 <= m < init.len() implies !rel_with_id(#[trigger] init[m], id) by {
            assert(init[m] == events[m]);
        }
        law_id_of_no_relationship_is_not_found(init, id);
        if let Some(r) = rel_in(events.last()) {
            law_put_rel_is_found(rels_in(init), r, id);
        }
    }
}

/// Of the relationships whose type ends in a suffix the first is found, wherever it stands;
/// under an id the one with it is; and nothing is found only where there is none.
pub proof fn law_first_of_its_kind_is_found(rels: Seq<Rel>, i: int, word: Seq<char>)
    requires
        0 <= i < rels.len(),
    ensures
        (exists|head: Seq<char>| rels[i].ty == #[trigger] (head + word)) && (forall|k: int|
            0 <= k < i ==> !has_suffix((#[trigger] rels[k]).ty, word)) ==> find_type(rels, word)
            == Some(rels[i]),
        (forall|k: int| 0 <= k < rels.len() ==> !has_suffix((#[trigger] rels[k]).ty, word))
            ==> find_type(rels, word) is None,
        (forall|k: int| 0 <= k < i ==> (#[trigger] rels[k]).id != rels[i].id) ==> find_rel(
            rels,
            rels[i].id,
        ) == Some(rels[i]),
        (forall|k: int| 0 <= k < rels.len() ==> (#[trigger] rels[k]).id != word) ==> find_rel(
            rels,
            word,
        ) is None,
{
    if exists|head: Seq<char>| rels[i].ty == #[trigger] (head + word) {
        let head = choose|head: Seq<char>| rels[i].ty == #[trigger] (head + word);
        crate::text::law_prefix_and_suffix(word, head, word);
        assert(has_suffix(rels[i].ty, word));
        if forall|k: int| 0 <= k < i ==> !has_suffix((#[trigger] rels[k]).ty, word) {
            lemma_first_type(rels, i, word);
        }
    }
    if forall|k: int| 0 <= k < rels.len() ==> !has_suffix((#[trigger] rels[k]).ty, word) {
        lemma_no_type(rels, word);
    }
    if forall|k: int| 0 <= k < i ==> (#[trigger] rels[k]).id != rels[i].id {
        lemma_find_at(rels, rels[i].id, i);
    }
    if forall|k: int| 0 <= k < rels.len() ==> (#[trigger] rels[k]).id != word {
        lemma_find_none(rels, word);
    }
}

proof fn lemma_first_type(rels: Seq<Rel>, i: int, suffix: Seq<char>)
    requires
        0 <= i < rels.len(),
        has_suffix(rels[i].ty, suffix),
        forall|k: int| 0 <= k < i ==> !has_suffix((#[trigger] rels[k]).ty, suffix),
    ensures
        find_type(rels, suffix) == Some(rels[i]),
    decreases rels.len(),
{
    if i > 0 {
        let rest = rels.drop_first();
        assert(!has_suffix(rels[0].ty, suffix));
        assert forall|k: int| 0 <= k < i - 1 implies !has_suffix((#[trigger] rest[k]).ty, suffix) by {
            assert(rest[k] == rels[k + 1]);
        }
        assert(rest[i - 1] == rels[i]);
        lemma_first_type(rest, i - 1, suffix);
    }
}

proof fn lemma_no_type(rels: Seq<Rel>, suffix: Seq<char>)
    requires
        forall|k: int| 0 <= k < rels.len() ==> !has_suffix((#[trigger] rels[k]).ty, suffix),
    ensures
        find_type(rels, suffix) is None,
    decreases rels.len(),
{
    if rels.len() > 0 {
        let rest = rels.drop_first();
        assert(!has_suffix(rels[0].ty, suffix));
        assert forall|k: int| 0 <= k < rest.len() implies !has_suffix((#[trigger] rest[k]).ty, suffix) by {
            assert(rest[k] == rels[k + 1]);
        }
        lemma_no_type(rest, suffix);
    }
}

/// A new id is `rId` and the least number from 1 on with which it is not in use.
pub proof fn law_next_rid_is_least(rels: Seq<Rel>)
    ensures
        exists|n: nat|
            n >= 1 && next_rid(rels) == #[trigger] ("rId"@ + decimal(n)) && forall|m: nat|
                1 <= m < n ==> has_id(rels, #[trigger] ("rId"@ + decimal(m))),
        !has_id(rels, next_rid(rels)),
{
    let none = Seq::<char>::empty();
    crate::numbering::law_free_number_is_least(ids(rels), "rId"@, none);
    lemma_has_id(rels, next_rid(rels));
    let n = free_number(ids(rels), "rId"@, none);
    assert(next_rid(rels) =~= "rId"@ + decimal(n));
    assert forall|m: nat| 1 <= m < n implies has_id(rels, #[trigger] ("rId"@ + decimal(m))) by {
        assert(numbered("rId"@, m, none) =~= "rId"@ + decimal(m));
        assert(ids(rels).contains(numbered("rId"@, m, none)));
        lemma_has_id(rels, "rId"@ + decimal(m));
    }
}

// ---- paths, segment by segment ----

/// `n` times `..`.
pub open spec fn steps_up(n: nat) -> Seq<Seq<char>> {
    Seq::new(n, |i: int| ".."@)
}

/// Whether all are names that stand for themselves in a path.
pub open spec fn path_names(segments: Seq<Seq<char>>) -> bool {
    forall|i: int|
        0 <= i < segments.len() ==> (#[trigger] segments[i]).len() > 0 && !segments[i].contains('/')
            && segments[i] != "."@ && segments[i] != ".."@
}

proof fn lemma_walked_concat(at: Seq<Seq<char>>, a: Seq<Seq<char>>, b: Seq<Seq<char>>)
    ensures
        walked(at, a + b) == walked(walked(at, a), b),
    decreases b.len(),
{
    if b.len() == 0 {
        assert(a + b =~= a);
    } else {
        lemma_walked_concat(at, a, b.drop_last());
        assert((a + b).drop_last() =~= a + b.drop_last());
        assert((a + b).last() == b.last());
    }
}

proof fn lemma_walked_up(at: Seq<Seq<char>>, n: nat)
    ensures
        walked(at, steps_up(n)) == at.take(if n <= at.len() {
            at.len() - n
        } else {
            0
        }),
    decreases n,
{
    if n == 0 {
        assert(at.take(at.len() as int) =~= at);
    } else {
        lemma_walked_up(at, (n - 1) as nat);
        let up = steps_up(n);
        assert(up.drop_last() =~= steps_up((n - 1) as nat));
        assert(up.last() == ".."@);
    }
}

proof fn lemma_walked_names(at: Seq<Seq<char>>, names: Seq<Seq<char>>)
    requires
        path_names(names),
    ensures
        walked(at, names) == at + names,
    decreases names.len(),
{
    if names.len() == 0 {
        assert(at + names =~= at);
    } else {
        let init = names.drop_last();
        assert forall|i: int| 0 <= i < init.len() implies (#[trigger] init[i]).len() > 0
            && !init[i].contains('/') && init[i] != "."@ && init[i] != ".."@ by {
            assert(init[i] == names[i]);
        }
        lemma_walked_names(at, init);
        assert(names[names.len() - 1] == names.last());
        assert((at + init).push(names.last()) =~= at + names);
    }
}

proof fn lemma_nonempty_names(names: Seq<Seq<char>>)
    requires
        path_names(names),
    ensures
        nonempty(names) == names,
    decreases names.len(),
{
    if names.len() > 0 {
        let init = names.drop_last();
        assert forall|i: int| 0 <= i < init.len() implies (#[trigger] init[i]).len() > 0
            && !init[i].contains('/') && init[i] != "."@ && init[i] != ".."@ by {
            assert(init[i] == names[i]);
        }
        lemma_nonempty_names(init);
        assert(names[names.len() - 1] == names.last());
        assert(init.push(names.last()) =~= names);
    }
}

proof fn lemma_base_names(dirs: Seq<Seq<char>>)
    requires
        path_names(dirs),
    ensures
        nonempty(split(joined(dirs, '/'), '/')) == dirs,
{
    if dirs.len() == 0 {
        let pieces = split(joined(dirs, '/'), '/');
        assert(pieces =~= seq![Seq::<char>::empty()]);
        assert(nonempty(pieces.drop_last()) == Seq::<Seq<char>>::empty());
        assert(nonempty(pieces) =~= dirs);
    } else {
        law_joined_pieces_split_again(dirs, '/');
        lemma_nonempty_names(dirs);
    }
}

/// From a directory, a target that goes up `ups` times and then down along `names` leads to
/// the directory without its last `ups` names, followed by `names`, however many there are.
pub proof fn law_target_goes_up_and_down(dirs: Seq<Seq<char>>, ups: nat, names: Seq<Seq<char>>)
    requires
        path_names(dirs),
        path_names(names),
        names.len() > 0,
    ensures
        resolved(joined(dirs, '/'), joined(steps_up(ups) + names, '/')) == joined(
            dirs.take(if ups <= dirs.len() {
                dirs.len() - ups
            } else {
                0
            }) + names,
            '/',
        ),
{
    let segments = steps_up(ups) + names;
    reveal_strlit("..");
    assert forall|i: int| 0 <= i < segments.len() implies !(#[trigger] segments[i]).contains('/') by {
        if i < ups {
            assert(segments[i] == ".."@);
        } else {
            assert(segments[i] == names[i - ups]);
        }
    }
    law_joined_pieces_split_again(segments, '/');
    lemma_base_names(dirs);
    lemma_walked_concat(dirs, steps_up(ups), names);
    lemma_walked_up(dirs, ups);
    lemma_walked_names(walked(dirs, steps_up(ups)), names);
}

/// In a target, `.` and empty segments change nothing, wherever they stand, and a name
/// followed by `..` changes nothing either.
pub proof fn law_idle_segments_do_not_matter(
    base_dir: Seq<char>,
    a: Seq<Seq<char>>,
    name: Seq<char>,
    b: Seq<Seq<char>>,
)
    requires
        a.len() + b.len() > 0,
        forall|i: int| 0 <= i < a.len() ==> !(#[trigger] a[i]).contains('/'),
        forall|i: int| 0 <= i < b.len() ==> !(#[trigger] b[i]).contains('/'),
        path_names(seq![name]),
    ensures
        resolved(base_dir, joined(a + seq!["."@] + b, '/')) == resolved(
            base_dir,
            joined(a + b, '/'),
        ),
        resolved(base_dir, joined(a + seq![Seq::<char>::empty()] + b, '/')) == resolved(
            base_dir,
            joined(a + b, '/'),
        ),
        resolved(base_dir, joined(a + seq![name, ".."@] + b, '/')) == resolved(
            base_dir,
            joined(a + b, '/'),
        ),
{
    reveal_strlit(".");
    reveal_strlit("..");
    let dot = seq!["."@];
    let none = seq![Seq::<char>::empty()];
    let back = seq![name, ".."@];
    assert(seq![name][0] == name);
    let base = nonempty(split(base_dir, '/'));
    lemma_segments_free(a, b, Seq::<Seq<char>>::empty());
    assert(a + Seq::<Seq<char>>::empty() + b =~= a + b);
    lemma_segments_free(a, b, dot);
    lemma_segments_free(a, b, none);
    lemma_segments_free(a, b, back);
    law_joined_pieces_split_again(a + b, '/');
    law_joined_pieces_split_again(a + dot + b, '/');
    law_joined_pieces_split_again(a + none + b, '/');
    law_joined_pieces_split_again(a + back + b, '/');
    lemma_walked_concat(base, a, b);
    lemma_walked_concat(base, a + dot, b);
    lemma_walked_concat(base, a, dot);
    lemma_walked_concat(base, a + none, b);
    lemma_walked_concat(base, a, none);
    lemma_walked_concat(base, a + back, b);
    lemma_walked_concat(base, a, back);
    let at = walked(base, a);
    let empty = Seq::<Seq<char>>::empty();
    assert(dot.drop_last() =~= empty);
    assert(none.drop_last() =~= empty);
    assert(walked(at, empty) == at);
    assert("."@.len() == 1 && ".."@.len() == 2);
    assert(walked(at, dot) == at);
    assert(walked(at, none) == at);
    let one = back.drop_last();
    assert(one =~= seq![name]);
    assert(one.drop_last() =~= empty);
    assert(walked(at, one) == at.push(name));
    assert(at.push(name).drop_last() =~= at);
    assert(walked(at, back) == at);
}

proof fn lemma_segments_free(a: Seq<Seq<char>>, b: Seq<Seq<char>>, x: Seq<Seq<char>>)
    requires
        forall|i: int| 0 <= i < a.len() ==> !(#[trigger] a[i]).contains('/'),
        forall|i: int| 0 <= i < b.len() ==> !(#[trigger] b[i]).contains('/'),
        forall|i: int| 0 <= i < x.len() ==> !(#[trigger] x[i]).contains('/'),
    ensures
        forall|i: int| 0 <= i < (a + x + b).len() ==> !(#[trigger] (a + x + b)[i]).contains('/'),
{
    let all = a + x + b;
    assert forall|i: int| 0 <= i < all.len() implies !(#[trigger] all[i]).contains('/') by {
        if i < a.len() {
            assert(all[i] == a[i]);
        } else if i < a.len() + x.len() {
            assert(all[i] == x[i - a.len()]);
        } else {
            assert(all[i] == b[i - a.len() - x.len()]);
        }
    }
}

/// From one directory of the package into another beside it.
pub proof fn lemma_directory_beside(d: Seq<char>, into: Seq<char>, name: Seq<char>)
    requires
        path_names(seq![d]),
        path_names(seq![into, name]),
    ensures
        resolved("ppt"@.push('/') + d, ".."@.push('/') + into.push('/') + name) == "ppt"@.push('/')
            + into.push('/') + name,
{
    let dirs = seq!["ppt"@, d];
    let names = seq![into, name];
    assert(path_names(dirs)) by {
        reveal_strlit("ppt");
        reveal_strlit(".");
        reveal_strlit("..");
        assert("ppt"@.len() == 3 && "."@.len() == 1 && ".."@.len() == 2);
        assert(!"ppt"@.contains('/'));
        assert(seq![d][0] == d);
        assert(dirs[0] == "ppt"@ && dirs[1] == d);
    }
    law_target_goes_up_and_down(dirs, 1, names);
    assert(dirs.drop_last() =~= seq!["ppt"@]);
    assert(joined(seq!["ppt"@], '/') == "ppt"@);
    assert(joined(dirs, '/') =~= "ppt"@.push('/') + d);
    let segments = steps_up(1) + names;
    assert(segments =~= seq![".."@, into, name]);
    assert(segments.drop_last() =~= seq![".."@, into]);
    assert(segments.drop_last().drop_last() =~= seq![".."@]);
    assert(joined(seq![".."@], '/') == ".."@);
    assert(joined(seq![".."@, into], '/') =~= ".."@.push('/') + into);
    assert(joined(segments, '/') =~= ".."@.push('/') + into.push('/') + name);
    let path = dirs.take(1) + names;
    assert(path =~= seq!["ppt"@, into, name]);
    assert(path.drop_last() =~= seq!["ppt"@, into]);
    assert(path.drop_last().drop_last() =~= seq!["ppt"@]);
    assert(joined(seq!["ppt"@, into], '/') =~= "ppt"@.push('/') + into);
    assert(joined(path, '/') =~= "ppt"@.push('/') + into.push('/') + name);
}

/// Every relationship that is written is read, and as many are read as are written: with its
/// id, its type and its target as they were, once their entities are turned back into
/// characters.
pub proof fn law_written_relationship_is_read(rels: Seq<Rel>, xml: Seq<u8>, i: int)
    requires
        distinct_ids(rels),
        xml == utf8(rels_xml(rels)),
        reads_written_rels(xml, rels_of(xml)),
        0 <= i < rels.len(),
    ensures
        rels_of(xml).len() == rels.len(),
        exists|k: int| 0 <= k < rels_of(xml).len() && reads_as(#[trigger] rels_of(xml)[k], rels[i]),
{
    let sorted = sorted_rels(rels);
    let r = rels[i];
    assert(rels_of(xml) == written_rels(rels));
    lemma_sorted_len(rels);
    lemma_sorted_contains(rels, r);
    assert(rels.contains(r));
    let k = choose|k: int| 0 <= k < sorted.len() && sorted[k] == r;
    lemma_reads_as(r);
    assert(rels_of(xml)[k] == written_rel(sorted[k]));
}

/// Whether a relationship that was read says what another does.
pub open spec fn reads_as(read: Rel, r: Rel) -> bool {
    unescaped(read.id) == r.id && unescaped(read.ty) == r.ty && unescaped(read.target) == r.target
}

proof fn lemma_reads_as(r: Rel)
    ensures
        reads_as(written_rel(r), r),
{
    law_escaped_reads_back(r.id, true);
    law_escaped_reads_back(r.ty, true);
    law_escaped_reads_back(r.target, true);
}

proof fn lemma_insert_len(sorted: Seq<Rel>, r: Rel)
    ensures
        insert_sorted(sorted, r).len() == sorted.len() + 1,
    decreases sorted.len(),
{
    if sorted.len() > 0 && id_number(sorted.last().id) > id_number(r.id) {
        lemma_insert_len(sorted.drop_last(), r);
    }
}

proof fn lemma_sorted_len(rels: Seq<Rel>)
    ensures
        sorted_rels(rels).len() == rels.len(),
    decreases rels.len(),
{
    if rels.len() > 0 {
        lemma_sorted_len(rels.drop_last());
        lemma_insert_len(sorted_rels(rels.drop_last()), rels.last());
    }
}

} // verus!
