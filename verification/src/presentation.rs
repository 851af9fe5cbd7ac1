//! The presentation part: which slide is on which page.

use crate::archive::{archive_directory, read_entry, readable_entry, ZipDirectory};
use crate::rels::{
    find_rel, get_rels_map, law_id_of_no_relationship_is_not_found,
    law_last_relationship_of_an_id_holds, reads_written_rels, rel_in, rel_with_id, rels_of, Rel,
    RelMap,
};
use crate::text::{same_bytes, strings, utf8};
use crate::xml::{
    attribute_decoded, attribute_value, first_with_key, get_attr, items, law_attribute_text_is_read,
    law_first_attribute_is_read, read_events, reads_insets, without_key, xml_items, xml_stream,
    XmlEvent, XmlItem, XmlKind,
};
use std::collections::HashMap;
use std::io::Cursor;
use vstd::prelude::*;
use vstd::string::StringExecFns;
use zip::ZipArchive;

verus! {

broadcast use vstd::std_specs::hash::group_hash_axioms;

/// Whether the slide list is open after the given events.
pub open spec fn in_slide_list(events: Seq<XmlItem>) -> bool
    decreases events.len(),
{
    if events.len() == 0 {
        false
    } else if events.last().name == utf8("p:sldIdLst"@) && events.last().kind == XmlKind::Start {
        true
    } else if events.last().name == utf8("p:sldIdLst"@) && events.last().kind == XmlKind::End {
        false
    } else {
        in_slide_list(events.drop_last())
    }
}

/// The relationship ids of the slides in a list of events, in order: those of the
/// tags `p:sldId` inside the slide list.
pub open spec fn slide_rids_in(events: Seq<XmlItem>) -> Seq<Seq<char>>
    decreases events.len(),
{
    if events.len() == 0 {
        Seq::empty()
    } else {
        let before = slide_rids_in(events.drop_last());
        let e = events.last();
        if in_slide_list(events.drop_last()) && e.name == utf8("p:sldId"@) && (e.kind
            == XmlKind::Start || e.kind == XmlKind::Empty) {
            match attribute_value(e.attributes, utf8("r:id"@)) {
                Some(rid) => before.push(rid),
                None => before,
            }
        } else {
            before
        }
    }
}

/// The relationship ids of the slides in a presentation part.
pub open spec fn slide_rids(xml: Seq<u8>) -> Seq<Seq<char>> {
    slide_rids_in(xml_items(xml, true))
}

/// Whether the relationship ids of the slides in a list of events are read as the texts they
/// are.
pub open spec fn rids_decoded(events: Seq<XmlItem>) -> bool {
    forall|k: int|
        0 <= k < events.len() && in_slide_list(events.take(k)) && (#[trigger] events[k]).name
            == utf8("p:sldId"@) && (events[k].kind == XmlKind::Start || events[k].kind
            == XmlKind::Empty) ==> attribute_decoded(events[k].attributes, utf8("r:id"@))
}

/// The relationship ids of the slides in a list of events, as [`slide_rids_in`] says.
pub fn collect_slide_rids(events: &Vec<XmlEvent>) -> (r: Vec<String>)
    ensures
        strings(r@) == slide_rids_in(items(events@)),
        rids_decoded(items(events@)),
{
    let mut in_list = false;
    let mut rids: Vec<String> = Vec::new();
    let mut i: usize = 0;
    proof {
        lemma_list_names_differ();
    }
    assert(strings(rids@) =~= slide_rids_in(items(events@).take(0)));
    while i < events.len()
        invariant
            i <= events@.len(),
            in_list == in_slide_list(items(events@).take(i as int)),
            strings(rids@) == slide_rids_in(items(events@).take(i as int)),
            forall|k: int|
                0 <= k < i && in_slide_list(items(events@).take(k)) && (
                #[trigger] items(events@)[k]).name == utf8("p:sldId"@) && (items(events@)[k].kind
                    == XmlKind::Start || items(events@)[k].kind == XmlKind::Empty)
                    ==> attribute_decoded(items(events@)[k].attributes, utf8("r:id"@)),
            utf8("p:sldIdLst"@) != utf8("p:sldId"@),
        decreases events@.len() - i,
    {
        let e = &events[i];
        let ghost all = items(events@);
        assert(all.take(i + 1).drop_last() == all.take(i as int));
        assert(all.take(i + 1).last() == e@);
        let is_list = same_bytes(e.name.as_slice(), "p:sldIdLst".as_bytes());
        let is_slide = same_bytes(e.name.as_slice(), "p:sldId".as_bytes());
        if e.kind == XmlKind::Start && is_list {
            in_list = true;
        }
        if in_list && is_slide && (e.kind == XmlKind::Start || e.kind == XmlKind::Empty) {
            match get_attr(e, "r:id".as_bytes()) {
                Some(rid) => {
                    let ghost before = rids@;
                    rids.push(rid);
                    assert(strings(rids@) =~= strings(before).push(rid@));
                },
                None => {},
            }
        }
        if e.kind == XmlKind::End && is_list {
            in_list = false;
        }
        i = i + 1;
    }
    assert(items(events@).take(i as int) == items(events@));
    rids
}

proof fn lemma_list_names_differ()
    ensures
        utf8("p:sldIdLst"@) != utf8("p:sldId"@),
{
    reveal_strlit("p:sldIdLst");
    reveal_strlit("p:sldId");
    assert("p:sldIdLst"@.len() != "p:sldId"@.len());
    vstd::utf8::encode_utf8_decode_utf8("p:sldIdLst"@);
    vstd::utf8::encode_utf8_decode_utf8("p:sldId"@);
}

/// The relationship ids of the slides in a presentation part, in page order.
pub fn get_slide_rids_in_order(xml: &[u8]) -> (r: Vec<String>)
    ensures
        strings(r@) == slide_rids(xml@),
        rids_decoded(xml_items(xml@, true)),
        reads_insets(xml@, true, xml_stream(xml@, true)),
{
    let (events, _) = read_events(xml, true);
    collect_slide_rids(&events)
}

/// The path of the slide on each page: the target of the page's relationship.
/// A page whose relationship is missing has none.
pub open spec fn slide_paths(rids: Seq<Seq<char>>, rels: Seq<Rel>) -> Map<u32, Seq<char>>
    decreases rids.len(),
{
    if rids.len() == 0 {
        Map::empty()
    } else {
        let before = slide_paths(rids.drop_last(), rels);
        match find_rel(rels, rids.last()) {
            Some(r) => before.insert(rids.len() as u32, "ppt/"@ + r.target),
            None => before,
        }
    }
}

/// What a map of paths says.
pub open spec fn paths(m: Map<u32, String>) -> Map<u32, Seq<char>> {
    m.map_values(|s: String| s@)
}

/// The path of the slide on each page, as [`slide_paths`] says.
pub fn map_slide_paths(rids: &Vec<String>, rels: &RelMap) -> (r: HashMap<u32, String>)
    ensures
        paths(r@) == slide_paths(strings(rids@), rels@),
{
    let mut map: HashMap<u32, String> = HashMap::new();
    let mut i: usize = 0;
    assert(paths(map@) =~= slide_paths(strings(rids@).take(0), rels@));
    while i < rids.len()
        invariant
            i <= rids@.len(),
            paths(map@) == slide_paths(strings(rids@).take(i as int), rels@),
        decreases rids@.len() - i,
    {
        let ghost all = strings(rids@);
        assert(all.take(i + 1).drop_last() == all.take(i as int));
        assert(all.take(i + 1).last() == rids@[i as int]@);
        match rels.target(rids[i].as_str()) {
            Some(target) => {
                let mut path = "ppt/".to_string();
                path.append(target.as_str());
                let ghost before = map@;
                map.insert((i + 1) as u32, path);
                assert(paths(map@) =~= paths(before).insert((i + 1) as u32, path@));
            },
            None => {},
        }
        i = i + 1;
    }
    assert(strings(rids@).take(i as int) == strings(rids@));
    map
}

pub const PRESENTATION: &'static str = "ppt/presentation.xml";

pub const PRESENTATION_RELS: &'static str = "ppt/_rels/presentation.xml.rels";

pub const NO_PRESENTATION: &'static str = "presentation.xml 읽기 실패";

pub const NO_PRESENTATION_RELS: &'static str = "presentation.xml.rels 읽기 실패";

/// The path of the slide on each page of a package, or which part is missing.
pub open spec fn slides_of(dir: ZipDirectory) -> Result<Map<u32, Seq<char>>, Seq<char>> {
    match readable_entry(dir, PRESENTATION@) {
        None => Err(NO_PRESENTATION@),
        Some(xml) => match readable_entry(dir, PRESENTATION_RELS@) {
            None => Err(NO_PRESENTATION_RELS@),
            Some(rels_xml) => Ok(slide_paths(slide_rids(xml), rels_of(rels_xml))),
        },
    }
}

/// What reading a deck is sure of: that markup put into the presentation is read as it is,
/// and relationships as they were written, should the parts have been made so.
pub open spec fn deck_reads(dir: ZipDirectory) -> bool {
    slides_of(dir) is Ok ==> {
        let xml = readable_entry(dir, PRESENTATION@)->0;
        let rels_xml = readable_entry(dir, PRESENTATION_RELS@)->0;
        reads_insets(xml, true, xml_stream(xml, true)) && reads_written_rels(
            rels_xml,
            rels_of(rels_xml),
        )
    }
}

/// The path of the slide on each page of a package, as [`slides_of`] says.
pub fn build_slide_path_by_page(archive: &mut ZipArchive<Cursor<Vec<u8>>>) -> (r: Result<
    HashMap<u32, String>,
    String,
>)
    ensures
        archive_directory(*final(archive)) == archive_directory(*old(archive)),
        match r {
            Ok(m) => slides_of(archive_directory(*old(archive))) == Ok::<
                Map<u32, Seq<char>>,
                Seq<char>,
            >(paths(m@)),
            Err(e) => slides_of(archive_directory(*old(archive))) == Err::<
                Map<u32, Seq<char>>,
                Seq<char>,
            >(e@),
        },
        deck_reads(archive_directory(*old(archive))),
{
    match read_entry(archive, PRESENTATION) {
        None => Err(NO_PRESENTATION.to_string()),
        Some(xml) => {
            let rids = get_slide_rids_in_order(xml.as_slice());
            match read_entry(archive, PRESENTATION_RELS) {
                None => Err(NO_PRESENTATION_RELS.to_string()),
                Some(rels_xml) => {
                    let rels = get_rels_map(rels_xml.as_slice());
                    Ok(map_slide_paths(&rids, &rels))
                },
            }
        },
    }
}

/// Whether the slide list is open at event `k`: a start tag `p:sldIdLst` stands before it,
/// with no start or end tag of that name in between.
pub open spec fn list_open_at(events: Seq<XmlItem>, k: int) -> bool {
    exists|s: int| #[trigger] list_opened_by(events, s, k)
}

pub open spec fn list_opened_by(events: Seq<XmlItem>, s: int, k: int) -> bool {
    &&& 0 <= s < k
    &&& events[s].kind == XmlKind::Start
    &&& events[s].name == utf8("p:sldIdLst"@)
    &&& forall|m: int|
        s < m < k ==> !((#[trigger] events[m]).name == utf8("p:sldIdLst"@) && (events[m].kind
            == XmlKind::Start || events[m].kind == XmlKind::End))
}

/// Whether event `k` is a start or empty tag `p:sldId` in the slide list with an `r:id`.
pub open spec fn slide_tag_at(events: Seq<XmlItem>, k: int) -> bool {
    &&& 0 <= k < events.len()
    &&& events[k].kind == XmlKind::Start || events[k].kind == XmlKind::Empty
    &&& events[k].name == utf8("p:sldId"@)
    &&& !without_key(events[k].attributes, utf8("r:id"@))
    &&& list_open_at(events, k)
}

proof fn lemma_list_open(events: Seq<XmlItem>)
    ensures
        in_slide_list(events) == list_open_at(events, events.len() as int),
    decreases events.len(),
{
    let n = events.len() as int;
    if n > 0 {
        let init = events.drop_last();
        let e = events.last();
        let named = e.name == utf8("p:sldIdLst"@);
        lemma_list_open(init);
        if named && e.kind == XmlKind::Start {
            assert(list_opened_by(events, n - 1, n));
        } else if !(named && e.kind == XmlKind::End) {
            if list_open_at(init, n - 1) {
                let s = choose|s: int| #[trigger] list_opened_by(init, s, n - 1);
                assert(init[s] == events[s]);
                assert forall|m: int| s < m < n implies !((#[trigger] events[m]).name == utf8(
                    "p:sldIdLst"@,
                ) && (events[m].kind == XmlKind::Start || events[m].kind == XmlKind::End)) by {
                    if m < n - 1 {
                        assert(init[m] == events[m]);
                    }
                }
                assert(list_opened_by(events, s, n));
            }
            if list_open_at(events, n) {
                let s = choose|s: int| #[trigger] list_opened_by(events, s, n);
                assert(s < n - 1);
                assert(init[s] == events[s]);
                assert forall|m: int| s < m < n - 1 implies !((#[trigger] init[m]).name == utf8(
                    "p:sldIdLst"@,
                ) && (init[m].kind == XmlKind::Start || init[m].kind == XmlKind::End)) by {
                    assert(init[m] == events[m]);
                }
                assert(list_opened_by(init, s, n - 1));
            }
        } else {
            if list_open_at(events, n) {
                let s = choose|s: int| #[trigger] list_opened_by(events, s, n);
                assert(s < n - 1);
                assert(events[n - 1] == e);
            }
        }
    }
}

proof fn lemma_list_open_at(events: Seq<XmlItem>, k: int)
    requires
        0 <= k <= events.len(),
    ensures
        in_slide_list(events.take(k)) == list_open_at(events, k),
{
    let part = events.take(k);
    lemma_list_open(part);
    if list_open_at(part, k) {
        let s = choose|s: int| #[trigger] list_opened_by(part, s, k);
        assert(part[s] == events[s]);
        assert forall|m: int| s < m < k implies !((#[trigger] events[m]).name == utf8(
            "p:sldIdLst"@,
        ) && (events[m].kind == XmlKind::Start || events[m].kind == XmlKind::End)) by {
            assert(part[m] == events[m]);
        }
        assert(list_opened_by(events, s, k));
    }
    if list_open_at(events, k) {
        let s = choose|s: int| #[trigger] list_opened_by(events, s, k);
        assert(part[s] == events[s]);
        assert forall|m: int| s < m < k implies !((#[trigger] part[m]).name == utf8("p:sldIdLst"@)
            && (part[m].kind == XmlKind::Start || part[m].kind == XmlKind::End)) by {
            assert(part[m] == events[m]);
        }
        assert(list_opened_by(part, s, k));
    }
}

/// Whether `at` are the positions of the tags of the slides, in document order.
#[verifier::opaque]
pub open spec fn slide_tags(events: Seq<XmlItem>, at: Seq<int>) -> bool {
    &&& forall|i: int, j: int| 0 <= i < j < at.len() ==> #[trigger] at[i] < #[trigger] at[j]
    &&& forall|i: int| 0 <= i < at.len() ==> slide_tag_at(events, #[trigger] at[i])
    &&& forall|k: int| #[trigger] slide_tag_at(events, k) ==> at.contains(k)
}

proof fn lemma_slide_tags(events: Seq<XmlItem>, n: int, at: Seq<int>)
    requires
        0 <= n <= events.len(),
        forall|i: int, j: int| 0 <= i < j < at.len() ==> #[trigger] at[i] < #[trigger] at[j],
        forall|i: int| 0 <= i < at.len() ==> slide_tag_at(events, #[trigger] at[i]) && at[i] < n,
        forall|k: int| #[trigger] slide_tag_at(events, k) && k < n ==> at.contains(k),
    ensures
        slide_rids_in(events.take(n)).len() == at.len(),
        forall|i: int|
            0 <= i < at.len() ==> Some(#[trigger] slide_rids_in(events.take(n))[i])
                == attribute_value(events[at[i]].attributes, utf8("r:id"@)),
    decreases n,
{
    if n == 0 {
        if at.len() > 0 {
            assert(slide_tag_at(events, at[0]));
        }
    } else {
        let k = n - 1;
        let e = events[k];
        assert(events.take(n).drop_last() == events.take(k));
        assert(events.take(n).last() == e);
        lemma_list_open_at(events, k);
        law_first_attribute_is_read(e.attributes, utf8("r:id"@));
        if slide_tag_at(events, k) {
            assert(at.contains(k));
            let m = choose|m: int| 0 <= m < at.len() && at[m] == k;
            if m < at.len() - 1 {
                assert(at[m] < at[at.len() - 1]);
                assert(at[at.len() - 1] < n);
            }
            let less = at.drop_last();
            assert forall|i: int, j: int| 0 <= i < j < less.len() implies #[trigger] less[i]
                < #[trigger] less[j] by {
                assert(less[i] == at[i] && less[j] == at[j]);
            }
            assert forall|i: int| 0 <= i < less.len() implies slide_tag_at(events, #[trigger] less[i])
                && less[i] < k by {
                assert(less[i] == at[i]);
                assert(at[i] < at[at.len() - 1]);
            }
            assert forall|p: int| #[trigger] slide_tag_at(events, p) && p < k implies less.contains(
                p,
            ) by {
                assert(at.contains(p));
                let q = choose|q: int| 0 <= q < at.len() && at[q] == p;
                assert(less[q] == p);
            }
            lemma_slide_tags(events, k, less);
            let before = slide_rids_in(events.take(k));
            let all = slide_rids_in(events.take(n));
            assert(all == before.push(attribute_value(e.attributes, utf8("r:id"@))->0));
            assert forall|i: int| 0 <= i < at.len() implies Some(#[trigger] all[i])
                == attribute_value(events[at[i]].attributes, utf8("r:id"@)) by {
                if i < less.len() {
                    assert(all[i] == before[i]);
                    assert(less[i] == at[i]);
                }
            }
        } else {
            assert forall|i: int| 0 <= i < at.len() implies slide_tag_at(events, #[trigger] at[i])
                && at[i] < k by {
                assert(at[i] != k);
            }
            lemma_slide_tags(events, k, at);
        }
    }
}

proof fn lemma_all_slide_tags(events: Seq<XmlItem>, at: Seq<int>)
    requires
        slide_tags(events, at),
    ensures
        slide_rids_in(events).len() == at.len(),
        forall|i: int|
            0 <= i < at.len() ==> Some(#[trigger] slide_rids_in(events)[i]) == attribute_value(
                events[at[i]].attributes,
                utf8("r:id"@),
            ),
{
    reveal(slide_tags);
    let n = events.len() as int;
    assert(events.take(n) == events);
    lemma_slide_tags(events, n, at);
}

proof fn lemma_slide_tag(events: Seq<XmlItem>, at: Seq<int>, i: int)
    requires
        slide_tags(events, at),
        0 <= i < at.len(),
    ensures
        slide_tag_at(events, at[i]),
{
    reveal(slide_tags);
}

/// Every tag `p:sldId` in the slide list that has an `r:id` gives one page, however many
/// there are: there are as many ids as such tags, and the id at `i` is the `r:id` of the
/// tag at `i` in document order.
pub proof fn law_every_slide_tag_gives_a_page(
    events: Seq<XmlItem>,
    at: Seq<int>,
    i: int,
    j: int,
    id: Seq<char>,
)
    requires
        slide_tags(events, at),
        rids_decoded(events),
    ensures
        slide_rids_in(events).len() == at.len(),
        0 <= i < at.len() && first_with_key(events[at[i]].attributes, utf8("r:id"@), j) && (
        events[at[i]].attributes[j]->0).1 == utf8(id) ==> slide_rids_in(events)[i] == id,
{
    let key = utf8("r:id"@);
    lemma_all_slide_tags(events, at);
    if 0 <= i < at.len() && first_with_key(events[at[i]].attributes, key, j) && (
    events[at[i]].attributes[j]->0).1 == utf8(id) {
        let k = at[i];
        lemma_slide_tag(events, at, i);
        lemma_list_open_at(events, k);
        assert(in_slide_list(events.take(k)));
        assert(attribute_decoded(events[k].attributes, key));
        law_attribute_text_is_read(events[k].attributes, key, j, id);
        assert(Some(slide_rids_in(events)[i]) == attribute_value(events[k].attributes, key));
    }
}

/// In a deck whose pages fit in 32 bits, page `p` shows what the `p`-th slide's
/// relationship points to, and no other page has a slide.
pub proof fn law_pages_follow_the_slide_list(rids: Seq<Seq<char>>, rels: Seq<Rel>, p: u32)
    requires
        rids.len() <= u32::MAX,
    ensures
        slide_paths(rids, rels).contains_key(p) <==> 1 <= p <= rids.len() && find_rel(
            rels,
            rids[p - 1],
        ) is Some,
        slide_paths(rids, rels).contains_key(p) ==> slide_paths(rids, rels)[p] == "ppt/"@
            + find_rel(rels, rids[p - 1])->0.target,
    decreases rids.len(),
{
    if rids.len() > 0 {
        law_pages_follow_the_slide_list(rids.drop_last(), rels, p);
        if 1 <= p < rids.len() {
            assert(rids.drop_last()[p - 1] == rids[p - 1]);
        }
    }
}

/// A deck without a presentation, or without its relationships, is refused with the name of
/// what is missing.
pub proof fn law_deck_without_its_parts_is_refused(dir: ZipDirectory)
    ensures
        readable_entry(dir, "ppt/presentation.xml"@) is None ==> slides_of(dir) == Err::<
            Map<u32, Seq<char>>,
            Seq<char>,
        >("presentation.xml 읽기 실패"@),
        readable_entry(dir, "ppt/presentation.xml"@) is Some && readable_entry(
            dir,
            "ppt/_rels/presentation.xml.rels"@,
        ) is None ==> slides_of(dir) == Err::<Map<u32, Seq<char>>, Seq<char>>(
            "presentation.xml.rels 읽기 실패"@,
        ),
        readable_entry(dir, "ppt/presentation.xml"@) is Some && readable_entry(
            dir,
            "ppt/_rels/presentation.xml.rels"@,
        ) is Some ==> slides_of(dir) is Ok,
{
}

/// Page `i + 1` of a deck shows what the last relationship with the `r:id` of the tag at `i`
/// in its slide list points to, however many tags and relationships there are.
pub proof fn law_deck_shows_its_slides(
    dir: ZipDirectory,
    xml: Seq<u8>,
    rels_xml: Seq<u8>,
    at: Seq<int>,
    i: int,
    j: int,
    id: Seq<char>,
    k: int,
)
    requires
        readable_entry(dir, "ppt/presentation.xml"@) == Some(xml),
        readable_entry(dir, "ppt/_rels/presentation.xml.rels"@) == Some(rels_xml),
        slide_tags(xml_items(xml, true), at),
        rids_decoded(xml_items(xml, true)),
        0 <= i < at.len() <= u32::MAX,
        first_with_key(xml_items(xml, true)[at[i]].attributes, utf8("r:id"@), j),
        (xml_items(xml, true)[at[i]].attributes[j]->0).1 == utf8(id),
        0 <= k < xml_items(rels_xml, true).len(),
        rel_with_id(xml_items(rels_xml, true)[k], id),
        forall|m: int|
            k < m < xml_items(rels_xml, true).len() ==> !rel_with_id(
                #[trigger] xml_items(rels_xml, true)[m],
                id,
            ),
    ensures
        slides_of(dir) is Ok,
        slides_of(dir)->Ok_0.contains_key((i + 1) as u32),
        slides_of(dir)->Ok_0[(i + 1) as u32] == "ppt/"@ + (rel_in(
            xml_items(rels_xml, true)[k],
        )->0).target,
{
    let rids = slide_rids(xml);
    law_every_slide_tag_gives_a_page(xml_items(xml, true), at, i, j, id);
    assert(rids[i] == id);
    law_last_relationship_of_an_id_holds(xml_items(rels_xml, true), k, id);
    law_pages_follow_the_slide_list(rids, rels_of(rels_xml), (i + 1) as u32);
}

/// A page of a deck has no slide where no relationship has its id, nor beyond the number of
/// tags in the slide list.
pub proof fn law_deck_shows_no_other_slides(
    dir: ZipDirectory,
    xml: Seq<u8>,
    rels_xml: Seq<u8>,
    at: Seq<int>,
    p: u32,
    j: int,
    id: Seq<char>,
)
    requires
        readable_entry(dir, "ppt/presentation.xml"@) == Some(xml),
        readable_entry(dir, "ppt/_rels/presentation.xml.rels"@) == Some(rels_xml),
        slide_tags(xml_items(xml, true), at),
        rids_decoded(xml_items(xml, true)),
        at.len() <= u32::MAX,
        1 <= p <= at.len() ==> first_with_key(
            xml_items(xml, true)[at[p - 1]].attributes,
            utf8("r:id"@),
            j,
        ) && (xml_items(xml, true)[at[p - 1]].attributes[j]->0).1 == utf8(id),
        forall|m: int|
            0 <= m < xml_items(rels_xml, true).len() ==> !rel_with_id(
                #[trigger] xml_items(rels_xml, true)[m],
                id,
            ),
    ensures
        slides_of(dir) is Ok,
        !slides_of(dir)->Ok_0.contains_key(p),
{
    let rids = slide_rids(xml);
    law_every_slide_tag_gives_a_page(xml_items(xml, true), at, p - 1, j, id);
    law_id_of_no_relationship_is_not_found(xml_items(rels_xml, true), id);
    law_pages_follow_the_slide_list(rids, rels_of(rels_xml), p);
}

} // verus!
