//! Decks that are read the same after a notes master was put into their package.

use crate::markup::{
    bare_tag, complete, element, empty_mark, end_mark, lemma_complete_element, lemma_complete_empty,
    lemma_marks_markup, lemma_plain_tokens, mark_token, mark_tokens, marks_text, start_mark,
    XmlMark,
};
use crate::master::{
    with_master_id, with_master_rel, MASTER_ID_END, MASTER_ID_START, MASTER_LIST_END, MASTER_TARGET,
    MASTER_TYPE,
};
use crate::numbering::free_number;
use crate::presentation::{in_slide_list, slide_paths, slide_rids, slide_rids_in};
use crate::rels::{
    distinct_ids, find_rel, has_id, ids, law_next_rid_is_unused, law_put_rel_keeps_ids_distinct,
    law_read_ids_are_distinct, lemma_find_rel, lemma_found_rel, lemma_sorted_contains,
    lemma_sorted_ids, next_rid, put_rel, reads_written_rels, rels_of, rels_xml, sorted_rels,
    written_rel, written_rels, Rel,
};
use crate::rewrite::token_items;
use crate::text::{
    decimal, decoded, find, is_digit, law_decimal_reads_back, lemma_decoded_text, lemma_utf8_concat,
    lemma_utf8_injective, utf8, utf8_lossy,
};
use crate::xml::{
    escaped, inset, item_of, lemma_escaped_plain, plain_tag, plain_token, reads_insets, reads_then,
    tag_text, token_markup, unescaped_char, whole, xml_items, xml_stream, XmlItem, XmlKind,
    XmlStream, XmlTag,
};
use vstd::prelude::*;

verus! {

// ---- the presentation ----

/// Whether a presentation is made of `a`, the end of its list of slide masters and `b`, and
/// no earlier text in it reads like that end.
pub open spec fn master_list_ends(xml: Seq<u8>, a: Seq<char>, b: Seq<char>) -> bool {
    &&& xml == utf8(a + MASTER_LIST_END@ + b)
    &&& find(a + MASTER_LIST_END@ + b, MASTER_LIST_END@) == Some(a.len() as int)
    &&& whole(utf8(a + MASTER_LIST_END@), true)
}

/// Whether a presentation is UTF-8, and the first text in it that reads like the end of the
/// list of slide masters is a tag.
pub open spec fn plain_presentation(xml: Seq<u8>) -> bool {
    exists|a: Seq<char>, b: Seq<char>| #[trigger] master_list_ends(xml, a, b)
}

/// The list of notes masters.
pub open spec fn master_marks(rid: Seq<char>) -> Seq<XmlMark> {
    element(
        bare_tag("p:notesMasterIdLst"@),
        seq![empty_mark(XmlTag { name: "p:notesMasterId"@, attributes: seq![("r:id"@, rid)] })],
    )
}

proof fn lemma_master_marks(rid: Seq<char>)
    requires
        !rid.contains('"'),
        !rid.contains('<'),
        !rid.contains('>'),
    ensures
        complete(master_marks(rid)),
        MASTER_ID_START@ + rid + MASTER_ID_END@ == MASTER_LIST_END@ + marks_text(
            master_marks(rid),
        ),
{
    let tag = XmlTag { name: "p:notesMasterId"@, attributes: seq![("r:id"@, rid)] };
    let list = bare_tag("p:notesMasterIdLst"@);
    let marks = master_marks(rid);
    reveal_strlit("p:notesMasterId");
    reveal_strlit("p:notesMasterIdLst");
    reveal_strlit("r:id");
    assert(plain_tag(tag));
    assert(plain_tag(list));
    lemma_complete_empty(tag);
    lemma_complete_element(list, seq![empty_mark(tag)]);
    // as text
    let first = seq![start_mark(list)];
    let second = first.push(empty_mark(tag));
    assert(marks =~= second.push(end_mark("p:notesMasterIdLst"@)));
    assert(marks.drop_last() =~= second);
    assert(second.drop_last() =~= first);
    assert(first.drop_last() =~= Seq::<XmlMark>::empty());
    assert(marks_text(first.drop_last()) == Seq::<char>::empty());
    reveal_strlit("<");
    reveal_strlit(">");
    reveal_strlit("/>");
    reveal_strlit("</");
    reveal_strlit(" ");
    reveal_strlit("=\"");
    reveal_strlit("\"");
    reveal_strlit("</p:sldMasterIdLst>");
    reveal_strlit("</p:sldMasterIdLst><p:notesMasterIdLst><p:notesMasterId r:id=\"");
    reveal_strlit("\"/></p:notesMasterIdLst>");
    let open = "<"@ + "p:notesMasterIdLst"@ + ">"@;
    assert(marks_text(first) =~= open);
    assert(tag.attributes.drop_last() =~= Seq::<(Seq<char>, Seq<char>)>::empty());
    let inner = "<"@ + ("p:notesMasterId"@ + (" "@ + "r:id"@ + "=\""@ + rid + "\""@)) + "/>"@;
    assert(tag_text(tag.name, tag.attributes.drop_last()) == tag.name);
    assert(tag.attributes.last() == ("r:id"@, rid));
    assert(tag_text(tag.name, tag.attributes) == "p:notesMasterId"@ + (" "@ + "r:id"@
        + "=\""@ + rid + "\""@));
    assert(marks_text(second) =~= open + inner);
    let close = "</"@ + "p:notesMasterIdLst"@ + ">"@;
    assert(marks_text(marks) =~= open + inner + close);
    let to_id = "<"@ + "p:notesMasterId"@ + " "@ + "r:id"@ + "=\""@;
    assert(MASTER_ID_START@ =~= MASTER_LIST_END@ + open + to_id);
    assert(MASTER_ID_END@ =~= "\""@ + "/>"@ + close);
    assert(MASTER_ID_START@ + rid + MASTER_ID_END@ =~= MASTER_LIST_END@ + (open + inner + close));
}

/// Events of other names make no difference to the list of slides.
proof fn lemma_other_events(a: Seq<XmlItem>, other: Seq<XmlItem>, b: Seq<XmlItem>)
    requires
        forall|i: int|
            0 <= i < other.len() ==> (#[trigger] other[i]).name != utf8("p:sldIdLst"@)
                && other[i].name != utf8("p:sldId"@),
    ensures
        slide_rids_in(a + other + b) == slide_rids_in(a + b),
        in_slide_list(a + other + b) == in_slide_list(a + b),
    decreases b.len(), other.len(),
{
    if b.len() > 0 {
        lemma_other_events(a, other, b.drop_last());
        assert((a + other + b).drop_last() =~= a + other + b.drop_last());
        assert((a + b).drop_last() =~= a + b.drop_last());
        assert((a + other + b).last() == b.last());
        assert((a + b).last() == b.last());
    } else if other.len() > 0 {
        let init = other.drop_last();
        assert forall|i: int| 0 <= i < init.len() implies (#[trigger] init[i]).name != utf8(
            "p:sldIdLst"@,
        ) && init[i].name != utf8("p:sldId"@) by {
            assert(init[i] == other[i]);
        }
        lemma_other_events(a, init, b);
        assert(a + other + b =~= a + other);
        assert(a + init + b =~= a + init);
        assert((a + other).drop_last() =~= a + init);
        assert((a + other).last() == other[other.len() - 1]);
    } else {
        assert(a + other + b =~= a + b);
    }
}

/// The list of notes masters names no slide.
proof fn lemma_master_names(rid: Seq<char>)
    ensures
        forall|i: int|
            0 <= i < 3 ==> (#[trigger] token_items(mark_tokens(master_marks(rid)))[i]).name != utf8(
                "p:sldIdLst"@,
            ) && token_items(mark_tokens(master_marks(rid)))[i].name != utf8("p:sldId"@),
        master_marks(rid).len() == 3,
{
    let marks = master_marks(rid);
    let tokens = mark_tokens(marks);
    reveal_strlit("p:notesMasterId");
    reveal_strlit("p:notesMasterIdLst");
    reveal_strlit("p:sldIdLst");
    reveal_strlit("p:sldId");
    let tag = XmlTag { name: "p:notesMasterId"@, attributes: seq![("r:id"@, rid)] };
    assert(marks[0] == start_mark(bare_tag("p:notesMasterIdLst"@)));
    assert(marks[1] == empty_mark(tag));
    assert(marks[2] == end_mark("p:notesMasterIdLst"@));
    assert forall|i: int| 0 <= i < 3 implies (#[trigger] token_items(tokens)[i]).name != utf8(
        "p:sldIdLst"@,
    ) && token_items(tokens)[i].name != utf8("p:sldId"@) by {
        let name = marks[i].tag.name;
        assert(token_items(tokens)[i] == item_of(mark_token(marks[i])));
        assert(name[2] == 'n');
        assert("p:sldIdLst"@[2] == 's' && "p:sldId"@[2] == 's');
        if utf8(name) == utf8("p:sldIdLst"@) {
            lemma_utf8_injective(name, "p:sldIdLst"@);
        }
        if utf8(name) == utf8("p:sldId"@) {
            lemma_utf8_injective(name, "p:sldId"@);
        }
    }
}

/// The list of notes masters can be put in between two tags.
proof fn lemma_master_inset(rid: Seq<char>)
    requires
        complete(master_marks(rid)),
    ensures
        inset(mark_tokens(master_marks(rid))),
{
    let marks = master_marks(rid);
    let tokens = mark_tokens(marks);
    lemma_plain_tokens(marks);
    assert forall|i: int| 0 <= i < tokens.len() implies plain_token(#[trigger] tokens[i])
        && tokens[i].kind != XmlKind::Text by {
        assert(tokens[i] == mark_token(marks[i]));
    }
}

/// A presentation lists the same slides after a notes master was put in.
proof fn lemma_same_slides(xml: Seq<u8>, rid: Seq<char>)
    requires
        plain_presentation(xml),
        decoded(xml),
        !rid.contains('"'),
        !rid.contains('<'),
        !rid.contains('>'),
        ({
            let new = utf8(with_master_id(utf8_lossy(xml), rid));
            reads_insets(new, true, xml_stream(new, true))
        }),
    ensures
        slide_rids(utf8(with_master_id(utf8_lossy(xml), rid))) == slide_rids(xml),
{
    let (a, b) = choose|a: Seq<char>, b: Seq<char>| #[trigger] master_list_ends(xml, a, b);
    let text = a + MASTER_LIST_END@ + b;
    let marks = master_marks(rid);
    let inserted = mark_tokens(marks);
    let new = utf8(with_master_id(utf8_lossy(xml), rid));
    lemma_decoded_text(text);
    lemma_master_marks(rid);
    assert(text.take(a.len() as int) =~= a);
    assert(text.skip(a.len() as int + MASTER_LIST_END@.len()) =~= b);
    let middle = MASTER_LIST_END@ + marks_text(marks);
    assert(with_master_id(text, rid) == a + middle + b);
    // what is written
    let head = utf8(a + MASTER_LIST_END@);
    lemma_marks_markup(marks);
    assert(a + middle + b =~= (a + MASTER_LIST_END@) + marks_text(marks) + b);
    lemma_utf8_concat((a + MASTER_LIST_END@) + marks_text(marks), b);
    lemma_utf8_concat(a + MASTER_LIST_END@, marks_text(marks));
    lemma_utf8_concat(a + MASTER_LIST_END@, b);
    assert(new == head + token_markup(inserted) + utf8(b));
    assert(xml == head + utf8(b));
    // what is read
    lemma_master_inset(rid);
    let first = xml_stream(head, true).tokens;
    let rest = choose|rest: XmlStream| #[trigger]
        reads_then(xml_stream(new, true), first + inserted, rest) && reads_then(
            xml_stream(xml, true),
            first,
            rest,
        );
    lemma_master_names(rid);
    assert(xml_items(xml, true) =~= token_items(first) + token_items(rest.tokens));
    assert(xml_items(new, true) =~= token_items(first) + token_items(inserted) + token_items(
        rest.tokens,
    ));
    lemma_other_events(token_items(first), token_items(inserted), token_items(rest.tokens));
}

// ---- its relationships ----

/// Whether the id and the target of every relationship are written as they are.
pub open spec fn plain_rels(rels: Seq<Rel>) -> bool {
    forall|i: int|
        0 <= i < rels.len() ==> escaped((#[trigger] rels[i]).id, true) == rels[i].id && escaped(
            rels[i].target,
            true,
        ) == rels[i].target
}

proof fn lemma_next_rid(rels: Seq<Rel>)
    ensures
        escaped(next_rid(rels), true) == next_rid(rels),
        !next_rid(rels).contains('"'),
        !next_rid(rels).contains('<'),
        !next_rid(rels).contains('>'),
{
    let rid = next_rid(rels);
    let n = free_number(ids(rels), "rId"@, Seq::empty());
    let d = decimal(n);
    law_decimal_reads_back(n);
    assert(forall|i: int| 0 <= i < d.len() ==> is_digit(#[trigger] d[i]));
    reveal_strlit("rId");
    assert(rid =~= "rId"@ + d);
    assert forall|i: int| 0 <= i < rid.len() implies unescaped_char(#[trigger] rid[i]) && rid[i]
        != '"' && rid[i] != '<' && rid[i] != '>' by {
        if i < 3 {
            assert(rid[i] == "rId"@[i]);
        } else {
            assert(rid[i] == d[i - 3]);
        }
    }
    lemma_escaped_plain(rid, true);
}

/// A relationship is found with its target after another was put in and all were written.
proof fn lemma_rel_is_kept(rels: Seq<Rel>, new: Rel, id: Seq<char>)
    requires
        distinct_ids(rels),
        plain_rels(rels),
        !has_id(rels, new.id),
        escaped(new.id, true) == new.id,
        id != new.id,
    ensures
        ({
            let found = find_rel(written_rels(put_rel(rels, new)), id);
            &&& found is Some <==> find_rel(rels, id) is Some
            &&& found is Some ==> found->0.target == find_rel(rels, id)->0.target
        }),
{
    let all = put_rel(rels, new);
    let sorted = sorted_rels(all);
    let written = written_rels(all);
    assert(all == rels.push(new));
    law_put_rel_keeps_ids_distinct(rels, new);
    lemma_sorted_ids(all, id);
    assert forall|p: int| 0 <= p < written.len() implies (#[trigger] written[p]).id
        == sorted[p].id by {
        assert(sorted.contains(sorted[p]));
        lemma_id_is_kept(rels, new, sorted[p]);
    }
    assert(distinct_ids(written));
    lemma_find_rel(rels, id);
    lemma_find_rel(written, id);
    if has_id(rels, id) {
        let k = choose|k: int| 0 <= k < rels.len() && (#[trigger] rels[k]).id == id;
        let r = rels[k];
        assert(all[k] == r);
        assert(all.contains(r));
        lemma_sorted_contains(all, r);
        let j = choose|j: int| 0 <= j < sorted.len() && sorted[j] == r;
        assert(written[j] == written_rel(r));
        lemma_found_rel(rels, k);
        lemma_found_rel(written, j);
    } else if has_id(written, id) {
        let j = choose|j: int| 0 <= j < written.len() && (#[trigger] written[j]).id == id;
        assert(sorted[j].id == id);
        assert(has_id(sorted, id));
        let k = choose|k: int| 0 <= k < all.len() && (#[trigger] all[k]).id == id;
        assert(rels[k].id == id);
    }
}

proof fn lemma_id_is_kept(rels: Seq<Rel>, new: Rel, r: Rel)
    requires
        plain_rels(rels),
        !has_id(rels, new.id),
        escaped(new.id, true) == new.id,
        sorted_rels(put_rel(rels, new)).contains(r),
    ensures
        written_rel(r).id == r.id,
{
    let all = put_rel(rels, new);
    lemma_sorted_contains(all, r);
    let k = choose|k: int| 0 <= k < all.len() && all[k] == r;
    if k < rels.len() {
        assert(rels[k] == r);
    }
}

/// The pages show the same slides after another relationship was put in and all were
/// written.
proof fn lemma_same_paths(rids: Seq<Seq<char>>, rels: Seq<Rel>, new: Rel)
    requires
        distinct_ids(rels),
        plain_rels(rels),
        !has_id(rels, new.id),
        escaped(new.id, true) == new.id,
        !rids.contains(new.id),
    ensures
        slide_paths(rids, written_rels(put_rel(rels, new))) == slide_paths(rids, rels),
    decreases rids.len(),
{
    if rids.len() > 0 {
        let init = rids.drop_last();
        assert(!init.contains(new.id)) by {
            assert forall|i: int| 0 <= i < init.len() implies init[i] != new.id by {
                assert(init[i] == rids[i]);
            }
        }
        lemma_same_paths(init, rels, new);
        assert(rids[rids.len() - 1] != new.id);
        lemma_rel_is_kept(rels, new, rids.last());
    }
}

// ---- the deck ----

/// Whether a deck is made as decks are: its presentation has a list of slide masters whose
/// end is found, its relationships are written as they are, and no slide in it waits for the
/// relationship that the notes master is going to have.
pub open spec fn plain_deck(xml: Seq<u8>, rels: Seq<Rel>) -> bool {
    &&& plain_presentation(xml)
    &&& plain_rels(rels)
    &&& !slide_rids(xml).contains(next_rid(rels))
}

/// A deck shows the same slides after a notes master was put into its package.
pub proof fn law_deck_survives_the_notes_master(xml: Seq<u8>, rels_data: Seq<u8>)
    requires
        plain_deck(xml, rels_of(rels_data)),
        decoded(xml),
        ({
            let rels = rels_of(rels_data);
            let new = utf8(with_master_id(utf8_lossy(xml), next_rid(rels)));
            let new_rels = utf8(rels_xml(with_master_rel(rels)));
            reads_insets(new, true, xml_stream(new, true)) && reads_written_rels(
                new_rels,
                rels_of(new_rels),
            )
        }),
    ensures
        ({
            let rels = rels_of(rels_data);
            let new = utf8(with_master_id(utf8_lossy(xml), next_rid(rels)));
            let new_rels = utf8(rels_xml(with_master_rel(rels)));
            slide_paths(slide_rids(new), rels_of(new_rels)) == slide_paths(slide_rids(xml), rels)
        }),
{
    let rels = rels_of(rels_data);
    let rid = next_rid(rels);
    let master = Rel { id: rid, ty: MASTER_TYPE@, target: MASTER_TARGET@ };
    law_read_ids_are_distinct(xml_items(rels_data, true));
    lemma_next_rid(rels);
    law_next_rid_is_unused(rels);
    law_put_rel_keeps_ids_distinct(rels, master);
    lemma_same_slides(xml, rid);
    lemma_same_paths(slide_rids(xml), rels, master);
    assert(with_master_rel(rels) == put_rel(rels, master));
}

} // verus!
