//! What comes of importing the same script a second time.

use crate::apply::{
    has_master, law_applied_note_is_stored, law_failed_note_changes_nothing,
    law_note_leaves_other_parts, lemma_new_slide_has_rels, lemma_new_note_succeeds,
    lemma_new_notes_slide_is_found, lemma_note_keeps_parts, lemma_notes_part_is_no_directory,
    lemma_notes_part_is_touched, note_applied, note_reads, note_rewritable, note_touches,
    notes_data, notes_part, number_left, slide_rels, slide_rels_path, NOTES_TYPE_SUFFIX,
    NO_NOTES_PART_END, RELS_SUFFIX,
};
use crate::archive::{
    current, directory_name, directory_of, law_package_reads_back, lemma_names_of_distinct_plan,
    lemma_plan_again, moderate, zip_open, ZipDirectory,
};
use crate::import::{
    imports, lemma_parts_distinct, no_such_page, numbers_left, outcome_of, page_done, page_notes,
    parts_before, plan_of, progress, ready, steps_read_back, within_limits, ImportSummary, PageNote,
    Progress, Ready,
};
use crate::master::{lemma_master_is_in, Change, Template, CONTENT_TYPES, NOTES_MASTER};
use crate::notes::{notes_with_text, slide_read};
use crate::parts::{
    distinct_names, find_part, law_part_is_found, law_put_part_is_found, put_part, Part,
};
use crate::presentation::slides_of;
use crate::rels::find_type;
use crate::rewrite::{law_last_text_wins, law_new_slide_takes_another_text, rewritable};
use crate::script::Note;
use crate::slide::notes_slide;
use crate::text::utf8;
use crate::timestamps::sanitized;
use vstd::prelude::*;

verus! {

// ---- one import ----

/// Whether the note at `k` is for a page of the deck.
pub open spec fn in_deck(x: Ready, k: int) -> bool {
    0 <= k < x.script.len() && x.slides.contains_key(x.script[k].page)
}

/// What comes of the note at `k`.
#[verifier::opaque]
pub open spec fn step(x: Ready, k: int) -> Change {
    note_applied(
        x.dir,
        x.dir.names,
        x.slides,
        parts_before(x, k),
        x.script[k].page,
        x.script[k].text,
    )
}

/// The part for the notes of the page of the note at `k`.
#[verifier::opaque]
pub open spec fn part_at(x: Ready, k: int) -> Seq<char> {
    notes_part(x.dir, x.dir.names, x.slides, parts_before(x, k), x.script[k].page)
}

/// The part with the relationships of the slide of the note at `k`.
pub open spec fn rels_at(x: Ready, k: int) -> Seq<char> {
    slide_rels_path(x.slides[x.script[k].page])
}

/// Whether the slide of the note at `k` has a notes slide when the note is put in.
#[verifier::opaque]
pub open spec fn has_notes_at(x: Ready, k: int) -> bool {
    find_type(
        slide_rels(x.dir, parts_before(x, k), x.slides[x.script[k].page]),
        NOTES_TYPE_SUFFIX@,
    ) is Some
}

/// Whether the note at `j` touches the named part.
#[verifier::opaque]
pub open spec fn touches_at(x: Ready, j: int, name: Seq<char>) -> bool {
    note_touches(x.dir, x.dir.names, x.slides, parts_before(x, j), x.script[j].page, name)
}

/// Whether no note touches the notes slide of another page, or the relationships of another
/// page's slide.
pub open spec fn pages_apart(x: Ready) -> bool {
    forall|i: int, j: int|
        #[trigger] in_deck(x, i) && #[trigger] in_deck(x, j) && x.script[i].page
            != x.script[j].page ==> !touches_at(x, j, rels_at(x, i)) && !touches_at(
            x,
            j,
            part_at(x, i),
        )
}

/// Whether the notes of every page can be replaced again and again.
pub open spec fn notes_rewritable(x: Ready) -> bool {
    forall|k: int|
        in_deck(x, k) ==> note_rewritable(
            x.dir,
            x.slides,
            #[trigger] parts_before(x, k),
            x.script[k].page,
        )
}

/// Whether a package that is ready can be imported into again and again: the pages do not
/// share parts, their notes can be replaced, and the package has a notes master and content
/// types.
pub open spec fn repeatable(x: Ready) -> bool {
    &&& pages_apart(x)
    &&& notes_rewritable(x)
    &&& has_master(x.dir.names, x.parts)
    &&& current(x.dir, x.parts, CONTENT_TYPES@) is Some
}

#[verifier::spinoff_prover]
pub proof fn lemma_next(x: Ready, k: int)
    requires
        0 <= k < x.script.len(),
    ensures
        x.script.take(k + 1).drop_last() == x.script.take(k),
        x.script.take(k + 1).last() == x.script[k],
        in_deck(x, k) ==> parts_before(x, k + 1) == step(x, k).parts,
        !in_deck(x, k) ==> parts_before(x, k + 1) == parts_before(x, k),
{
    reveal(parts_before);
    reveal(step);
    assert(x.script.take(k + 1).drop_last() == x.script.take(k));
    assert(x.script.take(k + 1).last() == x.script[k]);
}

/// The notes master and the content types stay.
#[verifier::spinoff_prover]
pub proof fn lemma_infrastructure_stays(x: Ready, k: int)
    requires
        repeatable(x),
        0 <= k <= x.script.len(),
    ensures
        has_master(x.dir.names, parts_before(x, k)),
        current(x.dir, parts_before(x, k), CONTENT_TYPES@) is Some,
    decreases k,
{
    if k == 0 {
        reveal(parts_before);
        assert(x.script.take(0) =~= Seq::<Note>::empty());
        assert(parts_before(x, 0) == x.parts);
    } else {
        reveal(step);
        lemma_infrastructure_stays(x, k - 1);
        lemma_next(x, k - 1);
        if in_deck(x, k - 1) {
            let before = parts_before(x, k - 1);
            let master = NOTES_MASTER@;
            lemma_note_keeps_parts(
                x.dir,
                x.dir.names,
                x.slides,
                before,
                x.script[k - 1].page,
                x.script[k - 1].text,
                CONTENT_TYPES@,
            );
            lemma_note_keeps_parts(
                x.dir,
                x.dir.names,
                x.slides,
                before,
                x.script[k - 1].page,
                x.script[k - 1].text,
                master,
            );
            law_part_is_found(before, master);
            law_part_is_found(parts_before(x, k), master);
        }
    }
}

/// A page without a notes slide gets one; and a note that fails changes nothing.
#[verifier::spinoff_prover]
pub proof fn lemma_step(x: Ready, k: int)
    requires
        repeatable(x),
        in_deck(x, k),
    ensures
        !has_notes_at(x, k) ==> step(x, k).result is Ok,
        step(x, k).result is Err ==> step(x, k).parts == parts_before(x, k),
        step(x, k).result is Ok ==> step(x, k).result == Ok::<(), Seq<char>>(()),
{
    reveal(step);
    reveal(has_notes_at);
    let before = parts_before(x, k);
    let note = x.script[k];
    lemma_infrastructure_stays(x, k);
    if !has_notes_at(x, k) {
        lemma_new_note_succeeds(x.dir, x.dir.names, x.slides, before, note.page, note.text);
    }
    if step(x, k).result is Err {
        law_failed_note_changes_nothing(
            x.dir,
            x.dir.names,
            x.slides,
            before,
            note.page,
            note.text,
        );
    }
}

/// A note leaves a part that it does not touch.
#[verifier::spinoff_prover]
pub proof fn lemma_leaves(x: Ready, j: int, name: Seq<char>)
    requires
        in_deck(x, j),
        !touches_at(x, j, name),
    ensures
        find_part(parts_before(x, j + 1), name) == find_part(parts_before(x, j), name),
{
    reveal(step);
    reveal(touches_at);
    lemma_next(x, j);
    law_note_leaves_other_parts(
        x.dir,
        x.dir.names,
        x.slides,
        parts_before(x, j),
        x.script[j].page,
        x.script[j].text,
        name,
    );
}

/// A note for a slide with a notes slide leaves the relationships of the slide.
#[verifier::spinoff_prover]
proof fn lemma_existing_leaves_rels(x: Ready, k: int)
    requires
        in_deck(x, k),
        note_rewritable(x.dir, x.slides, parts_before(x, k), x.script[k].page),
        has_notes_at(x, k),
    ensures
        find_part(parts_before(x, k + 1), rels_at(x, k)) == find_part(
            parts_before(x, k),
            rels_at(x, k),
        ),
{
    reveal(has_notes_at);
    reveal(touches_at);
    lemma_leaves(x, k, rels_at(x, k));
}

/// A later note for a page finds the notes slide that an earlier one found or made, where
/// the relationships of the slide are as the earlier one left them.
#[verifier::spinoff_prover]
pub proof fn lemma_found(x: Ready, i: int, j: int)
    requires
        in_deck(x, i),
        i < j < x.script.len(),
        x.script[j].page == x.script[i].page,
        note_rewritable(x.dir, x.slides, parts_before(x, i), x.script[i].page),
        has_notes_at(x, i) || step(x, i).result is Ok,
        note_reads(x.dir, x.slides, parts_before(x, j), x.script[j].page),
        find_part(parts_before(x, j), rels_at(x, i)) == find_part(
            parts_before(x, i + 1),
            rels_at(x, i),
        ),
    ensures
        has_notes_at(x, j),
        part_at(x, j) == part_at(x, i),
{
    let page = x.script[i].page;
    let later = parts_before(x, j);
    if has_notes_at(x, i) {
        lemma_existing_leaves_rels(x, i);
        reveal(has_notes_at);
        reveal(part_at);
        assert(slide_rels(x.dir, later, x.slides[page]) == slide_rels(
            x.dir,
            parts_before(x, i),
            x.slides[page],
        ));
    } else {
        lemma_next(x, i);
        reveal(step);
        reveal(has_notes_at);
        reveal(part_at);
        lemma_new_slide_has_rels(
            x.dir,
            x.dir.names,
            x.slides,
            parts_before(x, i),
            page,
            x.script[i].text,
        );
        lemma_new_notes_slide_is_found(
            x.dir,
            x.dir.names,
            x.slides,
            parts_before(x, i),
            page,
            x.script[i].text,
            x.dir,
            later,
        );
    }
}

/// That holds of every two notes for a page.
#[verifier::spinoff_prover]
pub proof fn lemma_found_later(x: Ready, i: int, j: int)
    requires
        repeatable(x),
        steps_read_back(x, x.script.len() as int),
        in_deck(x, i),
        i < j < x.script.len(),
        x.script[j].page == x.script[i].page,
        find_part(parts_before(x, j), rels_at(x, i)) == find_part(
            parts_before(x, i + 1),
            rels_at(x, i),
        ),
    ensures
        has_notes_at(x, j),
        part_at(x, j) == part_at(x, i),
{
    lemma_step(x, i);
    assert(note_rewritable(x.dir, x.slides, parts_before(x, i), x.script[i].page));
    assert(note_reads(x.dir, x.slides, parts_before(x, j), x.script[j].page));
    lemma_found(x, i, j);
}

/// The relationships of a slide stay what the first note for its page left.
#[verifier::spinoff_prover]
pub proof fn lemma_rels_stay(x: Ready, i: int, j: int)
    requires
        repeatable(x),
        steps_read_back(x, x.script.len() as int),
        in_deck(x, i),
        i < j <= x.script.len(),
    ensures
        find_part(parts_before(x, j), rels_at(x, i)) == find_part(
            parts_before(x, i + 1),
            rels_at(x, i),
        ),
    decreases j - i,
{
    if j > i + 1 {
        let k = j - 1;
        lemma_rels_stay(x, i, k);
        lemma_next(x, k);
        if in_deck(x, k) {
            if x.script[k].page == x.script[i].page {
                lemma_found_later(x, i, k);
                assert(note_rewritable(x.dir, x.slides, parts_before(x, k), x.script[k].page));
                lemma_existing_leaves_rels(x, k);
            } else {
                assert(!touches_at(x, k, rels_at(x, i)) && !touches_at(x, k, part_at(x, i)));
                lemma_leaves(x, k, rels_at(x, i));
            }
        }
    }
}

/// Whether `data` is the notes slide of the note at `k`, with some text.
pub open spec fn holds_some_text(x: Ready, k: int, data: Seq<u8>) -> bool {
    exists|text: Seq<char>| #[trigger] holds_text(x, k, data, text)
}

/// Whether `data` is the notes slide of the note at `k`, with the given text.
pub open spec fn holds_text(x: Ready, k: int, data: Seq<u8>, text: Seq<char>) -> bool {
    if has_notes_at(x, k) {
        notes_with_text(current(x.dir, parts_before(x, k), part_at(x, k))->0, text) == Ok::<
            Seq<u8>,
            Seq<char>,
        >(data)
    } else {
        data == utf8(notes_slide(text))
    }
}

/// A slide that holds some text and gets another holds the other.
#[verifier::spinoff_prover]
pub proof fn lemma_text_replaced(x: Ready, k: int, data: Seq<u8>, text: Seq<char>)
    requires
        repeatable(x),
        in_deck(x, k),
        step(x, k).result is Ok,
        holds_some_text(x, k, data),
        slide_read(data),
    ensures
        notes_with_text(data, text) is Ok,
        rewritable(data),
        holds_text(x, k, notes_with_text(data, text)->Ok_0, text),
        text == x.script[k].text ==> notes_with_text(data, text) == Ok::<Seq<u8>, Seq<char>>(
            notes_data(x.dir, x.slides, parts_before(x, k), x.script[k].page, text),
        ),
{
    reveal(step);
    reveal(has_notes_at);
    reveal(part_at);
    let first = choose|first: Seq<char>| #[trigger] holds_text(x, k, data, first);
    assert(note_rewritable(x.dir, x.slides, parts_before(x, k), x.script[k].page));
    if has_notes_at(x, k) {
        let xml = current(x.dir, parts_before(x, k), part_at(x, k))->0;
        law_last_text_wins(xml, first, data, text);
    } else {
        law_new_slide_takes_another_text(first, text);
    }
}

/// Once a page got its notes, they are in the part for them.
#[verifier::spinoff_prover]
pub proof fn lemma_stored(x: Ready, k: int)
    requires
        in_deck(x, k),
        step(x, k).result is Ok,
    ensures
        find_part(parts_before(x, k + 1), part_at(x, k)) == Some(
            notes_data(x.dir, x.slides, parts_before(x, k), x.script[k].page, x.script[k].text),
        ),
        holds_some_text(x, k, find_part(parts_before(x, k + 1), part_at(x, k))->0),
{
    reveal(step);
    reveal(part_at);
    reveal(has_notes_at);
    lemma_next(x, k);
    law_applied_note_is_stored(
        x.dir,
        x.dir.names,
        x.slides,
        parts_before(x, k),
        x.script[k].page,
        x.script[k].text,
    );
    let data = find_part(parts_before(x, k + 1), part_at(x, k))->0;
    assert(holds_text(x, k, data, x.script[k].text));
}

/// What is read of the notes slide of a page.
#[verifier::spinoff_prover]
pub proof fn lemma_reads(x: Ready, k: int)
    requires
        steps_read_back(x, x.script.len() as int),
        in_deck(x, k),
        has_notes_at(x, k),
    ensures
        current(x.dir, parts_before(x, k), part_at(x, k)) matches Some(xml) ==> slide_read(xml),
{
    reveal(part_at);
    reveal(has_notes_at);
    assert(note_reads(x.dir, x.slides, parts_before(x, k), x.script[k].page));
}

/// What a note does to a page with a notes slide.
#[verifier::spinoff_prover]
pub proof fn lemma_existing_step(x: Ready, k: int)
    requires
        in_deck(x, k),
        has_notes_at(x, k),
    ensures
        match current(x.dir, parts_before(x, k), part_at(x, k)) {
            None => step(x, k) == (Change {
                parts: parts_before(x, k),
                result: Err(part_at(x, k) + NO_NOTES_PART_END@),
            }),
            Some(xml) => match notes_with_text(xml, x.script[k].text) {
                Err(m) => step(x, k) == (Change { parts: parts_before(x, k), result: Err(m) }),
                Ok(b) => step(x, k) == (Change {
                    parts: put_part(parts_before(x, k), part_at(x, k), b),
                    result: Ok(()),
                }),
            },
        },
{
    reveal(step);
    reveal(part_at);
    reveal(has_notes_at);
}

/// A page that got its notes has a notes slide with some text from then on.
#[verifier::spinoff_prover]
pub proof fn lemma_notes_stay(x: Ready, k: int, j: int)
    requires
        repeatable(x),
        steps_read_back(x, x.script.len() as int),
        in_deck(x, k),
        step(x, k).result is Ok,
        k < j <= x.script.len(),
    ensures
        find_part(parts_before(x, j), part_at(x, k)) is Some,
        holds_some_text(x, k, find_part(parts_before(x, j), part_at(x, k))->0),
    decreases j - k,
{
    let path = part_at(x, k);
    if j == k + 1 {
        lemma_stored(x, k);
    } else {
        let i = j - 1;
        lemma_notes_stay(x, k, i);
        lemma_next(x, i);
        if in_deck(x, i) {
            if x.script[i].page == x.script[k].page {
                lemma_rels_stay(x, k, i);
                lemma_found_later(x, k, i);
                let data = find_part(parts_before(x, i), path)->0;
                lemma_reads(x, i);
                lemma_text_replaced(x, k, data, x.script[i].text);
                lemma_existing_step(x, i);
                let new = notes_with_text(data, x.script[i].text)->Ok_0;
                law_put_part_is_found(parts_before(x, i), path, new, path);
                assert(holds_text(x, k, new, x.script[i].text));
            } else {
                assert(!touches_at(x, i, rels_at(x, k)) && !touches_at(x, i, part_at(x, k)));
                lemma_leaves(x, i, path);
            }
        }
    }
}

/// A notes slide that could not get one text stays as it is, since it can get no other.
#[verifier::spinoff_prover]
pub proof fn lemma_failed_notes_stay(x: Ready, k: int, j: int)
    requires
        repeatable(x),
        steps_read_back(x, x.script.len() as int),
        in_deck(x, k),
        step(x, k).result is Err,
        k < j <= x.script.len(),
    ensures
        find_part(parts_before(x, j), part_at(x, k)) == find_part(parts_before(x, k), part_at(x, k)),
    decreases j - k,
{
    let path = part_at(x, k);
    lemma_step(x, k);
    if j == k + 1 {
        lemma_next(x, k);
    } else {
        let i = j - 1;
        lemma_failed_notes_stay(x, k, i);
        lemma_next(x, i);
        if in_deck(x, i) {
            if x.script[i].page == x.script[k].page {
                lemma_rels_stay(x, k, i);
                lemma_found_later(x, k, i);
                lemma_step(x, i);
                lemma_existing_step(x, k);
                lemma_existing_step(x, i);
            } else {
                assert(!touches_at(x, i, rels_at(x, k)) && !touches_at(x, i, part_at(x, k)));
                lemma_leaves(x, i, path);
            }
        }
    }
}

// ---- two imports ----

/// Whether `y` is the package that came of importing into `x`, ready for the same script
/// again.
pub open spec fn follows(x: Ready, y: Ready) -> bool {
    &&& y.slides == x.slides
    &&& y.script == x.script
    &&& y.parts == Seq::<Part>::empty()
    &&& forall|name: Seq<char>|
        !directory_name(name) ==> #[trigger] current(y.dir, Seq::empty(), name) == current(
            x.dir,
            parts_before(x, x.script.len() as int),
            name,
        )
}

/// Whether one of the first `k` notes was put into the named part.
pub open spec fn written_before(x: Ready, k: int, name: Seq<char>) -> bool {
    exists|j: int|
        0 <= j < k && #[trigger] in_deck(x, j) && step(x, j).result is Ok && part_at(x, j) == name
}

/// Whether the second import, before the note at `k`, has new versions of the parts that
/// were written so far and of no others, each as it was at this point in the first.
pub open spec fn parts_alike(x: Ready, y: Ready, k: int) -> bool {
    forall|name: Seq<char>| #[trigger]
        find_part(parts_before(y, k), name) == if written_before(x, k, name) {
            find_part(parts_before(x, k), name)
        } else {
            None
        }
}

/// No note is put into the part with the relationships of a slide.
#[verifier::spinoff_prover]
proof fn lemma_rels_not_written(x: Ready, k: int, n: int)
    requires
        repeatable(x),
        in_deck(x, k),
    ensures
        !written_before(x, n, rels_at(x, k)),
        !directory_name(rels_at(x, k)),
{
    reveal(part_at);
    reveal(touches_at);
    reveal_strlit(".rels");
    assert(rels_at(x, k).last() == RELS_SUFFIX@.last());
    if written_before(x, n, rels_at(x, k)) {
        let j = choose|j: int|
            0 <= j < n && #[trigger] in_deck(x, j) && step(x, j).result is Ok && part_at(x, j)
                == rels_at(x, k);
        assert(note_rewritable(x.dir, x.slides, parts_before(x, j), x.script[j].page));
        lemma_notes_part_is_touched(
            x.dir,
            x.dir.names,
            x.slides,
            parts_before(x, j),
            x.script[j].page,
        );
    }
}

/// Of two notes for different pages, the later is not put into the part of the earlier.
#[verifier::spinoff_prover]
pub proof fn lemma_parts_differ(x: Ready, i: int, j: int)
    requires
        repeatable(x),
        in_deck(x, i),
        in_deck(x, j),
        x.script[i].page != x.script[j].page,
    ensures
        part_at(x, i) != part_at(x, j),
        !touches_at(x, j, part_at(x, i)),
{
    reveal(part_at);
    reveal(touches_at);
    assert(note_rewritable(x.dir, x.slides, parts_before(x, j), x.script[j].page));
    lemma_notes_part_is_touched(
        x.dir,
        x.dir.names,
        x.slides,
        parts_before(x, j),
        x.script[j].page,
    );
}

/// The second import finds, for each page, the notes slide that the first found or made.
#[verifier::spinoff_prover]
proof fn lemma_second_finds(x: Ready, y: Ready, k: int)
    requires
        repeatable(x),
        follows(x, y),
        steps_read_back(x, x.script.len() as int),
        steps_read_back(y, y.script.len() as int),
        in_deck(x, k),
        parts_alike(x, y, k),
    ensures
        has_notes_at(y, k),
        part_at(y, k) == part_at(x, k),
{
    reveal(part_at);
    reveal(has_notes_at);
    reveal(step);
    let n = x.script.len() as int;
    let page = x.script[k].page;
    let path = rels_at(x, k);
    let now = parts_before(y, k);
    lemma_rels_not_written(x, k, k);
    assert(find_part(now, path) is None);
    assert(current(y.dir, now, path) == current(y.dir, Seq::empty(), path));
    lemma_rels_stay(x, k, n);
    assert(note_reads(y.dir, y.slides, parts_before(y, k), y.script[k].page));
    if has_notes_at(x, k) {
        assert(note_rewritable(x.dir, x.slides, parts_before(x, k), x.script[k].page));
        lemma_existing_leaves_rels(x, k);
        assert(slide_rels(y.dir, now, x.slides[page]) == slide_rels(
            x.dir,
            parts_before(x, k),
            x.slides[page],
        ));
    } else {
        lemma_step(x, k);
        lemma_next(x, k);
        lemma_new_slide_has_rels(
            x.dir,
            x.dir.names,
            x.slides,
            parts_before(x, k),
            page,
            x.script[k].text,
        );
        lemma_new_notes_slide_is_found(
            x.dir,
            x.dir.names,
            x.slides,
            parts_before(x, k),
            page,
            x.script[k].text,
            y.dir,
            now,
        );
    }
}

/// A part that was written before the note at `k`, and that the note is put into, was
/// written by a note for the same page.
#[verifier::spinoff_prover]
proof fn lemma_written_by_page(x: Ready, k: int) -> (j: int)
    requires
        repeatable(x),
        steps_read_back(x, x.script.len() as int),
        in_deck(x, k),
        written_before(x, k, part_at(x, k)),
    ensures
        0 <= j < k,
        in_deck(x, j),
        x.script[j].page == x.script[k].page,
        step(x, j).result is Ok,
        part_at(x, j) == part_at(x, k),
        has_notes_at(x, k),
{
    let j = choose|j: int|
        0 <= j < k && #[trigger] in_deck(x, j) && step(x, j).result is Ok && part_at(x, j)
            == part_at(x, k);
    if x.script[j].page != x.script[k].page {
        lemma_parts_differ(x, j, k);
    }
    lemma_rels_stay(x, j, k);
    lemma_found_later(x, j, k);
    j
}

/// The second import does with a note what the first did.
#[verifier::spinoff_prover]
proof fn lemma_second_note(x: Ready, y: Ready, k: int)
    requires
        repeatable(x),
        follows(x, y),
        steps_read_back(x, x.script.len() as int),
        steps_read_back(y, y.script.len() as int),
        in_deck(x, k),
        parts_alike(x, y, k),
    ensures
        step(y, k).result == step(x, k).result,
        match step(x, k).result {
            Ok(_) => find_part(parts_before(x, k + 1), part_at(x, k)) is Some && step(y, k).parts
                == put_part(
                parts_before(y, k),
                part_at(x, k),
                find_part(parts_before(x, k + 1), part_at(x, k))->0,
            ),
            Err(_) => step(y, k).parts == parts_before(y, k) && step(x, k).parts == parts_before(
                x,
                k,
            ),
        },
{
    let n = x.script.len() as int;
    let path = part_at(x, k);
    let now = parts_before(y, k);
    lemma_second_finds(x, y, k);
    lemma_existing_step(y, k);
    lemma_reads(y, k);
    lemma_step(x, k);
    lemma_next(x, k);
    lemma_path_is_file(x, k);
    if step(x, k).result is Ok {
        lemma_stored(x, k);
    }
    if written_before(x, k, path) {
        let j = lemma_written_by_page(x, k);
        lemma_notes_stay(x, j, k);
        lemma_existing_step(x, k);
        if step(x, k).result is Ok {
            let xml = find_part(parts_before(x, k), path)->0;
            law_put_part_is_found(
                parts_before(x, k),
                path,
                notes_with_text(xml, x.script[k].text)->Ok_0,
                path,
            );
        }
        assert(step(y, k).result == step(x, k).result);
    } else {
        assert(find_part(now, path) is None);
        assert(current(y.dir, now, path) == current(y.dir, Seq::empty(), path));
        if step(x, k).result is Ok {
            lemma_notes_stay(x, k, n);
            let data = find_part(parts_before(x, n), path)->0;
            lemma_text_replaced(x, k, data, x.script[k].text);
            assert(step(y, k).result == step(x, k).result);
        } else {
            lemma_failed_notes_stay(x, k, n);
            lemma_existing_step(x, k);
            assert(current(y.dir, now, path) == current(x.dir, parts_before(x, k), path));
            assert(step(y, k).result == step(x, k).result);
        }
    }
}

#[verifier::spinoff_prover]
pub proof fn lemma_path_is_file(x: Ready, k: int)
    ensures
        !directory_name(part_at(x, k)),
{
    reveal(part_at);
    lemma_notes_part_is_no_directory(
        x.dir,
        x.dir.names,
        x.slides,
        parts_before(x, k),
        x.script[k].page,
    );
}

/// The parts stay alike through one more note.
#[verifier::spinoff_prover]
proof fn lemma_alike_next(x: Ready, y: Ready, k: int)
    requires
        repeatable(x),
        follows(x, y),
        steps_read_back(x, x.script.len() as int),
        steps_read_back(y, y.script.len() as int),
        0 <= k < x.script.len(),
        parts_alike(x, y, k),
    ensures
        parts_alike(x, y, k + 1),
{
    lemma_next(x, k);
    lemma_next(y, k);
    if in_deck(x, k) {
        lemma_second_note(x, y, k);
    }
    assert forall|name: Seq<char>| #[trigger]
        find_part(parts_before(y, k + 1), name) == if written_before(x, k + 1, name) {
            find_part(parts_before(x, k + 1), name)
        } else {
            None
        } by {
        assert(find_part(parts_before(y, k), name) == if written_before(x, k, name) {
            find_part(parts_before(x, k), name)
        } else {
            None
        });
        lemma_written_next(x, k, name);
        if in_deck(x, k) && step(x, k).result is Ok {
            let data = find_part(parts_before(x, k + 1), part_at(x, k))->0;
            law_put_part_is_found(parts_before(y, k), part_at(x, k), data, name);
            if name != part_at(x, k) && written_before(x, k, name) {
                lemma_written_stays(x, k, name);
            }
        }
    }
}

#[verifier::spinoff_prover]
proof fn lemma_written_next(x: Ready, k: int, name: Seq<char>)
    requires
        0 <= k,
    ensures
        written_before(x, k + 1, name) == (written_before(x, k, name) || (in_deck(x, k) && step(
            x,
            k,
        ).result is Ok && part_at(x, k) == name)),
{
    if written_before(x, k, name) {
        let j = choose|j: int|
            0 <= j < k && #[trigger] in_deck(x, j) && step(x, j).result is Ok && part_at(x, j)
                == name;
        assert(in_deck(x, j) && j < k + 1);
    }
    if written_before(x, k + 1, name) {
        let j = choose|j: int|
            0 <= j < k + 1 && #[trigger] in_deck(x, j) && step(x, j).result is Ok && part_at(x, j)
                == name;
        if j < k {
            assert(in_deck(x, j));
        }
    }
}

/// A part that was written stays when a note is put into another.
#[verifier::spinoff_prover]
proof fn lemma_written_stays(x: Ready, k: int, name: Seq<char>)
    requires
        repeatable(x),
        steps_read_back(x, x.script.len() as int),
        in_deck(x, k),
        written_before(x, k, name),
        name != part_at(x, k),
    ensures
        find_part(parts_before(x, k + 1), name) == find_part(parts_before(x, k), name),
{
    let j = choose|j: int|
        0 <= j < k && #[trigger] in_deck(x, j) && step(x, j).result is Ok && part_at(x, j) == name;
    if x.script[j].page == x.script[k].page {
        lemma_rels_stay(x, j, k);
        lemma_found_later(x, j, k);
    } else {
        lemma_parts_differ(x, j, k);
        lemma_leaves(x, k, name);
    }
}

/// How far an import has come.
pub open spec fn come_to(x: Ready, k: int) -> Progress {
    progress(x.dir, x.slides, x.parts, x.script.take(k))
}

/// What one more note adds to what is reported.
#[verifier::spinoff_prover]
proof fn lemma_reported_next(x: Ready, k: int)
    requires
        0 <= k < x.script.len(),
    ensures
        ({
            let a = come_to(x, k);
            let b = come_to(x, k + 1);
            let page = x.script[k].page;
            if !in_deck(x, k) {
                b.applied == a.applied && b.failed == a.failed.push(no_such_page(page, x.slides))
            } else {
                match step(x, k).result {
                    Ok(_) => b.applied == a.applied.push(page_done(page)) && b.failed == a.failed,
                    Err(message) => b.applied == a.applied && b.failed == a.failed.push(
                        PageNote { page, message },
                    ),
                }
            }
        }),
{
    reveal(step);
    reveal(parts_before);
    lemma_next(x, k);
}

/// The second import comes as far as the first after as many notes, and has a number left
/// for every notes slide, since it needs no new one.
#[verifier::spinoff_prover]
proof fn lemma_second_import(x: Ready, y: Ready, k: int)
    requires
        repeatable(x),
        follows(x, y),
        steps_read_back(x, x.script.len() as int),
        steps_read_back(y, y.script.len() as int),
        0 <= k <= x.script.len(),
    ensures
        parts_alike(x, y, k),
        come_to(y, k).applied == come_to(x, k).applied,
        come_to(y, k).failed == come_to(x, k).failed,
        numbers_left(y.dir, y.slides, y.parts, y.script.take(k)),
    decreases k,
{
    if k == 0 {
        reveal(parts_before);
        assert(x.script.take(0) =~= Seq::<Note>::empty());
        assert(forall|name: Seq<char>| !written_before(x, 0, name));
    } else {
        let i = k - 1;
        lemma_second_import(x, y, i);
        lemma_alike_next(x, y, i);
        lemma_reported_next(x, i);
        lemma_reported_next(y, i);
        lemma_next(y, i);
        if in_deck(x, i) {
            lemma_second_note(x, y, i);
            lemma_second_finds(x, y, i);
        }
        lemma_number_left(y, i);
    }
}

#[verifier::spinoff_prover]
proof fn lemma_number_left(y: Ready, i: int)
    requires
        0 <= i < y.script.len(),
        in_deck(y, i) ==> has_notes_at(y, i),
    ensures
        number_left(
            y.dir,
            y.dir.names,
            y.slides,
            progress(y.dir, y.slides, y.parts, y.script.take(i)).parts,
            y.script[i].page,
        ),
{
    reveal(parts_before);
    reveal(has_notes_at);
}

// ---- the second import ----

/// The parts of an import have no directory among them.
#[verifier::spinoff_prover]
proof fn lemma_parts_are_files(x: Ready, k: int, name: Seq<char>)
    requires
        0 <= k <= x.script.len(),
        find_part(x.parts, name) is None,
        directory_name(name),
    ensures
        find_part(parts_before(x, k), name) is None,
    decreases k,
{
    if k == 0 {
        reveal(parts_before);
        assert(x.script.take(0) =~= Seq::<Note>::empty());
    } else {
        let i = k - 1;
        lemma_parts_are_files(x, i, name);
        lemma_next(x, i);
        if in_deck(x, i) {
            reveal(step);
            lemma_note_keeps_parts(
                x.dir,
                x.dir.names,
                x.slides,
                parts_before(x, i),
                x.script[i].page,
                x.script[i].text,
                name,
            );
        }
    }
}

/// A package that is ready has a notes master, and none of its new parts is a directory.
pub proof fn lemma_ready(bytes: Seq<u8>, script: Seq<char>, template: Template)
    requires
        ready(bytes, script, template) is Ok,
    ensures
        ({
            let x = ready(bytes, script, template)->Ok_0;
            &&& has_master(x.dir.names, x.parts)
            &&& forall|name: Seq<char>|
                directory_name(name) ==> #[trigger] find_part(x.parts, name) is None
        }),
{
    let x = ready(bytes, script, template)->Ok_0;
    assert forall|name: Seq<char>| directory_name(name) implies #[trigger] find_part(
        x.parts,
        name,
    ) is None by {
        if !x.dir.names.contains(NOTES_MASTER@) {
            lemma_master_is_in(x.dir, x.dir.names, Seq::empty(), template, name);
        }
    }
    if !x.dir.names.contains(NOTES_MASTER@) {
        lemma_master_is_in(x.dir, x.dir.names, Seq::empty(), template, NOTES_MASTER@);
        law_part_is_found(x.parts, NOTES_MASTER@);
    }
}

/// The package that an import wrote, when it is read.
pub open spec fn read_again(x: Ready) -> ZipDirectory {
    directory_of(plan_of(x).entries)
}

/// What is read of the package that an import wrote is what the import made of it.
pub proof fn lemma_read_again(x: Ready, name: Seq<char>)
    requires
        x.dir.names.no_duplicates(),
        distinct_names(outcome_of(x).parts),
        plan_of(x).error is None,
    ensures
        !directory_name(name) ==> current(read_again(x), Seq::empty(), name) == current(
            x.dir,
            outcome_of(x).parts,
            name,
        ),
        find_part(outcome_of(x).parts, name) is Some && !directory_name(name)
            ==> read_again(x).names.contains(name),
        x.dir.names.contains(name) ==> read_again(x).names.contains(name),
{
    law_package_reads_back(x.dir, x.dir.names, outcome_of(x).parts, name);
    if x.dir.names.contains(name) {
        let i = choose|i: int| 0 <= i < x.dir.names.len() && x.dir.names[i] == name;
        assert(read_again(x).names.take(x.dir.names.len() as int)[i] == name);
        assert(read_again(x).names[i] == name);
    }
}

/// Where no note touches the parts of another page, the notes of every page can be replaced
/// again and again, and the same deck is read before and after, a second import of the same
/// script gives what the first gave.
pub proof fn lemma_second_import_is_the_first(
    bytes: Seq<u8>,
    script: Seq<char>,
    template: Template,
    r: Result<(ImportSummary, Vec<u8>), String>,
    second: Result<(ImportSummary, Vec<u8>), String>,
)
    requires
        within_limits(bytes, script, template),
        imports(bytes, script, template, r),
        r is Ok,
        imports(r->Ok_0.1@, script, template, second),
        r->Ok_0.1@.len() < 0xffff_ffff,
        ({
            let x = ready(bytes, script, template)->Ok_0;
            &&& plan_of(x).entries.len() != 65535
            &&& moderate(plan_of(x).entries)
            &&& pages_apart(x)
            &&& notes_rewritable(x)
            &&& current(x.dir, x.parts, CONTENT_TYPES@) is Some
            &&& slides_of(read_again(x)) == slides_of(x.dir)
        }),
    ensures
        within_limits(r->Ok_0.1@, script, template),
        second is Ok,
        second->Ok_0.1@ == r->Ok_0.1@,
        page_notes(second->Ok_0.0.applied@) == page_notes(r->Ok_0.0.applied@),
        page_notes(second->Ok_0.0.failed@) == page_notes(r->Ok_0.0.failed@),
{
    let x = ready(bytes, script, template)->Ok_0;
    let n = x.script.len() as int;
    let dir = read_again(x);
    let y = Ready { dir, slides: x.slides, parts: Seq::empty(), script: x.script };
    let parts = outcome_of(x).parts;
    lemma_ready(bytes, script, template);
    lemma_parts_distinct(bytes, script, template);
    lemma_names_of_distinct_plan(x.dir, x.dir.names, parts);
    assert(x.script.take(n) =~= x.script);
    assert(parts_before(x, n) == parts) by {
        reveal(parts_before);
    }
    // the package is ready again
    lemma_infrastructure_stays(x, n);
    lemma_master_is_read(x);
    assert(zip_open(sanitized(r->Ok_0.1@)) == Ok::<ZipDirectory, Seq<char>>(dir));
    assert(ready(r->Ok_0.1@, script, template) == Ok::<Ready, Seq<char>>(y));
    // it is what the import made of it
    assert forall|name: Seq<char>| !directory_name(name) implies #[trigger] current(
        y.dir,
        Seq::empty(),
        name,
    ) == current(x.dir, parts_before(x, n), name) by {
        lemma_read_again(x, name);
    }
    assert(follows(x, y));
    assert(steps_read_back(y, y.script.len() as int));
    lemma_second_import(x, y, n);
    // and comes out as it is
    let later = outcome_of(y).parts;
    assert(parts_before(y, n) == later) by {
        reveal(parts_before);
    }
    assert forall|name: Seq<char>| #[trigger] find_part(later, name) is Some implies find_part(
        later,
        name,
    ) == find_part(parts, name) by {
        assert(find_part(parts_before(y, n), name) is Some);
    }
    assert forall|name: Seq<char>| directory_name(name) implies #[trigger] find_part(
        parts,
        name,
    ) is None by {
        lemma_parts_are_files(x, n, name);
    }
    lemma_plan_again(x.dir, x.dir.names, parts, later);
    assert(plan_of(y) == plan_of(x));
}

/// The notes master of a package is in the package that an import wrote.
pub proof fn lemma_master_is_read(x: Ready)
    requires
        x.dir.names.no_duplicates(),
        distinct_names(outcome_of(x).parts),
        plan_of(x).error is None,
        has_master(x.dir.names, outcome_of(x).parts),
    ensures
        read_again(x).names.contains(NOTES_MASTER@),
{
    reveal_strlit("ppt/notesMasters/notesMaster1.xml");
    assert(NOTES_MASTER@.last() == 'l');
    lemma_read_again(x, NOTES_MASTER@);
    law_part_is_found(outcome_of(x).parts, NOTES_MASTER@);
}

} // verus!
