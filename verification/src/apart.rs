//! Packages whose pages do not share parts.

use crate::again::{
    has_notes_at, holds_text, in_deck, lemma_existing_step, lemma_failed_notes_stay, lemma_found,
    lemma_found_later, lemma_infrastructure_stays, lemma_leaves, lemma_master_is_read, lemma_next,
    lemma_notes_stay, lemma_parts_differ, lemma_path_is_file, lemma_read_again, lemma_reads,
    lemma_ready, lemma_rels_stay, lemma_second_import_is_the_first, lemma_step, lemma_stored,
    lemma_text_replaced, notes_rewritable, pages_apart, part_at, read_again, rels_at, repeatable,
    step, touches_at,
};
use crate::apply::{
    has_master, largest_in_package, law_new_notes_slide_is_new, lemma_names_differ,
    lemma_new_note_succeeds, lemma_note_keeps_parts, note_reads, note_rewritable, slide_rels,
    slide_rels_path, types_read, NOTES_RELS_PATH_END, NOTES_RELS_PATH_START, NOTES_START,
    NOTES_TYPE_SUFFIX, SLIDES_DIR,
};
use crate::archive::{
    current, directory_name, entry_of, lemma_names_of_distinct_plan, moderate, readable_entry,
    zip_open, ZipDirectory,
};
use crate::deck::{law_deck_survives_the_notes_master, plain_deck};
use crate::import::{
    imports, law_imported_package_reads_back, lemma_numbers_left, lemma_parts_distinct,
    numbers_left, outcome_of, page_notes, parts_before, plan_of, ready, steps_read_back,
    within_limits, ImportSummary, Ready,
};
use crate::master::{lemma_injected_presentation, Template, CONTENT_TYPES, NOTES_MASTER, XML_SUFFIX};
use crate::notes::{notes_with_text, slide_read};
use crate::numbering::numbered;
use crate::parts::{find_part, law_part_is_found, law_put_part_is_found};
use crate::presentation::{deck_reads, slides_of, PRESENTATION, PRESENTATION_RELS};
use crate::rels::{find_type, rels_of, resolved};
use crate::rewrite::rewritable;
use crate::script::Note;
use crate::slide::notes_slide;
use crate::text::utf8;
use crate::timestamps::sanitized;
use vstd::prelude::*;

verus! {

/// The notes slide of a page before any note is put in, if it has one.
pub open spec fn own_notes(x: Ready, page: u32) -> Option<Seq<char>> {
    match find_type(slide_rels(x.dir, x.parts, x.slides[page]), NOTES_TYPE_SUFFIX@) {
        Some(rel) => Some(resolved(SLIDES_DIR@, rel.target)),
        None => None,
    }
}

/// Whether the notes slide of a page, if it has one, is in the package, can get its text
/// again and again, and does not stand where other parts are kept: the content types, the
/// presentation, and the relationships of that, of slides and of notes slides.
pub open spec fn notes_in_place(x: Ready, page: u32) -> bool {
    own_notes(x, page) matches Some(path) ==> {
        &&& current(x.dir, x.parts, path) is Some
        &&& rewritable(current(x.dir, x.parts, path)->0)
        &&& path != CONTENT_TYPES@
        &&& path != PRESENTATION@
        &&& path != PRESENTATION_RELS@
        &&& forall|n: nat|
            path != #[trigger] numbered(NOTES_RELS_PATH_START@, n, NOTES_RELS_PATH_END@)
        &&& forall|other: u32| #[trigger]
            x.slides.contains_key(other) ==> path != slide_rels_path(x.slides[other])
    }
}

/// Whether the pages of a package have their own parts: each has its notes slide in place,
/// and no two have a notes slide or the relationships of their slides in one part.
pub open spec fn separate_pages(x: Ready) -> bool {
    &&& forall|p: u32| #[trigger] x.slides.contains_key(p) ==> notes_in_place(x, p)
    &&& forall|p: u32, q: u32|
        #[trigger] x.slides.contains_key(p) && #[trigger] x.slides.contains_key(q) && p != q ==> {
            &&& slide_rels_path(x.slides[p]) != slide_rels_path(x.slides[q])
            &&& own_notes(x, p) is Some ==> own_notes(x, p) != own_notes(x, q)
        }
}

// ---- the first notes of a script ----

/// A package that is ready for the first `n` notes.
pub open spec fn prefix(x: Ready, n: int) -> Ready {
    Ready { script: x.script.take(n), ..x }
}

#[verifier::spinoff_prover]
proof fn lemma_prefix(x: Ready, n: int, k: int)
    requires
        0 <= k <= n <= x.script.len(),
    ensures
        parts_before(prefix(x, n), k) == parts_before(x, k),
        k < n ==> prefix(x, n).script[k] == x.script[k],
        k < n ==> in_deck(prefix(x, n), k) == in_deck(x, k),
        k < n ==> step(prefix(x, n), k) == step(x, k),
        k < n ==> part_at(prefix(x, n), k) == part_at(x, k),
        k < n ==> rels_at(prefix(x, n), k) == rels_at(x, k),
        k < n ==> has_notes_at(prefix(x, n), k) == has_notes_at(x, k),
        forall|name: Seq<char>|
            k < n ==> #[trigger] touches_at(prefix(x, n), k, name) == touches_at(x, k, name),
{
    reveal(parts_before);
    reveal(step);
    reveal(part_at);
    reveal(has_notes_at);
    reveal(touches_at);
    assert(x.script.take(n).take(k) =~= x.script.take(k));
}

/// Whether neither of two notes for different pages touches the parts of the other's page.
pub open spec fn apart(x: Ready, i: int, j: int) -> bool {
    x.script[i].page != x.script[j].page ==> {
        &&& !touches_at(x, j, rels_at(x, i))
        &&& !touches_at(x, j, part_at(x, i))
        &&& !touches_at(x, i, rels_at(x, j))
        &&& !touches_at(x, i, part_at(x, j))
    }
}

/// Whether a name is that of a new notes slide.
pub open spec fn new_notes_name(x: Ready, name: Seq<char>) -> bool {
    &&& exists|n: nat| name == #[trigger] numbered(NOTES_START@, n, XML_SUFFIX@)
    &&& !x.dir.names.contains(name)
    &&& find_part(x.parts, name) is None
}

/// Whether the note at `k` goes to the page's own notes slide or, where there was none, to
/// a new one.
pub open spec fn own_or_new(x: Ready, k: int) -> bool {
    match own_notes(x, x.script[k].page) {
        Some(path) => has_notes_at(x, k) && part_at(x, k) == path,
        None => new_notes_name(x, part_at(x, k)) && find_part(
            parts_before(x, k + 1),
            part_at(x, k),
        ) is Some,
    }
}

/// What is known of the first `n` notes.
spec fn known(x: Ready, n: int) -> bool {
    &&& forall|i: int, j: int|
        0 <= i < n && 0 <= j < n && #[trigger] in_deck(x, i) && #[trigger] in_deck(x, j) ==> apart(
            x,
            i,
            j,
        )
    &&& forall|k: int|
        0 <= k < n && #[trigger] in_deck(x, k) ==> own_or_new(x, k) && note_rewritable(
            x.dir,
            x.slides,
            parts_before(x, k),
            x.script[k].page,
        )
}

spec fn given(x: Ready) -> bool {
    &&& separate_pages(x)
    &&& has_master(x.dir.names, x.parts)
    &&& current(x.dir, x.parts, CONTENT_TYPES@) is Some
    &&& steps_read_back(x, x.script.len() as int)
    &&& numbers_left(x.dir, x.slides, x.parts, x.script)
}

#[verifier::spinoff_prover]
proof fn lemma_known_prefix(x: Ready, n: int)
    requires
        given(x),
        known(x, n),
        0 <= n <= x.script.len(),
    ensures
        repeatable(prefix(x, n)),
        steps_read_back(prefix(x, n), n),
{
    let y = prefix(x, n);
    assert forall|i: int, j: int|
        #[trigger] in_deck(y, i) && #[trigger] in_deck(y, j) && y.script[i].page
            != y.script[j].page implies !touches_at(y, j, rels_at(y, i)) && !touches_at(
        y,
        j,
        part_at(y, i),
    ) by {
        lemma_prefix(x, n, i);
        lemma_prefix(x, n, j);
        assert(in_deck(x, i) && in_deck(x, j));
        assert(apart(x, i, j));
    }
    assert forall|k: int| in_deck(y, k) implies note_rewritable(
        y.dir,
        y.slides,
        #[trigger] parts_before(y, k),
        y.script[k].page,
    ) by {
        lemma_prefix(x, n, k);
        assert(in_deck(x, k));
    }
    assert forall|k: int| 0 <= k < n implies note_reads(
        y.dir,
        y.slides,
        #[trigger] parts_before(y, k),
        y.script[k].page,
    ) && types_read(y.dir, y.dir.names, y.slides, parts_before(y, k), y.script[k].page) by {
        lemma_prefix(x, n, k);
        assert(note_reads(x.dir, x.slides, parts_before(x, k), x.script[k].page));
    }
}

/// A part that is there stays there.
#[verifier::spinoff_prover]
proof fn lemma_part_stays(x: Ready, i: int, j: int, name: Seq<char>)
    requires
        0 <= i <= j <= x.script.len(),
        find_part(parts_before(x, i), name) is Some,
    ensures
        find_part(parts_before(x, j), name) is Some,
    decreases j - i,
{
    if i < j {
        lemma_part_stays(x, i, j - 1, name);
        lemma_next(x, j - 1);
        if in_deck(x, j - 1) {
            reveal(step);
            lemma_note_keeps_parts(
                x.dir,
                x.dir.names,
                x.slides,
                parts_before(x, j - 1),
                x.script[j - 1].page,
                x.script[j - 1].text,
                name,
            );
        }
    }
}

proof fn lemma_at_first(x: Ready)
    ensures
        parts_before(x, 0) == x.parts,
{
    reveal(parts_before);
    assert(x.script.take(0) =~= Seq::<Note>::empty());
}

/// A part that none of the first `n` notes touches is as it was.
#[verifier::spinoff_prover]
proof fn lemma_untouched(x: Ready, n: int, name: Seq<char>)
    requires
        0 <= n <= x.script.len(),
        forall|l: int| 0 <= l < n && #[trigger] in_deck(x, l) ==> !touches_at(x, l, name),
    ensures
        find_part(parts_before(x, n), name) == find_part(x.parts, name),
    decreases n,
{
    if n == 0 {
        lemma_at_first(x);
    } else {
        lemma_untouched(x, n - 1, name);
        lemma_next(x, n - 1);
        if in_deck(x, n - 1) {
            lemma_leaves(x, n - 1, name);
        }
    }
}

/// What a note touches: the part for the notes, and with a new one its relationships, those
/// of the slide, and the content types.
#[verifier::spinoff_prover]
proof fn lemma_touched(x: Ready, l: int, name: Seq<char>)
    requires
        in_deck(x, l),
        touches_at(x, l, name),
    ensures
        ({
            ||| name == part_at(x, l)
            ||| name == rels_at(x, l)
            ||| name == CONTENT_TYPES@
            ||| exists|n: nat|
                name == #[trigger] numbered(NOTES_RELS_PATH_START@, n, NOTES_RELS_PATH_END@)
        }),
        has_notes_at(x, l) ==> name == part_at(x, l),
{
    reveal(touches_at);
    reveal(part_at);
    reveal(has_notes_at);
}

/// Where the notes of a page go is no part of another kind.
#[verifier::spinoff_prover]
proof fn lemma_kinds(x: Ready, k: int, page: u32, n: nat)
    requires
        separate_pages(x),
        in_deck(x, k),
        own_or_new(x, k),
        x.slides.contains_key(page),
    ensures
        part_at(x, k) != CONTENT_TYPES@,
        part_at(x, k) != slide_rels_path(x.slides[page]),
        part_at(x, k) != numbered(NOTES_RELS_PATH_START@, n, NOTES_RELS_PATH_END@),
        slide_rels_path(x.slides[page]) != CONTENT_TYPES@,
        slide_rels_path(x.slides[page]) != numbered(
            NOTES_RELS_PATH_START@,
            n,
            NOTES_RELS_PATH_END@,
        ),
{
    let p = x.script[k].page;
    assert(x.slides.contains_key(p));
    assert(notes_in_place(x, p));
    if own_notes(x, p) is None {
        let a = choose|a: nat| part_at(x, k) == #[trigger] numbered(NOTES_START@, a, XML_SUFFIX@);
        lemma_names_differ(x.slides[page], a, n);
    } else {
        lemma_names_differ(x.slides[page], n, n);
    }
}

/// Two notes for different pages are apart where they go to different parts.
#[verifier::spinoff_prover]
proof fn lemma_apart(x: Ready, i: int, j: int)
    requires
        separate_pages(x),
        in_deck(x, i),
        in_deck(x, j),
        own_or_new(x, i),
        own_or_new(x, j),
        x.script[i].page != x.script[j].page ==> part_at(x, i) != part_at(x, j),
    ensures
        apart(x, i, j),
{
    if x.script[i].page != x.script[j].page {
        lemma_one_way(x, i, j);
        lemma_one_way(x, j, i);
    }
}

#[verifier::spinoff_prover]
proof fn lemma_one_way(x: Ready, i: int, j: int)
    requires
        separate_pages(x),
        in_deck(x, i),
        in_deck(x, j),
        own_or_new(x, i),
        own_or_new(x, j),
        x.script[i].page != x.script[j].page,
        part_at(x, i) != part_at(x, j),
    ensures
        !touches_at(x, j, rels_at(x, i)),
        !touches_at(x, j, part_at(x, i)),
{
    let p = x.script[i].page;
    let q = x.script[j].page;
    assert(x.slides.contains_key(p) && x.slides.contains_key(q));
    if touches_at(x, j, rels_at(x, i)) {
        let name = rels_at(x, i);
        lemma_touched(x, j, name);
        lemma_kinds(x, j, p, 0);
        if name != part_at(x, j) && name != rels_at(x, j) && name != CONTENT_TYPES@ {
            let n = choose|n: nat|
                name == #[trigger] numbered(NOTES_RELS_PATH_START@, n, NOTES_RELS_PATH_END@);
            lemma_kinds(x, j, p, n);
        }
    }
    if touches_at(x, j, part_at(x, i)) {
        let name = part_at(x, i);
        lemma_touched(x, j, name);
        lemma_kinds(x, i, q, 0);
        if name != part_at(x, j) && name != rels_at(x, j) && name != CONTENT_TYPES@ {
            let n = choose|n: nat|
                name == #[trigger] numbered(NOTES_RELS_PATH_START@, n, NOTES_RELS_PATH_END@);
            lemma_kinds(x, i, q, n);
        }
    }
}

/// A page that had a note before: its next goes to the same part, which can still get a
/// text.
#[verifier::spinoff_prover]
proof fn lemma_page_again(x: Ready, i: int, n: int)
    requires
        given(x),
        known(x, n),
        0 <= i < n < x.script.len(),
        in_deck(x, i),
        in_deck(x, n),
        x.script[i].page == x.script[n].page,
    ensures
        part_at(x, n) == part_at(x, i),
        own_or_new(x, n),
        note_rewritable(x.dir, x.slides, parts_before(x, n), x.script[n].page),
{
    let y = prefix(x, n);
    lemma_known_prefix(x, n);
    lemma_prefix(x, n, i);
    lemma_prefix(x, n, i + 1);
    lemma_prefix(x, n, n);
    assert(y.script.len() == n);
    lemma_step(y, i);
    lemma_rels_stay(y, i, n);
    assert(own_or_new(x, i));
    assert(note_reads(x.dir, x.slides, parts_before(x, n), x.script[n].page));
    lemma_found(x, i, n);
    let path = part_at(x, i);
    assert(own_or_new(x, n)) by {
        if own_notes(x, x.script[n].page) is None {
            lemma_part_stays(x, i + 1, n + 1, path);
        }
    }
    assert(path != rels_at(x, i)) by {
        lemma_kinds(x, i, x.script[i].page, 0);
    }
    lemma_readable(x, n);
    if step(y, i).result is Ok {
        lemma_notes_stay(y, i, n);
        let data = find_part(parts_before(x, n), path)->0;
        lemma_text_replaced(y, i, data, x.script[n].text);
    } else {
        lemma_failed_notes_stay(y, i, n);
        lemma_rewritable_at(x, i);
    }
    lemma_rewritable_from(x, n);
}

/// What is read at a page with a notes slide.
#[verifier::spinoff_prover]
proof fn lemma_readable(x: Ready, n: int)
    requires
        in_deck(x, n),
        has_notes_at(x, n),
        note_reads(x.dir, x.slides, parts_before(x, n), x.script[n].page),
    ensures
        current(x.dir, parts_before(x, n), part_at(x, n)) matches Some(xml)
            ==> slide_read(xml),
{
    reveal(has_notes_at);
    reveal(part_at);
}

#[verifier::spinoff_prover]
proof fn lemma_rewritable_at(x: Ready, n: int)
    requires
        in_deck(x, n),
        has_notes_at(x, n),
        note_rewritable(x.dir, x.slides, parts_before(x, n), x.script[n].page),
    ensures
        current(x.dir, parts_before(x, n), part_at(x, n)) matches Some(xml) ==> rewritable(xml),
{
    reveal(has_notes_at);
    reveal(part_at);
}

#[verifier::spinoff_prover]
proof fn lemma_rewritable_from(x: Ready, n: int)
    requires
        in_deck(x, n),
        has_notes_at(x, n),
        part_at(x, n) != rels_at(x, n),
        current(x.dir, parts_before(x, n), part_at(x, n)) matches Some(xml) ==> rewritable(xml),
    ensures
        note_rewritable(x.dir, x.slides, parts_before(x, n), x.script[n].page),
{
    reveal(has_notes_at);
    reveal(part_at);
}

/// A page that had no note before: its note goes to its own notes slide, or to a new one
/// that no part so far is.
#[verifier::spinoff_prover]
proof fn lemma_page_first(x: Ready, n: int)
    requires
        given(x),
        known(x, n),
        0 <= n < x.script.len(),
        in_deck(x, n),
        forall|i: int| 0 <= i < n && #[trigger] in_deck(x, i) ==> x.script[i].page != x.script[n].page,
    ensures
        own_or_new(x, n),
        note_rewritable(x.dir, x.slides, parts_before(x, n), x.script[n].page),
        own_notes(x, x.script[n].page) is None ==> find_part(parts_before(x, n), part_at(x, n)) is None,
        has_notes_at(x, n) == own_notes(x, x.script[n].page) is Some,
        own_notes(x, x.script[n].page) matches Some(own) ==> current(
            x.dir,
            parts_before(x, n),
            own,
        ) == current(x.dir, x.parts, own),
{
    let page = x.script[n].page;
    let path = rels_at(x, n);
    assert(x.slides.contains_key(page));
    assert(notes_in_place(x, page));
    assert forall|l: int| 0 <= l < n && #[trigger] in_deck(x, l) implies !touches_at(
        x,
        l,
        path,
    ) by {
        lemma_leaves_rels(x, l, n);
    }
    lemma_untouched(x, n, path);
    assert(slide_rels(x.dir, parts_before(x, n), x.slides[page]) == slide_rels(
        x.dir,
        x.parts,
        x.slides[page],
    ));
    if own_notes(x, page) is Some {
        let own = own_notes(x, page)->0;
        assert(has_notes_at(x, n) && part_at(x, n) == own) by {
            reveal(has_notes_at);
            reveal(part_at);
        }
        assert forall|l: int| 0 <= l < n && #[trigger] in_deck(x, l) implies !touches_at(
            x,
            l,
            own,
        ) by {
            lemma_leaves_own(x, l, n);
        }
        lemma_untouched(x, n, own);
        lemma_rewritable_from(x, n);
    } else {
        lemma_new_part(x, n);
        assert(!has_notes_at(x, n)) by {
            reveal(has_notes_at);
        }
    }
}

#[verifier::spinoff_prover]
proof fn lemma_leaves_rels(x: Ready, l: int, n: int)
    requires
        separate_pages(x),
        in_deck(x, l),
        in_deck(x, n),
        own_or_new(x, l),
        x.script[l].page != x.script[n].page,
    ensures
        !touches_at(x, l, rels_at(x, n)),
{
    let name = rels_at(x, n);
    let p = x.script[n].page;
    assert(x.slides.contains_key(p) && x.slides.contains_key(x.script[l].page));
    if touches_at(x, l, name) {
        lemma_touched(x, l, name);
        lemma_kinds(x, l, p, 0);
        if name != part_at(x, l) && name != rels_at(x, l) && name != CONTENT_TYPES@ {
            let k = choose|k: nat|
                name == #[trigger] numbered(NOTES_RELS_PATH_START@, k, NOTES_RELS_PATH_END@);
            lemma_kinds(x, l, p, k);
        }
    }
}

#[verifier::spinoff_prover]
proof fn lemma_leaves_own(x: Ready, l: int, n: int)
    requires
        separate_pages(x),
        in_deck(x, l),
        in_deck(x, n),
        own_or_new(x, l),
        x.script[l].page != x.script[n].page,
        own_notes(x, x.script[n].page) is Some,
    ensures
        !touches_at(x, l, own_notes(x, x.script[n].page)->0),
        part_at(x, l) != own_notes(x, x.script[n].page)->0,
{
    let p = x.script[n].page;
    let q = x.script[l].page;
    let own = own_notes(x, p)->0;
    assert(x.slides.contains_key(p) && x.slides.contains_key(q));
    assert(notes_in_place(x, p));
    if touches_at(x, l, own) {
        lemma_touched(x, l, own);
    }
}

/// A new notes slide is in the package afterwards, and nothing was in its place.
#[verifier::spinoff_prover]
proof fn lemma_new_part(x: Ready, n: int)
    requires
        given(x),
        known(x, n),
        0 <= n < x.script.len(),
        in_deck(x, n),
        own_notes(x, x.script[n].page) is None,
        slide_rels(x.dir, parts_before(x, n), x.slides[x.script[n].page]) == slide_rels(
            x.dir,
            x.parts,
            x.slides[x.script[n].page],
        ),
    ensures
        own_or_new(x, n),
        note_rewritable(x.dir, x.slides, parts_before(x, n), x.script[n].page),
        find_part(parts_before(x, n), part_at(x, n)) is None,
{
    let now = parts_before(x, n);
    let path = part_at(x, n);
    lemma_infrastructure(x, n);
    assert(largest_in_package(x.dir.names, now) < u32::MAX) by {
        reveal(parts_before);
        lemma_numbers_left(x.dir, x.slides, x.parts, x.script, n + 1);
        assert(x.script.take(n + 1).drop_last() == x.script.take(n));
        assert(x.script.take(n + 1).last() == x.script[n]);
    }
    law_new_notes_slide_is_new(x.dir.names, now);
    assert(!has_notes_at(x, n)) by {
        reveal(has_notes_at);
    }
    assert(path == numbered(
        NOTES_START@,
        largest_in_package(x.dir.names, now) as nat + 1,
        XML_SUFFIX@,
    )) by {
        reveal(part_at);
    }
    law_part_is_found(now, path);
    assert(find_part(x.parts, path) is None) by {
        if find_part(x.parts, path) is Some {
            lemma_at_first(x);
            lemma_part_stays(x, 0, n, path);
        }
    }
    lemma_new_is_stored(x, n);
}

#[verifier::spinoff_prover]
proof fn lemma_infrastructure(x: Ready, n: int)
    requires
        given(x),
        known(x, n),
        0 <= n <= x.script.len(),
    ensures
        has_master(x.dir.names, parts_before(x, n)),
        current(x.dir, parts_before(x, n), CONTENT_TYPES@) is Some,
{
    lemma_known_prefix(x, n);
    lemma_prefix(x, n, n);
    lemma_infrastructure_stays(prefix(x, n), n);
}

#[verifier::spinoff_prover]
proof fn lemma_new_is_stored(x: Ready, n: int)
    requires
        in_deck(x, n),
        !has_notes_at(x, n),
        has_master(x.dir.names, parts_before(x, n)),
        current(x.dir, parts_before(x, n), CONTENT_TYPES@) is Some,
    ensures
        find_part(parts_before(x, n + 1), part_at(x, n)) is Some,
        note_rewritable(x.dir, x.slides, parts_before(x, n), x.script[n].page),
{
    reveal(has_notes_at);
    reveal(step);
    let note = x.script[n];
    lemma_new_note_succeeds(
        x.dir,
        x.dir.names,
        x.slides,
        parts_before(x, n),
        note.page,
        note.text,
    );
    lemma_stored(x, n);
}

/// One more note.
#[verifier::spinoff_prover]
proof fn lemma_known_next(x: Ready, n: int)
    requires
        given(x),
        known(x, n),
        0 <= n < x.script.len(),
    ensures
        known(x, n + 1),
{
    if in_deck(x, n) {
        lemma_known_one(x, n);
    }
    assert forall|i: int, j: int|
        0 <= i < n + 1 && 0 <= j < n + 1 && #[trigger] in_deck(x, i) && #[trigger] in_deck(
            x,
            j,
        ) implies apart(x, i, j) by {
        if i < n && j < n {
            assert(apart(x, i, j));
        } else if i < n {
            lemma_known_pair(x, i, n);
        } else if j < n {
            lemma_known_pair(x, j, n);
        }
    }
}

#[verifier::spinoff_prover]
proof fn lemma_known_one(x: Ready, n: int)
    requires
        given(x),
        known(x, n),
        in_deck(x, n),
    ensures
        own_or_new(x, n),
        note_rewritable(x.dir, x.slides, parts_before(x, n), x.script[n].page),
{
    if exists|i: int|
        0 <= i < n && #[trigger] in_deck(x, i) && x.script[i].page == x.script[n].page {
        let i = choose|i: int|
            0 <= i < n && #[trigger] in_deck(x, i) && x.script[i].page == x.script[n].page;
        lemma_page_again(x, i, n);
    } else {
        lemma_page_first(x, n);
    }
}

#[verifier::spinoff_prover]
proof fn lemma_known_pair(x: Ready, l: int, n: int)
    requires
        given(x),
        known(x, n),
        0 <= l < n,
        in_deck(x, l),
        in_deck(x, n),
    ensures
        apart(x, l, n),
{
    lemma_known_one(x, n);
    assert(own_or_new(x, l));
    let p = x.script[n].page;
    let q = x.script[l].page;
    if p != q {
        if own_notes(x, p) is Some {
            lemma_leaves_own(x, l, n);
        } else if own_notes(x, q) is Some {
            lemma_leaves_own(x, n, l);
        } else if exists|i: int|
            0 <= i < n && #[trigger] in_deck(x, i) && x.script[i].page == p {
            let i = choose|i: int|
                0 <= i < n && #[trigger] in_deck(x, i) && x.script[i].page == p;
            lemma_page_again(x, i, n);
            lemma_known_prefix(x, n);
            lemma_prefix(x, n, i);
            lemma_prefix(x, n, l);
            lemma_parts_differ(prefix(x, n), l, i);
        } else {
            lemma_page_first(x, n);
            lemma_part_stays(x, l + 1, n, part_at(x, l));
        }
        lemma_apart(x, l, n);
    }
}

proof fn lemma_known(x: Ready, n: int)
    requires
        given(x),
        0 <= n <= x.script.len(),
    ensures
        known(x, n),
    decreases n,
{
    if n > 0 {
        lemma_known(x, n - 1);
        lemma_known_next(x, n - 1);
    }
}

/// In a package whose pages have their own parts, no note touches the parts of another
/// page, and the notes of every page can be replaced again and again.
pub proof fn law_separate_pages_stay_apart(x: Ready)
    requires
        separate_pages(x),
        has_master(x.dir.names, x.parts),
        current(x.dir, x.parts, CONTENT_TYPES@) is Some,
        steps_read_back(x, x.script.len() as int),
        numbers_left(x.dir, x.slides, x.parts, x.script),
    ensures
        pages_apart(x),
        notes_rewritable(x),
{
    let n = x.script.len() as int;
    lemma_known(x, n);
    assert forall|i: int, j: int|
        #[trigger] in_deck(x, i) && #[trigger] in_deck(x, j) && x.script[i].page
            != x.script[j].page implies !touches_at(x, j, rels_at(x, i)) && !touches_at(
        x,
        j,
        part_at(x, i),
    ) by {
        assert(apart(x, i, j));
    }
    assert forall|k: int| in_deck(x, k) implies note_rewritable(
        x.dir,
        x.slides,
        #[trigger] parts_before(x, k),
        x.script[k].page,
    ) by {
        assert(own_or_new(x, k));
    }
}

// ---- what each page gets ----

/// The notes slide of a page with a text: its own, should it have one, or a new one.
pub open spec fn page_data(x: Ready, page: u32, text: Seq<char>) -> Result<Seq<u8>, Seq<char>> {
    match own_notes(x, page) {
        Some(path) => notes_with_text(current(x.dir, x.parts, path)->0, text),
        None => Ok(utf8(notes_slide(text))),
    }
}

/// The first note for the page of a note.
proof fn lemma_first_note(x: Ready, i: int) -> (f: int)
    requires
        in_deck(x, i),
    ensures
        0 <= f <= i,
        in_deck(x, f),
        x.script[f].page == x.script[i].page,
        forall|l: int| 0 <= l < f && #[trigger] in_deck(x, l) ==> x.script[l].page != x.script[f].page,
    decreases i,
{
    if exists|l: int|
        0 <= l < i && #[trigger] in_deck(x, l) && x.script[l].page == x.script[i].page {
        let l = choose|l: int|
            0 <= l < i && #[trigger] in_deck(x, l) && x.script[l].page == x.script[i].page;
        lemma_first_note(x, l)
    } else {
        i
    }
}

/// What the first note for a page does.
#[verifier::spinoff_prover]
proof fn lemma_first_note_gives(x: Ready, f: int)
    requires
        given(x),
        in_deck(x, f),
        forall|l: int| 0 <= l < f && #[trigger] in_deck(x, l) ==> x.script[l].page != x.script[f].page,
    ensures
        note_gives(x, f),
        forall|data: Seq<u8>, text: Seq<char>| #[trigger]
            holds_text(x, f, data, text) ==> page_data(x, x.script[f].page, text) == Ok::<
                Seq<u8>,
                Seq<char>,
            >(data),
{
    let page = x.script[f].page;
    let text = x.script[f].text;
    assert(x.slides.contains_key(page));
    assert(notes_in_place(x, page));
    lemma_known(x, f);
    lemma_page_first(x, f);
    lemma_next(x, f);
    if own_notes(x, page) is Some {
        lemma_existing_step(x, f);
        if let Ok(b) = page_data(x, page, text) {
            law_put_part_is_found(parts_before(x, f), part_at(x, f), b, part_at(x, f));
        }
    } else {
        law_separate_pages_stay_apart(x);
        lemma_step(x, f);
        lemma_stored(x, f);
        reveal(has_notes_at);
    }
}

/// Whether the note at `i` does what [`page_data`] says.
pub open spec fn note_gives(x: Ready, i: int) -> bool {
    match page_data(x, x.script[i].page, x.script[i].text) {
        Ok(b) => step(x, i).result is Ok && find_part(parts_before(x, i + 1), part_at(x, i)) == Some(
            b,
        ),
        Err(m) => step(x, i).result == Err::<(), Seq<char>>(m),
    }
}

/// Every note for a page of the deck gives the page's notes slide its text, or fails as that
/// fails, whatever notes came before it.
#[verifier::spinoff_prover]
pub proof fn law_note_gives_the_page_its_text(x: Ready, i: int)
    requires
        separate_pages(x),
        has_master(x.dir.names, x.parts),
        current(x.dir, x.parts, CONTENT_TYPES@) is Some,
        steps_read_back(x, x.script.len() as int),
        numbers_left(x.dir, x.slides, x.parts, x.script),
        in_deck(x, i),
    ensures
        note_gives(x, i),
{
    law_separate_pages_stay_apart(x);
    let page = x.script[i].page;
    let text = x.script[i].text;
    let f = lemma_first_note(x, i);
    lemma_first_note_gives(x, f);
    if f < i {
        let path = part_at(x, f);
        lemma_rels_stay(x, f, i);
        lemma_found_later(x, f, i);
        lemma_existing_step(x, i);
        lemma_next(x, i);
        if step(x, f).result is Ok {
            lemma_notes_stay(x, f, i);
            let data = find_part(parts_before(x, i), path)->0;
            lemma_reads(x, i);
            lemma_text_replaced(x, f, data, text);
            let new = notes_with_text(data, text)->Ok_0;
            assert(holds_text(x, f, new, text));
            law_put_part_is_found(parts_before(x, i), path, new, path);
        } else {
            lemma_failed_notes_stay(x, f, i);
            lemma_known(x, f);
            lemma_page_first(x, f);
            assert(x.slides.contains_key(page));
            assert(notes_in_place(x, page));
        }
    }
}

/// A package that comes out of an import has, for each page of the deck, a notes slide with
/// the last text that the script gives the page: its own with the text in it, or a new one.
pub proof fn law_each_page_has_its_last_note(
    bytes: Seq<u8>,
    script: Seq<char>,
    template: Template,
    r: Result<(ImportSummary, Vec<u8>), String>,
    i: int,
)
    requires
        within_limits(bytes, script, template),
        imports(bytes, script, template, r),
        r is Ok,
        r->Ok_0.1@.len() < 0xffff_ffff,
        ({
            let x = ready(bytes, script, template)->Ok_0;
            &&& plan_of(x).entries.len() != 65535
            &&& separate_pages(x)
            &&& current(x.dir, x.parts, CONTENT_TYPES@) is Some
            &&& in_deck(x, i)
            &&& page_data(x, x.script[i].page, x.script[i].text) is Ok
            &&& forall|j: int|
                i < j && #[trigger] in_deck(x, j) ==> x.script[j].page != x.script[i].page
        }),
    ensures
        ({
            let x = ready(bytes, script, template)->Ok_0;
            &&& zip_open(r->Ok_0.1@) is Ok
            &&& entry_of(zip_open(r->Ok_0.1@)->Ok_0, part_at(x, i)) == page_data(
                x,
                x.script[i].page,
                x.script[i].text,
            )
        }),
{
    let x = ready(bytes, script, template)->Ok_0;
    let n = x.script.len() as int;
    lemma_ready(bytes, script, template);
    law_separate_pages_stay_apart(x);
    law_note_gives_the_page_its_text(x, i);
    lemma_last_stays(x, i, n);
    lemma_path_is_file(x, i);
    assert(parts_before(x, n) == outcome_of(x).parts) by {
        reveal(parts_before);
        assert(x.script.take(n) =~= x.script);
    }
    law_imported_package_reads_back(bytes, script, template, r, part_at(x, i));
}

/// The notes of a page stay through notes for other pages.
proof fn lemma_last_stays(x: Ready, i: int, j: int)
    requires
        pages_apart(x),
        notes_rewritable(x),
        in_deck(x, i),
        i < j <= x.script.len(),
        forall|k: int| i < k && #[trigger] in_deck(x, k) ==> x.script[k].page != x.script[i].page,
    ensures
        find_part(parts_before(x, j), part_at(x, i)) == find_part(
            parts_before(x, i + 1),
            part_at(x, i),
        ),
    decreases j,
{
    if j > i + 1 {
        lemma_last_stays(x, i, j - 1);
        lemma_next(x, j - 1);
        if in_deck(x, j - 1) {
            lemma_leaves(x, j - 1, part_at(x, i));
        }
    }
}

// ---- importing again ----

/// No note touches the presentation or its relationships.
#[verifier::spinoff_prover]
proof fn lemma_presentation_untouched(x: Ready, l: int)
    requires
        separate_pages(x),
        in_deck(x, l),
        own_or_new(x, l),
    ensures
        !touches_at(x, l, PRESENTATION@),
        !touches_at(x, l, PRESENTATION_RELS@),
{
    let page = x.script[l].page;
    assert(x.slides.contains_key(page));
    assert(notes_in_place(x, page));
    if touches_at(x, l, PRESENTATION@) {
        lemma_touched(x, l, PRESENTATION@);
        lemma_no_presentation(x, l, PRESENTATION@);
    }
    if touches_at(x, l, PRESENTATION_RELS@) {
        lemma_touched(x, l, PRESENTATION_RELS@);
        lemma_no_presentation(x, l, PRESENTATION_RELS@);
    }
}

proof fn lemma_no_presentation(x: Ready, l: int, name: Seq<char>)
    requires
        name == PRESENTATION@ || name == PRESENTATION_RELS@,
    ensures
        name != rels_at(x, l),
        name != CONTENT_TYPES@,
        forall|n: nat| name != #[trigger] numbered(NOTES_RELS_PATH_START@, n, NOTES_RELS_PATH_END@),
        forall|n: nat| name != #[trigger] numbered(NOTES_START@, n, XML_SUFFIX@),
        !directory_name(name),
{
    reveal_strlit("ppt/presentation.xml");
    reveal_strlit("ppt/_rels/presentation.xml.rels");
    reveal_strlit("ppt/slides/_rels/");
    reveal_strlit("[Content_Types].xml");
    reveal_strlit("ppt/notesSlides/_rels/notesSlide");
    reveal_strlit("ppt/notesSlides/notesSlide");
    assert(PRESENTATION@.len() == 20 && PRESENTATION@[4] == 'p' && PRESENTATION@[19] == 'l');
    assert(PRESENTATION_RELS@.len() == 31 && PRESENTATION_RELS@[4] == '_');
    assert(PRESENTATION_RELS@[30] == 's');
    assert(rels_at(x, l)[4] == 's');
    assert(CONTENT_TYPES@.len() == 19);
    assert forall|n: nat| name != #[trigger] numbered(
        NOTES_RELS_PATH_START@,
        n,
        NOTES_RELS_PATH_END@,
    ) by {
        assert(numbered(NOTES_RELS_PATH_START@, n, NOTES_RELS_PATH_END@)[4] == 'n');
    }
    assert forall|n: nat| name != #[trigger] numbered(NOTES_START@, n, XML_SUFFIX@) by {
        assert(numbered(NOTES_START@, n, XML_SUFFIX@)[4] == 'n');
    }
}

/// The parts that a deck is read from come out of the notes of a script as they were.
proof fn lemma_presentation_stays(x: Ready)
    requires
        given(x),
    ensures
        find_part(outcome_of(x).parts, PRESENTATION@) == find_part(x.parts, PRESENTATION@),
        find_part(outcome_of(x).parts, PRESENTATION_RELS@) == find_part(
            x.parts,
            PRESENTATION_RELS@,
        ),
{
    let n = x.script.len() as int;
    lemma_known(x, n);
    assert forall|l: int| 0 <= l < n && #[trigger] in_deck(x, l) implies !touches_at(
        x,
        l,
        PRESENTATION@,
    ) && !touches_at(x, l, PRESENTATION_RELS@) by {
        lemma_presentation_untouched(x, l);
    }
    lemma_untouched(x, n, PRESENTATION@);
    lemma_untouched(x, n, PRESENTATION_RELS@);
    reveal(parts_before);
    assert(x.script.take(n) =~= x.script);
}

/// The package that an import wrote is opened again, and its deck is read.
proof fn lemma_ready_again(
    bytes: Seq<u8>,
    script: Seq<char>,
    template: Template,
    r: Result<(ImportSummary, Vec<u8>), String>,
    second: Result<(ImportSummary, Vec<u8>), String>,
)
    requires
        imports(bytes, script, template, r),
        r is Ok,
        imports(r->Ok_0.1@, script, template, second),
        r->Ok_0.1@.len() < 0xffff_ffff,
        ({
            let x = ready(bytes, script, template)->Ok_0;
            &&& plan_of(x).entries.len() != 65535
            &&& given(x)
            &&& slides_of(read_again(x)) is Ok
        }),
    ensures
        deck_reads(read_again(ready(bytes, script, template)->Ok_0)),
{
    let x = ready(bytes, script, template)->Ok_0;
    let n = x.script.len() as int;
    let dir = read_again(x);
    lemma_parts_distinct(bytes, script, template);
    lemma_names_of_distinct_plan(x.dir, x.dir.names, outcome_of(x).parts);
    lemma_known(x, n);
    lemma_infrastructure(x, n);
    assert(parts_before(x, n) == outcome_of(x).parts) by {
        reveal(parts_before);
        assert(x.script.take(n) =~= x.script);
    }
    lemma_master_is_read(x);
    assert(zip_open(sanitized(r->Ok_0.1@)) == Ok::<ZipDirectory, Seq<char>>(dir));
    assert(ready(r->Ok_0.1@, script, template) is Ok);
    assert(ready(r->Ok_0.1@, script, template)->Ok_0.dir == dir);
}

/// Importing the same script again changes nothing: the second import goes through,
/// reports what the first reported, and its package is the first's, byte for byte. That is
/// for a package whose pages have their own parts and which stays within the limits of the
/// format; where it has no notes master, its deck is made as decks are, or is anyhow read
/// the same from the new package.
pub proof fn law_second_import_changes_nothing(
    bytes: Seq<u8>,
    script: Seq<char>,
    template: Template,
    r: Result<(ImportSummary, Vec<u8>), String>,
    second: Result<(ImportSummary, Vec<u8>), String>,
)
    requires
        within_limits(bytes, script, template),
        imports(bytes, script, template, r),
        r is Ok,
        imports(r->Ok_0.1@, script, template, second),
        r->Ok_0.1@.len() < 0xffff_ffff,
        ({
            let x = ready(bytes, script, template)->Ok_0;
            &&& plan_of(x).entries.len() != 65535
            &&& moderate(plan_of(x).entries)
            &&& separate_pages(x)
            &&& current(x.dir, x.parts, CONTENT_TYPES@) is Some
            &&& x.dir.names.contains(NOTES_MASTER@) || plain_deck(
                readable_entry(x.dir, PRESENTATION@)->0,
                rels_of(readable_entry(x.dir, PRESENTATION_RELS@)->0),
            ) || slides_of(read_again(x)) == slides_of(x.dir)
        }),
    ensures
        within_limits(r->Ok_0.1@, script, template),
        second is Ok,
        second->Ok_0.1@ == r->Ok_0.1@,
        page_notes(second->Ok_0.0.applied@) == page_notes(r->Ok_0.0.applied@),
        page_notes(second->Ok_0.0.failed@) == page_notes(r->Ok_0.0.failed@),
{
    let x = ready(bytes, script, template)->Ok_0;
    lemma_ready(bytes, script, template);
    law_separate_pages_stay_apart(x);
    assert(given(x));
    lemma_presentation_stays(x);
    lemma_parts_distinct(bytes, script, template);
    lemma_names_of_distinct_plan(x.dir, x.dir.names, outcome_of(x).parts);
    lemma_no_presentation(x, 0, PRESENTATION@);
    lemma_no_presentation(x, 0, PRESENTATION_RELS@);
    lemma_read_again(x, PRESENTATION@);
    lemma_read_again(x, PRESENTATION_RELS@);
    if !x.dir.names.contains(NOTES_MASTER@) && slides_of(read_again(x)) != slides_of(x.dir) {
        let pres = readable_entry(x.dir, PRESENTATION@)->0;
        let rels_data = readable_entry(x.dir, PRESENTATION_RELS@)->0;
        lemma_injected_presentation(x.dir, x.dir.names, template);
        lemma_ready_again(bytes, script, template, r, second);
        law_deck_survives_the_notes_master(pres, rels_data);
    }
    lemma_second_import_is_the_first(bytes, script, template, r, second);
}

} // verus!
