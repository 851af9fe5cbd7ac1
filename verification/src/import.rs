//! The import as a whole: a package and a script in, a package with notes out.

use crate::apply::{
    apply_note, largest_note, law_applied_note_is_stored, law_new_notes_slide_is_found_again,
    law_note_keeps_names_distinct, law_note_leaves_other_parts,
    law_number_is_left_below_the_largest, lemma_notes_part_is_no_directory, note_applied, note_fits,
    note_reads, note_touches, notes_data, notes_part, number_left, slide_rels, slide_rels_path,
    types_read, NOTES_TYPE_SUFFIX, NO_SLIDE_END, SLIDE_WORD,
};
use crate::archive::{
    archive_directory, archive_names, directory_name, entry_of, expected_entry,
    law_names_fit_in_sixteen_bits, law_package_names_are_distinct, law_package_reads_back,
    lemma_names_of_distinct_plan, moderate, open_archive, package_fits, readable_entry,
    package_plan, short_names, write_pptx, writes, zip_open, Plan, ZipDirectory,
};
use crate::master::{
    inject_notes_master, law_master_keeps_names_distinct, law_master_leaves_other_parts,
    master_injected, master_touches, Change, NotesTemplate, Template, CONTENT_TYPES, NOTES_MASTER,
};
use crate::parts::{distinct_names, find_part, part_names, Part, PartSet};
use crate::presentation::{build_slide_path_by_page, deck_reads, paths, slides_of, PRESENTATION};
use crate::rels::find_type;
use crate::script::{notes, parse_script, script_notes, Note, NoteBlock};
use crate::text::{contains_name, copy_bytes, decimal, decimal_text, decoded, strings, utf8};
use crate::timestamps::{sanitize_extended_timestamp_fields, sanitized};
use std::collections::HashMap;
use std::io::Cursor;
use vstd::prelude::*;
use vstd::string::StringExecFns;
use zip::ZipArchive;

verus! {

broadcast use vstd::std_specs::hash::group_hash_axioms;

/// What became of the notes of one page.
pub struct PageResult {
    pub page: u32,
    pub message: String,
}

/// What a [`PageResult`] says.
#[verifier::ext_equal]
pub struct PageNote {
    pub page: u32,
    pub message: Seq<char>,
}

impl View for PageResult {
    type V = PageNote;

    open spec fn view(&self) -> PageNote {
        PageNote { page: self.page, message: self.message@ }
    }
}

/// What a list of results says.
pub open spec fn page_notes(v: Seq<PageResult>) -> Seq<PageNote> {
    v.map_values(|r: PageResult| r@)
}

/// The pages whose notes were put in, and those whose notes were not.
pub struct ImportSummary {
    pub applied: Vec<PageResult>,
    pub failed: Vec<PageResult>,
}

pub const NO_PAGES: &'static str = "대본에서 'Np' 형식의 페이지 표시를 찾지 못했습니다.";

pub const OPEN_FAILED: &'static str = "PPTX(zip) 열기 실패: ";

pub const NOTHING_APPLIED: &'static str = "적용된 슬라이드가 없습니다.";

pub const APPLIED_END: &'static str = "번에 입력 완료";

pub const TOTAL_START: &'static str = " (총 ";

pub const TOTAL_END: &'static str = "장)";

// ---- the notes of all pages ----

/// How far an import has come.
#[verifier::ext_equal]
pub struct Progress {
    pub parts: Seq<Part>,
    pub applied: Seq<PageNote>,
    pub failed: Seq<PageNote>,
}

/// What is said of a page that the deck does not have.
pub open spec fn no_such_page(page: u32, slides: Map<u32, Seq<char>>) -> PageNote {
    PageNote {
        page,
        message: SLIDE_WORD@ + decimal(page as nat) + NO_SLIDE_END@ + TOTAL_START@ + decimal(
            (slides.len() as u32) as nat,
        ) + TOTAL_END@,
    }
}

/// What is said of a page that got its notes.
pub open spec fn page_done(page: u32) -> PageNote {
    PageNote { page, message: SLIDE_WORD@ + decimal(page as nat) + APPLIED_END@ }
}

/// How far the import has come after one more note.
pub open spec fn progress_step(
    dir: ZipDirectory,
    slides: Map<u32, Seq<char>>,
    before: Progress,
    note: Note,
) -> Progress {
    if !slides.contains_key(note.page) {
        Progress { failed: before.failed.push(no_such_page(note.page, slides)), ..before }
    } else {
        let change = note_applied(dir, dir.names, slides, before.parts, note.page, note.text);
        match change.result {
            Ok(_) => Progress {
                parts: change.parts,
                applied: before.applied.push(page_done(note.page)),
                failed: before.failed,
            },
            Err(m) => Progress {
                parts: change.parts,
                applied: before.applied,
                failed: before.failed.push(PageNote { page: note.page, message: m }),
            },
        }
    }
}

/// How far the import has come after the given notes, one after another.
pub open spec fn progress(
    dir: ZipDirectory,
    slides: Map<u32, Seq<char>>,
    start: Seq<Part>,
    script: Seq<Note>,
) -> Progress
    decreases script.len(),
{
    if script.len() == 0 {
        Progress { parts: start, applied: Seq::empty(), failed: Seq::empty() }
    } else {
        progress_step(dir, slides, progress(dir, slides, start, script.drop_last()), script.last())
    }
}

/// Whether there is a number left for every new notes slide.
pub open spec fn numbers_left(
    dir: ZipDirectory,
    slides: Map<u32, Seq<char>>,
    start: Seq<Part>,
    script: Seq<Note>,
) -> bool
    decreases script.len(),
{
    script.len() == 0 || {
        &&& numbers_left(dir, slides, start, script.drop_last())
        &&& number_left(
            dir,
            dir.names,
            slides,
            progress(dir, slides, start, script.drop_last()).parts,
            script.last().page,
        )
    }
}

// ---- the import ----

/// A package that is ready for its notes.
#[verifier::ext_equal]
pub struct Ready {
    pub dir: ZipDirectory,
    pub slides: Map<u32, Seq<char>>,
    pub parts: Seq<Part>,
    pub script: Seq<Note>,
}

/// The parts that a package needs before it can have notes.
pub open spec fn master_parts(dir: ZipDirectory, template: Template) -> Change {
    if dir.names.contains(NOTES_MASTER@) {
        Change { parts: Seq::empty(), result: Ok(()) }
    } else {
        master_injected(dir, dir.names, Seq::empty(), template)
    }
}

/// A package made ready for the notes of a script, or why it cannot be.
pub open spec fn ready(bytes: Seq<u8>, script: Seq<char>, template: Template) -> Result<
    Ready,
    Seq<char>,
> {
    if script_notes(script).len() == 0 {
        Err(NO_PAGES@)
    } else {
        match zip_open(sanitized(bytes)) {
            Err(m) => Err(OPEN_FAILED@ + m),
            Ok(dir) => match slides_of(dir) {
                Err(m) => Err(m),
                Ok(slides) => match master_parts(dir, template).result {
                    Err(m) => Err(m),
                    Ok(_) => Ok(
                        Ready {
                            dir,
                            slides,
                            parts: master_parts(dir, template).parts,
                            script: script_notes(script),
                        },
                    ),
                },
            },
        }
    }
}

/// How far the import of a package that is ready comes.
pub open spec fn outcome_of(r: Ready) -> Progress {
    progress(r.dir, r.slides, r.parts, r.script)
}

/// The package that comes out.
pub open spec fn plan_of(r: Ready) -> Plan {
    package_plan(r.dir, r.dir.names, outcome_of(r).parts)
}

/// The parts as they are when the note at `i` is put in.
#[verifier::opaque]
pub open spec fn parts_before(r: Ready, i: int) -> Seq<Part> {
    progress(r.dir, r.slides, r.parts, r.script.take(i)).parts
}

/// Whether each of the first `n` notes is sure of what it reads.
pub open spec fn steps_read_back(r: Ready, n: int) -> bool {
    forall|k: int|
        0 <= k < n ==> note_reads(r.dir, r.slides, #[trigger] parts_before(r, k), r.script[k].page)
            && types_read(r.dir, r.dir.names, r.slides, parts_before(r, k), r.script[k].page)
}

/// What opening a package is sure of reading: the deck, and with no notes master in it the
/// texts of the presentation and of the content types.
pub open spec fn opening_reads(r: Ready) -> bool {
    &&& deck_reads(r.dir)
    &&& !r.dir.names.contains(NOTES_MASTER@) ==> decoded(
        readable_entry(r.dir, PRESENTATION@)->0,
    ) && decoded(readable_entry(r.dir, CONTENT_TYPES@)->0)
}

/// Whether an import stays within the limits of the format: there is a number left
/// for every new notes slide, and every name fits in its length field.
pub open spec fn within_limits(bytes: Seq<u8>, script: Seq<char>, template: Template) -> bool {
    match ready(bytes, script, template) {
        Err(_) => true,
        Ok(r) => {
            &&& numbers_left(r.dir, r.slides, r.parts, r.script)
            &&& outcome_of(r).applied.len() > 0 ==> short_names(plan_of(r).entries)
        },
    }
}

/// Whether `r` is what an import gives: the error of a package that could not be made
/// ready; an error where no page got its notes; and otherwise what became of each
/// page, and the new package. That fails only on a part that cannot be read, or
/// beyond a moderate size. It also says what the import is sure of reading.
pub open spec fn imports(
    bytes: Seq<u8>,
    script: Seq<char>,
    template: Template,
    r: Result<(ImportSummary, Vec<u8>), String>,
) -> bool {
    match ready(bytes, script, template) {
        Err(m) => r matches Err(e) && e@ == m,
        Ok(ready) => {
            &&& opening_reads(ready)
            &&& steps_read_back(ready, ready.script.len() as int)
            &&& if outcome_of(ready).applied.len() == 0 {
                r matches Err(e) && e@ == NOTHING_APPLIED@
            } else {
                match r {
                    Ok((summary, b)) => {
                        &&& page_notes(summary.applied@) == outcome_of(ready).applied
                        &&& page_notes(summary.failed@) == outcome_of(ready).failed
                        &&& writes(plan_of(ready), Ok(b))
                    },
                    Err(e) => plan_of(ready).error == Some(e@) || !moderate(plan_of(ready).entries),
                }
            }
        },
    }
}

struct Session {
    archive: ZipArchive<Cursor<Vec<u8>>>,
    names: Vec<String>,
    slides: HashMap<u32, String>,
    overrides: PartSet,
    blocks: Vec<NoteBlock>,
}

spec fn session_ready(s: Session) -> Ready {
    Ready {
        dir: archive_directory(s.archive),
        slides: paths(s.slides@),
        parts: s.overrides@,
        script: notes(s.blocks@),
    }
}

fn open_session(pptx_bytes: Vec<u8>, script_text: &str, template: &NotesTemplate) -> (r: Result<
    Session,
    String,
>)
    ensures
        match r {
            Ok(s) => {
                &&& ready(pptx_bytes@, script_text@, template@) == Ok::<Ready, Seq<char>>(
                    session_ready(s),
                )
                &&& strings(s.names@) == archive_directory(s.archive).names
                &&& archive_directory(s.archive).names.no_duplicates()
                &&& s.overrides.wf()
                &&& opening_reads(session_ready(s))
            },
            Err(m) => ready(pptx_bytes@, script_text@, template@) == Err::<Ready, Seq<char>>(m@),
        },
{
    let blocks = parse_script(script_text);
    assert(notes(blocks@).len() == blocks@.len());
    if blocks.len() == 0 {
        return Err(NO_PAGES.to_string());
    }
    let mut bytes = pptx_bytes;
    sanitize_extended_timestamp_fields(bytes.as_mut_slice());
    let mut archive = match open_archive(bytes) {
        Ok(a) => a,
        Err(m) => {
            let mut message = OPEN_FAILED.to_string();
            message.append(m.as_str());
            return Err(message);
        },
    };
    let names = archive_names(&archive);
    let slides = match build_slide_path_by_page(&mut archive) {
        Ok(s) => s,
        Err(m) => {
            return Err(m);
        },
    };
    let mut overrides = PartSet::new();
    if !contains_name(&names, NOTES_MASTER) {
        match inject_notes_master(&mut archive, &names, &mut overrides, template) {
            Ok(_) => {},
            Err(m) => {
                return Err(m);
            },
        }
    }
    Ok(Session { archive, names, slides, overrides, blocks })
}

fn missing_page(page: u32, slides: &HashMap<u32, String>) -> (r: PageResult)
    ensures
        r@ == no_such_page(page, paths(slides@)),
{
    assert(paths(slides@).dom() =~= slides@.dom());
    let count: u32 = slides.len() as u32;
    let mut message = SLIDE_WORD.to_string();
    message.append(decimal_text(page as u128).as_str());
    message.append(NO_SLIDE_END);
    message.append(TOTAL_START);
    message.append(decimal_text(count as u128).as_str());
    message.append(TOTAL_END);
    PageResult { page, message }
}

fn finished_page(page: u32) -> (r: PageResult)
    ensures
        r@ == page_done(page),
{
    let mut message = SLIDE_WORD.to_string();
    message.append(decimal_text(page as u128).as_str());
    message.append(APPLIED_END);
    PageResult { page, message }
}

pub proof fn lemma_numbers_left(
    dir: ZipDirectory,
    slides: Map<u32, Seq<char>>,
    start: Seq<Part>,
    script: Seq<Note>,
    i: int,
)
    requires
        numbers_left(dir, slides, start, script),
        0 <= i <= script.len(),
    ensures
        numbers_left(dir, slides, start, script.take(i)),
    decreases script.len(),
{
    if i == script.len() {
        assert(script.take(i) == script);
    } else {
        lemma_numbers_left(dir, slides, start, script.drop_last(), i);
        assert(script.drop_last().take(i) == script.take(i));
    }
}

proof fn lemma_page_notes_push(v: Seq<PageResult>, r: PageResult)
    ensures
        page_notes(v.push(r)) == page_notes(v).push(r@),
{
    assert(page_notes(v.push(r)) =~= page_notes(v).push(r@));
}

fn apply_block(session: &mut Session, i: usize, summary: &mut ImportSummary)
    requires
        i < old(session).blocks@.len(),
        strings(old(session).names@) == archive_directory(old(session).archive).names,
        old(session).overrides.wf(),
        number_left(
            archive_directory(old(session).archive),
            archive_directory(old(session).archive).names,
            paths(old(session).slides@),
            old(session).overrides@,
            old(session).blocks@[i as int].page,
        ),
    ensures
        final(session).names == old(session).names,
        final(session).slides == old(session).slides,
        final(session).blocks == old(session).blocks,
        archive_directory(final(session).archive) == archive_directory(old(session).archive),
        final(session).overrides.wf(),
        (Progress {
            parts: final(session).overrides@,
            applied: page_notes(final(summary).applied@),
            failed: page_notes(final(summary).failed@),
        }) == progress_step(
            archive_directory(old(session).archive),
            paths(old(session).slides@),
            (Progress {
                parts: old(session).overrides@,
                applied: page_notes(old(summary).applied@),
                failed: page_notes(old(summary).failed@),
            }),
            old(session).blocks@[i as int]@,
        ),
        note_reads(
            archive_directory(old(session).archive),
            paths(old(session).slides@),
            old(session).overrides@,
            old(session).blocks@[i as int].page,
        ),
        types_read(
            archive_directory(old(session).archive),
            archive_directory(old(session).archive).names,
            paths(old(session).slides@),
            old(session).overrides@,
            old(session).blocks@[i as int].page,
        ),
{
    let page: u32 = session.blocks[i].page;
    if !session.slides.contains_key(&page) {
        let result = missing_page(page, &session.slides);
        proof {
            lemma_page_notes_push(summary.failed@, result);
        }
        summary.failed.push(result);
        return ;
    }
    match apply_note(
        &mut session.archive,
        &session.names,
        &session.slides,
        &mut session.overrides,
        page,
        session.blocks[i].text.as_str(),
    ) {
        Ok(_) => {
            let result = finished_page(page);
            proof {
                lemma_page_notes_push(summary.applied@, result);
            }
            summary.applied.push(result);
        },
        Err(message) => {
            let result = PageResult { page, message };
            proof {
                lemma_page_notes_push(summary.failed@, result);
            }
            summary.failed.push(result);
        },
    }
}

fn apply_blocks(session: &mut Session) -> (r: ImportSummary)
    requires
        strings(old(session).names@) == archive_directory(old(session).archive).names,
        old(session).overrides.wf(),
        numbers_left(
            session_ready(*old(session)).dir,
            session_ready(*old(session)).slides,
            session_ready(*old(session)).parts,
            session_ready(*old(session)).script,
        ),
    ensures
        final(session).names == old(session).names,
        archive_directory(final(session).archive) == archive_directory(old(session).archive),
        final(session).overrides.wf(),
        (Progress {
            parts: final(session).overrides@,
            applied: page_notes(r.applied@),
            failed: page_notes(r.failed@),
        }) == outcome_of(session_ready(*old(session))),
        steps_read_back(
            session_ready(*old(session)),
            session_ready(*old(session)).script.len() as int,
        ),
{
    let ghost start = session_ready(*session);
    let ghost first = *session;
    let mut summary = ImportSummary { applied: Vec::new(), failed: Vec::new() };
    let mut i: usize = 0;
    assert(page_notes(summary.applied@) =~= Seq::<PageNote>::empty());
    assert(page_notes(summary.failed@) =~= Seq::<PageNote>::empty());
    assert(start.script.take(0) =~= Seq::<Note>::empty());
    while i < session.blocks.len()
        invariant
            i <= session.blocks@.len(),
            start == session_ready(first),
            start == session_ready(*old(session)),
            first == *old(session),
            session.names == first.names,
            session.slides == first.slides,
            session.blocks == first.blocks,
            archive_directory(session.archive) == start.dir,
            strings(session.names@) == start.dir.names,
            session.overrides.wf(),
            numbers_left(start.dir, start.slides, start.parts, start.script),
            steps_read_back(start, i as int),
            (Progress {
                parts: session.overrides@,
                applied: page_notes(summary.applied@),
                failed: page_notes(summary.failed@),
            }) == progress(start.dir, start.slides, start.parts, start.script.take(i as int)),
        decreases session.blocks@.len() - i,
    {
        proof {
            lemma_numbers_left(start.dir, start.slides, start.parts, start.script, i + 1);
            assert(start.script.take(i + 1).drop_last() == start.script.take(i as int));
            assert(start.script.take(i + 1).last() == session.blocks@[i as int]@);
            assert(start.script[i as int] == session.blocks@[i as int]@);
            reveal(parts_before);
            assert(parts_before(start, i as int) == session.overrides@);
        }
        apply_block(session, i, &mut summary);
        i = i + 1;
    }
    assert(start.script.take(i as int) == start.script);
    summary
}

/// Puts the notes of a script into a package, as [`imports`] says.
pub fn import_notes_from_bytes(
    pptx_bytes: Vec<u8>,
    script_text: &str,
    template: &NotesTemplate,
) -> (r: Result<(ImportSummary, Vec<u8>), String>)
    requires
        within_limits(pptx_bytes@, script_text@, template@),
    ensures
        imports(pptx_bytes@, script_text@, template@, r),
{
    let mut session = match open_session(pptx_bytes, script_text, template) {
        Ok(s) => s,
        Err(m) => {
            return Err(m);
        },
    };
    let summary = apply_blocks(&mut session);
    assert(page_notes(summary.applied@).len() == summary.applied@.len());
    if summary.applied.len() == 0 {
        return Err(NOTHING_APPLIED.to_string());
    }
    proof {
        law_package_names_are_distinct(
            archive_directory(session.archive),
            strings(session.names@),
            session.overrides@,
        );
    }
    match write_pptx(&mut session.archive, &session.names, &session.overrides) {
        Ok(b) => Ok((summary, b)),
        Err(m) => Err(m),
    }
}

/// Whether an import stays within the limits of the format, as [`within_limits`]
/// says.
pub fn import_fits(pptx_bytes: Vec<u8>, script_text: &str, template: &NotesTemplate) -> (r: bool)
    ensures
        r == within_limits(pptx_bytes@, script_text@, template@),
{
    let mut session = match open_session(pptx_bytes, script_text, template) {
        Ok(s) => s,
        Err(_) => {
            return true;
        },
    };
    let ghost start = session_ready(session);
    let ghost first = session;
    let mut summary = ImportSummary { applied: Vec::new(), failed: Vec::new() };
    let mut i: usize = 0;
    assert(page_notes(summary.applied@) =~= Seq::<PageNote>::empty());
    assert(page_notes(summary.failed@) =~= Seq::<PageNote>::empty());
    assert(start.script.take(0) =~= Seq::<Note>::empty());
    while i < session.blocks.len()
        invariant
            i <= session.blocks@.len(),
            start == session_ready(first),
            ready(pptx_bytes@, script_text@, template@) == Ok::<Ready, Seq<char>>(start),
            session.names == first.names,
            session.slides == first.slides,
            session.blocks == first.blocks,
            archive_directory(session.archive) == start.dir,
            strings(session.names@) == start.dir.names,
            session.overrides.wf(),
            numbers_left(start.dir, start.slides, start.parts, start.script.take(i as int)),
            (Progress {
                parts: session.overrides@,
                applied: page_notes(summary.applied@),
                failed: page_notes(summary.failed@),
            }) == progress(start.dir, start.slides, start.parts, start.script.take(i as int)),
        decreases session.blocks@.len() - i,
    {
        assert(start.script.take(i + 1).drop_last() == start.script.take(i as int));
        assert(start.script.take(i + 1).last() == session.blocks@[i as int]@);
        let page: u32 = session.blocks[i].page;
        if !note_fits(
            &mut session.archive,
            &session.names,
            &session.slides,
            &session.overrides,
            page,
        ) {
            proof {
                if numbers_left(start.dir, start.slides, start.parts, start.script) {
                    lemma_numbers_left(start.dir, start.slides, start.parts, start.script, i + 1);
                }
            }
            return false;
        }
        apply_block(&mut session, i, &mut summary);
        i = i + 1;
    }
    assert(start.script.take(i as int) == start.script);
    assert(page_notes(summary.applied@).len() == summary.applied@.len());
    summary.applied.len() == 0 || package_fits(
        &mut session.archive,
        &session.names,
        &session.overrides,
    )
}

/// Puts the notes of a script into a package, as [`imports`] says, where that stays
/// within the limits of the format; `None` where it does not.
pub fn checked_import_notes(
    pptx_bytes: Vec<u8>,
    script_text: &str,
    template: &NotesTemplate,
) -> (r: Option<Result<(ImportSummary, Vec<u8>), String>>)
    ensures
        match r {
            None => !within_limits(pptx_bytes@, script_text@, template@),
            Some(x) => within_limits(pptx_bytes@, script_text@, template@) && imports(
                pptx_bytes@,
                script_text@,
                template@,
                x,
            ),
        },
{
    if import_fits(copy_bytes(pptx_bytes.as_slice()), script_text, template) {
        Some(import_notes_from_bytes(pptx_bytes, script_text, template))
    } else {
        None
    }
}

// ---- the result of an import ----

/// A new package, and what became of each page, as JSON.
pub struct ImportResult {
    bytes: Vec<u8>,
    summary_json: String,
}

impl View for ImportResult {
    type V = (Seq<u8>, Seq<char>);

    closed spec fn view(&self) -> (Seq<u8>, Seq<char>) {
        (self.bytes@, self.summary_json@)
    }
}

impl ImportResult {
    pub fn new(bytes: Vec<u8>, summary_json: String) -> (r: ImportResult)
        ensures
            r@ == (bytes@, summary_json@),
    {
        ImportResult { bytes, summary_json }
    }

    /// The bytes of the new package.
    pub fn bytes(&self) -> (r: Vec<u8>)
        ensures
            r@ == self@.0,
    {
        copy_bytes(self.bytes.as_slice())
    }

    /// What became of each page, as JSON.
    pub fn summary_json(&self) -> (r: String)
        ensures
            r@ == self@.1,
    {
        self.summary_json.clone()
    }
}

// ---- what an import guarantees ----

/// The pages in a list of results.
pub open spec fn pages(v: Seq<PageNote>) -> Seq<u32> {
    v.map_values(|p: PageNote| p.page)
}

/// The pages in a script.
pub open spec fn script_pages(script: Seq<Note>) -> Seq<u32> {
    script.map_values(|n: Note| n.page)
}

proof fn lemma_pages_push(v: Seq<PageNote>, p: PageNote)
    ensures
        pages(v.push(p)).to_multiset() == pages(v).to_multiset().insert(p.page),
{
    broadcast use vstd::seq_lib::group_to_multiset_ensures;

    assert(pages(v.push(p)) =~= pages(v).push(p.page));
}

/// Whether `list` is what stands in `all` at the places `at`, from front to back.
pub open spec fn taken_in_order(list: Seq<u32>, all: Seq<u32>, at: Seq<int>) -> bool {
    &&& at.len() == list.len()
    &&& forall|k: int| 0 <= k < at.len() ==> 0 <= #[trigger] at[k] < all.len() && all[at[k]] == list[k]
    &&& forall|k: int, l: int| 0 <= k < l < at.len() ==> #[trigger] at[k] < #[trigger] at[l]
}

/// Whether each item of `all` stands in one of two lists, which both keep its order.
pub open spec fn split_in_order(first: Seq<u32>, second: Seq<u32>, all: Seq<u32>) -> bool {
    exists|a: Seq<int>, b: Seq<int>|
        {
            &&& #[trigger] taken_in_order(first, all, a)
            &&& #[trigger] taken_in_order(second, all, b)
            &&& forall|i: int| 0 <= i < all.len() ==> #[trigger] a.contains(i) != b.contains(i)
        }
}

proof fn lemma_taken_push(list: Seq<u32>, all: Seq<u32>, at: Seq<int>, x: u32)
    requires
        taken_in_order(list, all, at),
    ensures
        taken_in_order(list, all.push(x), at),
        taken_in_order(list.push(x), all.push(x), at.push(all.len() as int)),
        !at.contains(all.len() as int),
        at.push(all.len() as int).contains(all.len() as int),
        forall|i: int|
            0 <= i < all.len() ==> #[trigger] at.push(all.len() as int).contains(i) == at.contains(i),
{
    let n = all.len() as int;
    let more = at.push(n);
    assert(more[at.len() as int] == n);
    assert forall|k: int| 0 <= k < more.len() implies 0 <= #[trigger] more[k] < all.push(x).len()
        && all.push(x)[more[k]] == list.push(x)[k] by {
        if k < at.len() {
            assert(more[k] == at[k]);
        }
    }
    assert forall|k: int, l: int| 0 <= k < l < more.len() implies #[trigger] more[k]
        < #[trigger] more[l] by {
        assert(more[k] == at[k]);
        if l < at.len() {
            assert(more[l] == at[l]);
        }
    }
    assert forall|i: int| 0 <= i < n implies #[trigger] more.contains(i) == at.contains(i) by {
        if at.contains(i) {
            let k = choose|k: int| 0 <= k < at.len() && at[k] == i;
            assert(more[k] == i);
        }
        if more.contains(i) {
            let k = choose|k: int| 0 <= k < more.len() && more[k] == i;
            assert(at[k] == i);
        }
    }
}

/// One more item at the end of either list.
proof fn lemma_split_push(first: Seq<u32>, second: Seq<u32>, all: Seq<u32>, x: u32)
    requires
        split_in_order(first, second, all),
    ensures
        split_in_order(first.push(x), second, all.push(x)),
        split_in_order(first, second.push(x), all.push(x)),
{
    let n = all.len() as int;
    let (a, b) = choose|a: Seq<int>, b: Seq<int>|
        {
            &&& #[trigger] taken_in_order(first, all, a)
            &&& #[trigger] taken_in_order(second, all, b)
            &&& forall|i: int| 0 <= i < all.len() ==> #[trigger] a.contains(i) != b.contains(i)
        };
    lemma_taken_push(first, all, a, x);
    lemma_taken_push(second, all, b, x);
    let c = a.push(n);
    let d = b.push(n);
    assert(taken_in_order(first.push(x), all.push(x), c) && taken_in_order(second, all.push(x), b));
    assert forall|i: int| 0 <= i < all.push(x).len() implies #[trigger] c.contains(i)
        != b.contains(i) by {
        if i < n {
            assert(a.contains(i) != b.contains(i));
        }
    }
    assert(taken_in_order(first, all.push(x), a) && taken_in_order(second.push(x), all.push(x), d));
    assert forall|i: int| 0 <= i < all.push(x).len() implies #[trigger] a.contains(i)
        != d.contains(i) by {
        if i < n {
            assert(a.contains(i) != b.contains(i));
            assert(d.contains(i) == b.contains(i));
        }
    }
}

/// Every page of the script is reported exactly once, as applied or as failed, and both
/// lists keep the order of the script.
pub proof fn law_every_page_is_reported(
    dir: ZipDirectory,
    slides: Map<u32, Seq<char>>,
    start: Seq<Part>,
    script: Seq<Note>,
)
    ensures
        ({
            let p = progress(dir, slides, start, script);
            &&& p.applied.len() + p.failed.len() == script.len()
            &&& pages(p.applied).to_multiset().add(pages(p.failed).to_multiset())
                =~= script_pages(script).to_multiset()
            &&& split_in_order(pages(p.applied), pages(p.failed), script_pages(script))
        }),
    decreases script.len(),
{
    broadcast use vstd::seq_lib::group_to_multiset_ensures;

    if script.len() == 0 {
        let p = progress(dir, slides, start, script);
        assert(pages(p.applied) =~= Seq::<u32>::empty());
        assert(pages(p.failed) =~= Seq::<u32>::empty());
        assert(script_pages(script) =~= Seq::<u32>::empty());
        let none = Seq::<int>::empty();
        assert(taken_in_order(pages(p.applied), script_pages(script), none) && taken_in_order(
            pages(p.failed),
            script_pages(script),
            none,
        ));
    } else {
        let init = script.drop_last();
        let note = script.last();
        law_every_page_is_reported(dir, slides, start, init);
        let before = progress(dir, slides, start, init);
        let after = progress(dir, slides, start, script);
        assert(script_pages(script) =~= script_pages(init).push(note.page));
        lemma_split_push(
            pages(before.applied),
            pages(before.failed),
            script_pages(init),
            note.page,
        );
        if after.applied.len() > before.applied.len() {
            lemma_pages_push(before.applied, after.applied.last());
            assert(before.applied.push(after.applied.last()) =~= after.applied);
            assert(pages(after.applied) =~= pages(before.applied).push(note.page));
        } else {
            lemma_pages_push(before.failed, after.failed.last());
            assert(before.failed.push(after.failed.last()) =~= after.failed);
            assert(pages(after.failed) =~= pages(before.failed).push(note.page));
        }
    }
}

/// Only pages of the deck are reported as applied, each with the message of success.
pub proof fn law_applied_pages_exist(
    dir: ZipDirectory,
    slides: Map<u32, Seq<char>>,
    start: Seq<Part>,
    script: Seq<Note>,
)
    ensures
        ({
            let p = progress(dir, slides, start, script);
            forall|i: int|
                0 <= i < p.applied.len() ==> slides.contains_key((#[trigger] p.applied[i]).page)
                    && p.applied[i] == page_done(p.applied[i].page)
        }),
    decreases script.len(),
{
    if script.len() > 0 {
        law_applied_pages_exist(dir, slides, start, script.drop_last());
        let before = progress(dir, slides, start, script.drop_last());
        let after = progress(dir, slides, start, script);
        assert forall|i: int| 0 <= i < after.applied.len() implies slides.contains_key(
            (#[trigger] after.applied[i]).page,
        ) && after.applied[i] == page_done(after.applied[i].page) by {
            if i < before.applied.len() {
                assert(after.applied[i] == before.applied[i]);
            }
        }
    }
}

/// A page that the deck does not have is reported as failed, with the number of
/// slides, and changes nothing.
pub proof fn law_missing_page_is_reported(
    dir: ZipDirectory,
    slides: Map<u32, Seq<char>>,
    before: Progress,
    note: Note,
)
    requires
        !slides.contains_key(note.page),
    ensures
        progress_step(dir, slides, before, note).parts == before.parts,
        progress_step(dir, slides, before, note).applied == before.applied,
        progress_step(dir, slides, before, note).failed == before.failed.push(
            no_such_page(note.page, slides),
        ),
{
}

/// An import that goes through has put in the notes of a page, and reports every page
/// of the script, in its order.
pub proof fn law_import_reports_the_script(
    bytes: Seq<u8>,
    script: Seq<char>,
    template: Template,
    r: Result<(ImportSummary, Vec<u8>), String>,
)
    requires
        imports(bytes, script, template, r),
        r is Ok,
    ensures
        r->Ok_0.0.applied@.len() > 0,
        r->Ok_0.0.applied@.len() + r->Ok_0.0.failed@.len() == script_notes(script).len(),
        pages(page_notes(r->Ok_0.0.applied@)).to_multiset().add(
            pages(page_notes(r->Ok_0.0.failed@)).to_multiset(),
        ) =~= script_pages(script_notes(script)).to_multiset(),
        split_in_order(
            pages(page_notes(r->Ok_0.0.applied@)),
            pages(page_notes(r->Ok_0.0.failed@)),
            script_pages(script_notes(script)),
        ),
{
    let x = ready(bytes, script, template)->Ok_0;
    law_every_page_is_reported(x.dir, x.slides, x.parts, x.script);
    assert(page_notes(r->Ok_0.0.applied@).len() == r->Ok_0.0.applied@.len());
    assert(page_notes(r->Ok_0.0.failed@).len() == r->Ok_0.0.failed@.len());
}

/// A script without page markers is refused, whatever the package.
pub proof fn law_script_without_pages_is_refused(
    bytes: Seq<u8>,
    script: Seq<char>,
    template: Template,
    r: Result<(ImportSummary, Vec<u8>), String>,
)
    requires
        script_notes(script).len() == 0,
        imports(bytes, script, template, r),
    ensures
        r is Err,
        r->Err_0@ == NO_PAGES@,
{
}

/// Whether putting in the notes of a script touches the named part.
pub open spec fn notes_touch(
    dir: ZipDirectory,
    slides: Map<u32, Seq<char>>,
    start: Seq<Part>,
    script: Seq<Note>,
    name: Seq<char>,
) -> bool
    decreases script.len(),
{
    script.len() > 0 && {
        ||| notes_touch(dir, slides, start, script.drop_last(), name)
        ||| note_touches(
            dir,
            dir.names,
            slides,
            progress(dir, slides, start, script.drop_last()).parts,
            script.last().page,
            name,
        )
    }
}

/// Putting in the notes of a script leaves every part that no note touches as it was.
pub proof fn law_notes_leave_other_parts(
    dir: ZipDirectory,
    slides: Map<u32, Seq<char>>,
    start: Seq<Part>,
    script: Seq<Note>,
    other: Seq<char>,
)
    requires
        !notes_touch(dir, slides, start, script, other),
    ensures
        find_part(progress(dir, slides, start, script).parts, other) == find_part(start, other),
    decreases script.len(),
{
    if script.len() > 0 {
        let init = script.drop_last();
        let note = script.last();
        law_notes_leave_other_parts(dir, slides, start, init, other);
        law_note_leaves_other_parts(
            dir,
            dir.names,
            slides,
            progress(dir, slides, start, init).parts,
            note.page,
            note.text,
            other,
        );
    }
}

/// The import does not make a name occur twice.
pub proof fn law_import_keeps_names_distinct(
    dir: ZipDirectory,
    slides: Map<u32, Seq<char>>,
    start: Seq<Part>,
    script: Seq<Note>,
)
    requires
        distinct_names(start),
    ensures
        distinct_names(progress(dir, slides, start, script).parts),
    decreases script.len(),
{
    if script.len() > 0 {
        let init = script.drop_last();
        let note = script.last();
        law_import_keeps_names_distinct(dir, slides, start, init);
        law_note_keeps_names_distinct(
            dir,
            dir.names,
            slides,
            progress(dir, slides, start, init).parts,
            note.page,
            note.text,
        );
    }
}

/// A package that comes out of an import has, when it is read, the names of the one
/// that went in, and under each a new version where the import made one, and the old
/// bytes everywhere else.
pub proof fn law_imported_package_reads_back(
    bytes: Seq<u8>,
    script: Seq<char>,
    template: Template,
    r: Result<(ImportSummary, Vec<u8>), String>,
    name: Seq<char>,
)
    requires
        imports(bytes, script, template, r),
        r is Ok,
        plan_of(ready(bytes, script, template)->Ok_0).entries.len() != 65535,
        r->Ok_0.1@.len() < 0xffff_ffff,
    ensures
        ({
            let x = ready(bytes, script, template)->Ok_0;
            let read = zip_open(r->Ok_0.1@);
            &&& read is Ok
            &&& read->Ok_0.names.len() >= x.dir.names.len()
            &&& read->Ok_0.names.take(x.dir.names.len() as int) == x.dir.names
            &&& entry_of(read->Ok_0, name) == expected_entry(
                x.dir,
                x.dir.names,
                outcome_of(x).parts,
                name,
            )
        }),
{
    let x = ready(bytes, script, template)->Ok_0;
    lemma_parts_distinct(bytes, script, template);
    lemma_names_of_distinct_plan(x.dir, x.dir.names, outcome_of(x).parts);
    law_package_reads_back(x.dir, x.dir.names, outcome_of(x).parts, name);
}

pub proof fn lemma_parts_distinct(bytes: Seq<u8>, script: Seq<char>, template: Template)
    requires
        ready(bytes, script, template) is Ok,
    ensures
        distinct_names(outcome_of(ready(bytes, script, template)->Ok_0).parts),
{
    let x = ready(bytes, script, template)->Ok_0;
    law_master_keeps_names_distinct(x.dir, x.dir.names, Seq::empty(), template);
    law_import_keeps_names_distinct(x.dir, x.slides, x.parts, x.script);
}

/// A part of the package that neither the notes master nor a note touches comes out of
/// an import as it went in.
pub proof fn law_untouched_part_is_kept(
    bytes: Seq<u8>,
    script: Seq<char>,
    template: Template,
    r: Result<(ImportSummary, Vec<u8>), String>,
    name: Seq<char>,
)
    requires
        imports(bytes, script, template, r),
        r is Ok,
        plan_of(ready(bytes, script, template)->Ok_0).entries.len() != 65535,
        r->Ok_0.1@.len() < 0xffff_ffff,
        ({
            let x = ready(bytes, script, template)->Ok_0;
            &&& x.dir.names.contains(name)
            &&& !directory_name(name)
            &&& !master_touches(x.dir.names, Seq::empty(), name)
            &&& !notes_touch(x.dir, x.slides, x.parts, x.script, name)
        }),
    ensures
        zip_open(r->Ok_0.1@) is Ok,
        entry_of(zip_open(r->Ok_0.1@)->Ok_0, name) == entry_of(
            ready(bytes, script, template)->Ok_0.dir,
            name,
        ),
{
    let x = ready(bytes, script, template)->Ok_0;
    law_imported_package_reads_back(bytes, script, template, r, name);
    law_notes_leave_other_parts(x.dir, x.slides, x.parts, x.script, name);
    law_master_leaves_other_parts(x.dir, x.dir.names, Seq::empty(), template, name);
}

/// Putting in notes in two goes changes the parts as putting them in at once does.
proof fn lemma_progress_in_two_goes(
    dir: ZipDirectory,
    slides: Map<u32, Seq<char>>,
    start: Seq<Part>,
    first: Seq<Note>,
    second: Seq<Note>,
)
    ensures
        progress(dir, slides, start, first + second).parts == progress(
            dir,
            slides,
            progress(dir, slides, start, first).parts,
            second,
        ).parts,
    decreases second.len(),
{
    if second.len() == 0 {
        assert(first + second =~= first);
    } else {
        lemma_progress_in_two_goes(dir, slides, start, first, second.drop_last());
        assert((first + second).drop_last() == first + second.drop_last());
        assert((first + second).last() == second.last());
    }
}

/// The parts after a note for a page of the deck are what putting it in gives.
#[verifier::spinoff_prover]
proof fn lemma_parts_after(x: Ready, i: int)
    requires
        0 <= i < x.script.len(),
        x.slides.contains_key(x.script[i].page),
    ensures
        parts_before(x, i + 1) == note_applied(
            x.dir,
            x.dir.names,
            x.slides,
            parts_before(x, i),
            x.script[i].page,
            x.script[i].text,
        ).parts,
{
    reveal(parts_before);
    assert(x.script.take(i + 1).drop_last() == x.script.take(i));
    assert(x.script.take(i + 1).last() == x.script[i]);
}

/// Between two places in the script, a part stays that no note there touches.
#[verifier::spinoff_prover]
proof fn lemma_parts_stay(x: Ready, i: int, j: int, name: Seq<char>)
    requires
        0 <= i <= j <= x.script.len(),
        !notes_touch(x.dir, x.slides, parts_before(x, i), x.script.subrange(i, j), name),
    ensures
        find_part(parts_before(x, j), name) == find_part(parts_before(x, i), name),
{
    reveal(parts_before);
    let between = x.script.subrange(i, j);
    assert(x.script.take(i) + between =~= x.script.take(j));
    lemma_progress_in_two_goes(x.dir, x.slides, x.parts, x.script.take(i), between);
    law_notes_leave_other_parts(x.dir, x.slides, parts_before(x, i), between, name);
}

/// The notes of a page are still in the parts at the end, unless a later note touches
/// the part that holds them.
#[verifier::spinoff_prover]
proof fn lemma_applied_note_stays(x: Ready, i: int)
    requires
        ({
            let before = parts_before(x, i);
            let note = x.script[i];
            &&& 0 <= i < x.script.len()
            &&& note_applied(x.dir, x.dir.names, x.slides, before, note.page, note.text).result is Ok
            &&& !notes_touch(
                x.dir,
                x.slides,
                parts_before(x, i + 1),
                x.script.skip(i + 1),
                notes_part(x.dir, x.dir.names, x.slides, before, note.page),
            )
        }),
    ensures
        ({
            let before = parts_before(x, i);
            let note = x.script[i];
            let path = notes_part(x.dir, x.dir.names, x.slides, before, note.page);
            &&& !directory_name(path)
            &&& find_part(outcome_of(x).parts, path) == Some(
                notes_data(x.dir, x.slides, before, note.page, note.text),
            )
        }),
{
    let before = parts_before(x, i);
    let note = x.script[i];
    let path = notes_part(x.dir, x.dir.names, x.slides, before, note.page);
    law_applied_note_is_stored(x.dir, x.dir.names, x.slides, before, note.page, note.text);
    lemma_notes_part_is_no_directory(x.dir, x.dir.names, x.slides, before, note.page);
    lemma_parts_after(x, i);
    lemma_parts_stay(x, i + 1, x.script.len() as int, path);
    reveal(parts_before);
    assert(x.script.subrange(i + 1, x.script.len() as int) =~= x.script.skip(i + 1));
    assert(x.script.take(x.script.len() as int) =~= x.script);
}

/// A package that comes out of an import holds, under the notes part of each page that
/// got its notes, what that page was given, unless a later note of the script touches
/// the same part.
pub proof fn law_applied_note_is_in_the_package(
    bytes: Seq<u8>,
    script: Seq<char>,
    template: Template,
    r: Result<(ImportSummary, Vec<u8>), String>,
    i: int,
)
    requires
        imports(bytes, script, template, r),
        r is Ok,
        plan_of(ready(bytes, script, template)->Ok_0).entries.len() != 65535,
        r->Ok_0.1@.len() < 0xffff_ffff,
        ({
            let x = ready(bytes, script, template)->Ok_0;
            let before = parts_before(x, i);
            let note = x.script[i];
            &&& 0 <= i < x.script.len()
            &&& note_applied(x.dir, x.dir.names, x.slides, before, note.page, note.text).result is Ok
            &&& !notes_touch(
                x.dir,
                x.slides,
                parts_before(x, i + 1),
                x.script.skip(i + 1),
                notes_part(x.dir, x.dir.names, x.slides, before, note.page),
            )
        }),
    ensures
        ({
            let x = ready(bytes, script, template)->Ok_0;
            let before = parts_before(x, i);
            let note = x.script[i];
            &&& zip_open(r->Ok_0.1@) is Ok
            &&& entry_of(
                zip_open(r->Ok_0.1@)->Ok_0,
                notes_part(x.dir, x.dir.names, x.slides, before, note.page),
            ) == Ok::<Seq<u8>, Seq<char>>(
                notes_data(x.dir, x.slides, before, note.page, note.text),
            )
        }),
{
    let x = ready(bytes, script, template)->Ok_0;
    let path = notes_part(x.dir, x.dir.names, x.slides, parts_before(x, i), x.script[i].page);
    lemma_applied_note_stays(x, i);
    law_imported_package_reads_back(bytes, script, template, r, path);
}

/// A page that got a new notes slide keeps it: a later note for the page goes to the
/// same part, unless a note between them touches the relationships of the slide.
pub proof fn law_page_keeps_its_notes_slide(
    bytes: Seq<u8>,
    script: Seq<char>,
    template: Template,
    r: Result<(ImportSummary, Vec<u8>), String>,
    i: int,
    j: int,
)
    requires
        imports(bytes, script, template, r),
        ready(bytes, script, template) is Ok,
        ({
            let x = ready(bytes, script, template)->Ok_0;
            let before = parts_before(x, i);
            let page = x.script[i].page;
            &&& 0 <= i < j < x.script.len()
            &&& x.script[j].page == page
            &&& x.slides.contains_key(page)
            &&& find_type(slide_rels(x.dir, before, x.slides[page]), NOTES_TYPE_SUFFIX@) is None
            &&& note_applied(
                x.dir,
                x.dir.names,
                x.slides,
                before,
                page,
                x.script[i].text,
            ).result is Ok
            &&& !notes_touch(
                x.dir,
                x.slides,
                parts_before(x, i + 1),
                x.script.subrange(i + 1, j),
                slide_rels_path(x.slides[page]),
            )
        }),
    ensures
        ({
            let x = ready(bytes, script, template)->Ok_0;
            let page = x.script[i].page;
            notes_part(x.dir, x.dir.names, x.slides, parts_before(x, j), page) == notes_part(
                x.dir,
                x.dir.names,
                x.slides,
                parts_before(x, i),
                page,
            )
        }),
{
    let x = ready(bytes, script, template)->Ok_0;
    let page = x.script[i].page;
    lemma_slide_rels_stay(x, i, j);
    assert(note_reads(x.dir, x.slides, parts_before(x, j), x.script[j].page));
    law_new_notes_slide_is_found_again(
        x.dir,
        x.dir.names,
        x.slides,
        parts_before(x, i),
        page,
        x.script[i].text,
        parts_before(x, j),
    );
}

#[verifier::spinoff_prover]
proof fn lemma_slide_rels_stay(x: Ready, i: int, j: int)
    requires
        0 <= i < j < x.script.len(),
        x.slides.contains_key(x.script[i].page),
        !notes_touch(
            x.dir,
            x.slides,
            parts_before(x, i + 1),
            x.script.subrange(i + 1, j),
            slide_rels_path(x.slides[x.script[i].page]),
        ),
    ensures
        ({
            let note = x.script[i];
            let path = slide_rels_path(x.slides[note.page]);
            find_part(parts_before(x, j), path) == find_part(
                note_applied(
                    x.dir,
                    x.dir.names,
                    x.slides,
                    parts_before(x, i),
                    note.page,
                    note.text,
                ).parts,
                path,
            )
        }),
{
    lemma_parts_after(x, i);
    lemma_parts_stay(x, i + 1, j, slide_rels_path(x.slides[x.script[i].page]));
}

// ---- what is said and what is refused ----

/// The messages name the page, and for a page that is missing the number of slides.
pub proof fn law_messages_name_the_page(page: u32, slides: Map<u32, Seq<char>>)
    requires
        slides.len() <= u32::MAX,
    ensures
        page_done(page).page == page,
        page_done(page).message == "슬라이드 "@ + decimal(page as nat) + "번에 입력 완료"@,
        no_such_page(page, slides).page == page,
        no_such_page(page, slides).message == "슬라이드 "@ + decimal(page as nat)
            + "번이 존재하지 않음"@ + " (총 "@ + decimal(slides.len()) + "장)"@,
{
}

/// Each note of a page that the deck has is tried: if that goes through the page is reported
/// as done, and otherwise as failed with the error. Either way what was reported before stays.
pub proof fn law_each_note_is_tried(
    dir: ZipDirectory,
    slides: Map<u32, Seq<char>>,
    start: Seq<Part>,
    script: Seq<Note>,
    note: Note,
)
    requires
        slides.contains_key(note.page),
    ensures
        ({
            let before = progress(dir, slides, start, script);
            let after = progress(dir, slides, start, script.push(note));
            let change = note_applied(dir, dir.names, slides, before.parts, note.page, note.text);
            &&& after.parts == change.parts
            &&& change.result is Ok ==> after.applied == before.applied.push(page_done(note.page))
                && after.failed == before.failed
            &&& change.result matches Err(m) ==> after.applied == before.applied && after.failed
                == before.failed.push((PageNote { page: note.page, message: m }))
        }),
{
    assert(script.push(note).drop_last() =~= script);
}

/// A package that cannot be opened, a deck that cannot be read and a notes master that cannot
/// be put in are each refused with their error. One that has a notes master is taken as it is.
pub proof fn law_unreadable_packages_are_refused(
    bytes: Seq<u8>,
    script: Seq<char>,
    template: Template,
)
    requires
        script_notes(script).len() > 0,
    ensures
        match zip_open(sanitized(bytes)) {
            Err(m) => ready(bytes, script, template) == Err::<Ready, Seq<char>>(
                "PPTX(zip) 열기 실패: "@ + m,
            ),
            Ok(dir) => match slides_of(dir) {
                Err(m) => ready(bytes, script, template) == Err::<Ready, Seq<char>>(m),
                Ok(slides) => if dir.names.contains("ppt/notesMasters/notesMaster1.xml"@) {
                    ready(bytes, script, template) == Ok::<Ready, Seq<char>>(
                        (Ready { dir, slides, parts: Seq::empty(), script: script_notes(script) }),
                    )
                } else {
                    let change = master_injected(dir, dir.names, Seq::empty(), template);
                    match change.result {
                        Err(m) => ready(bytes, script, template) == Err::<Ready, Seq<char>>(m),
                        Ok(_) => ready(bytes, script, template) == Ok::<Ready, Seq<char>>(
                            (Ready {
                                dir,
                                slides,
                                parts: change.parts,
                                script: script_notes(script),
                            }),
                        ),
                    }
                },
            },
        },
{
}

/// An import that put in no notes is refused; one that did goes through where every part can
/// be read and the package stays of a moderate size.
pub proof fn law_import_goes_through_with_a_note(
    bytes: Seq<u8>,
    script: Seq<char>,
    template: Template,
    r: Result<(ImportSummary, Vec<u8>), String>,
    x: Ready,
)
    requires
        imports(bytes, script, template, r),
        ready(bytes, script, template) == Ok::<Ready, Seq<char>>(x),
    ensures
        outcome_of(x).applied.len() == 0 ==> r is Err && r->Err_0@ == "적용된 슬라이드가 없습니다."@,
        outcome_of(x).applied.len() > 0 && plan_of(x).error is None && moderate(plan_of(x).entries)
            ==> r is Ok,
        r is Ok ==> page_notes(r->Ok_0.0.applied@) == outcome_of(x).applied && page_notes(
            r->Ok_0.0.failed@,
        ) == outcome_of(x).failed,
        r is Err && outcome_of(x).applied.len() > 0 && moderate(plan_of(x).entries) ==> plan_of(
            x,
        ).error == Some(r->Err_0@),
{
}

proof fn lemma_numbers_are_left(x: Ready, n: int)
    requires
        0 <= n <= x.script.len(),
        forall|k: int|
            0 <= k < x.script.len() ==> largest_note(
                x.dir.names + part_names(#[trigger] parts_before(x, k)),
            ) < u32::MAX,
    ensures
        numbers_left(x.dir, x.slides, x.parts, x.script.take(n)),
    decreases n,
{
    if n > 0 {
        lemma_numbers_are_left(x, n - 1);
        reveal(parts_before);
        let script = x.script.take(n);
        assert(script.drop_last() =~= x.script.take(n - 1));
        assert(largest_note(x.dir.names + part_names(parts_before(x, n - 1))) < u32::MAX);
        law_number_is_left_below_the_largest(
            x.dir,
            x.dir.names,
            x.slides,
            progress(x.dir, x.slides, x.parts, script.drop_last()).parts,
            script.last().page,
        );
    }
}

/// An import is within the limits of the format where no notes slide has the largest number
/// there is, at any step, and no name is of more than 65535 bytes; one that is refused from
/// the start is in any case.
pub proof fn law_usual_imports_are_within_limits(
    bytes: Seq<u8>,
    script: Seq<char>,
    template: Template,
)
    requires
        ready(bytes, script, template) matches Ok(x) ==> (forall|k: int|
            0 <= k < x.script.len() ==> largest_note(
                x.dir.names + part_names(#[trigger] parts_before(x, k)),
            ) < 0xffff_ffff) && (forall|i: int|
            0 <= i < plan_of(x).entries.len() ==> utf8(
                (#[trigger] plan_of(x).entries[i]).name,
            ).len() <= 0xffff),
    ensures
        within_limits(bytes, script, template),
{
    if let Ok(x) = ready(bytes, script, template) {
        let n = x.script.len() as int;
        lemma_numbers_are_left(x, n);
        assert(x.script.take(n) =~= x.script);
        law_names_fit_in_sixteen_bits(plan_of(x).entries);
    }
}

} // verus!
