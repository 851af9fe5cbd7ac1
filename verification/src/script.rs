//! Reads a script: lines such as `3p` start the notes of a page.

use crate::text::{
    blank, chars_of, decimal, digits_u32, joined, law_number_is_its_decimal_form,
    law_only_white_space_is_trimmed, law_white_space_around_is_trimmed, lemma_split_at_separator,
    lemma_split_without_separator, parse_digits, split, split_at_char, text_of, texts, trim,
    trimmed, zeros,
};
use vstd::prelude::*;
use vstd::slice::slice_subrange;

verus! {

/// The notes for one page.
pub struct NoteBlock {
    pub page: u32,
    pub text: String,
}

/// What a [`NoteBlock`] says.
#[verifier::ext_equal]
pub struct Note {
    pub page: u32,
    pub text: Seq<char>,
}

impl View for NoteBlock {
    type V = Note;

    open spec fn view(&self) -> Note {
        Note { page: self.page, text: self.text@ }
    }
}

/// What a list of blocks says.
pub open spec fn notes(blocks: Seq<NoteBlock>) -> Seq<Note> {
    blocks.map_values(|b: NoteBlock| b@)
}

/// The page that a line announces: decimal digits and a `p` or `P`, with white
/// space around them ignored, where the number fits in 32 bits.
pub open spec fn marked_page(line: Seq<char>) -> Option<u32> {
    let t = trimmed(line);
    if t.len() >= 2 && (t.last() == 'p' || t.last() == 'P') {
        digits_u32(t.drop_last())
    } else {
        None
    }
}

/// The text up to the next page marker, each line ended by a newline.
pub open spec fn body(lines: Seq<Seq<char>>) -> Seq<char>
    decreases lines.len(),
{
    if lines.len() == 0 || marked_page(lines[0]) is Some {
        Seq::empty()
    } else {
        lines[0].push('\n') + body(lines.drop_first())
    }
}

/// The notes in a list of lines: one for each page marker, with the trimmed text
/// between it and the next. Lines before the first marker are ignored.
pub open spec fn notes_in_lines(lines: Seq<Seq<char>>) -> Seq<Note>
    decreases lines.len(),
{
    if lines.len() == 0 {
        Seq::empty()
    } else {
        let rest = notes_in_lines(lines.drop_first());
        match marked_page(lines[0]) {
            Some(page) => seq![Note { page, text: trimmed(body(lines.drop_first())) }] + rest,
            None => rest,
        }
    }
}

/// `s` without a leading byte-order mark.
pub open spec fn without_bom(s: Seq<char>) -> Seq<char> {
    if s.len() > 0 && s[0] == '\u{FEFF}' {
        s.drop_first()
    } else {
        s
    }
}

/// `s` with every `\r\n` and every other `\r` turned into `\n`.
pub open spec fn newlines_normalized(s: Seq<char>) -> Seq<char>
    decreases s.len(),
{
    if s.len() == 0 {
        s
    } else {
        let init = newlines_normalized(s.drop_last());
        if s.last() == '\n' && s.len() >= 2 && s[s.len() - 2] == '\r' {
            init
        } else if s.last() == '\r' {
            init.push('\n')
        } else {
            init.push(s.last())
        }
    }
}

/// The notes in a script.
pub open spec fn script_notes(script: Seq<char>) -> Seq<Note> {
    notes_in_lines(split(newlines_normalized(without_bom(script)), '\n'))
}

/// The page that a line announces, as [`marked_page`] says.
pub fn page_marker(line: &str) -> (r: Option<u32>)
    ensures
        r == marked_page(line@),
{
    page_marker_chars(chars_of(line).as_slice())
}

fn page_marker_chars(line: &[char]) -> (r: Option<u32>)
    ensures
        r == marked_page(line@),
{
    let t = trim(line);
    if t.len() < 2 {
        return None;
    }
    let last = t[t.len() - 1];
    if last != 'p' && last != 'P' {
        return None;
    }
    assert(t@.subrange(0, t@.len() - 1) == t@.drop_last());
    parse_digits(slice_subrange(t, 0, t.len() - 1))
}

fn normalize_newlines(s: &[char]) -> (r: Vec<char>)
    ensures
        r@ == newlines_normalized(s@),
{
    let mut out: Vec<char> = Vec::new();
    let mut i: usize = 0;
    while i < s.len()
        invariant
            i <= s@.len(),
            out@ == newlines_normalized(s@.take(i as int)),
        decreases s@.len() - i,
    {
        assert(s@.take(i + 1).drop_last() == s@.take(i as int));
        if s[i] == '\n' && i > 0 && s[i - 1] == '\r' {
        } else if s[i] == '\r' {
            out.push('\n');
        } else {
            out.push(s[i]);
        }
        i = i + 1;
    }
    assert(s@.take(i as int) == s@);
    out
}

proof fn lemma_notes_push(blocks: Seq<NoteBlock>, b: NoteBlock)
    ensures
        notes(blocks.push(b)) == notes(blocks).push(b@),
{
    assert(notes(blocks.push(b)) =~= notes(blocks).push(b@));
}

/// The notes that the lines from `i` on still yield, when `current` holds the page
/// and the text read so far of an unfinished note.
spec fn pending(current: Option<u32>, text: Seq<char>, lines: Seq<Seq<char>>) -> Seq<Note> {
    match current {
        Some(page) => seq![Note { page, text: trimmed(text + body(lines)) }] + notes_in_lines(lines),
        None => notes_in_lines(lines),
    }
}

/// Reads a script into one block per page marker, as [`script_notes`] says.
pub fn parse_script(text: &str) -> (r: Vec<NoteBlock>)
    ensures
        notes(r@) == script_notes(text@),
{
    let all = chars_of(text);
    let start: usize = if all.len() > 0 && all[0] == '\u{FEFF}' {
        1
    } else {
        0
    };
    let script = slice_subrange(all.as_slice(), start, all.len());
    assert(script@ == without_bom(text@));
    let normalized = normalize_newlines(script);
    let lines = split_at_char(normalized.as_slice(), '\n');
    let ghost all_lines = texts(lines@);
    let mut blocks: Vec<NoteBlock> = Vec::new();
    let mut current_page: Option<u32> = None;
    let mut current_text: Vec<char> = Vec::new();
    let mut i: usize = 0;
    assert(all_lines.skip(0) == all_lines);
    assert(notes(blocks@) + pending(None, current_text@, all_lines) =~= notes_in_lines(all_lines));
    while i < lines.len()
        invariant
            i <= lines@.len(),
            all_lines == texts(lines@),
            notes_in_lines(all_lines) == notes(blocks@) + pending(
                current_page,
                current_text@,
                all_lines.skip(i as int),
            ),
        decreases lines@.len() - i,
    {
        let ghost rest = all_lines.skip(i as int);
        let ghost done = notes(blocks@);
        let line = &lines[i];
        assert(rest[0] == line@);
        assert(rest.drop_first() == all_lines.skip(i + 1));
        if let Some(p) = page_marker_chars(line.as_slice()) {
            let ghost next = notes_in_lines(rest.drop_first());
            if let Some(page) = current_page {
                let block = NoteBlock { page, text: text_of(trim(current_text.as_slice())) };
                proof {
                    lemma_notes_push(blocks@, block);
                    assert(current_text@ + body(rest) == current_text@);
                    assert(done + (seq![block@] + notes_in_lines(rest)) == done.push(block@)
                        + notes_in_lines(rest));
                }
                blocks.push(block);
            }
            current_page = Some(p);
            current_text = Vec::new();
            assert(current_text@ + body(rest.drop_first()) == body(rest.drop_first()));
        } else if current_page.is_some() {
            let ghost before = current_text@;
            crate::text::extend_chars(&mut current_text, line.as_slice());
            current_text.push('\n');
            assert(before + body(rest) == current_text@ + body(rest.drop_first()));
        }
        i = i + 1;
    }
    proof {
        assert(all_lines.skip(i as int) =~= Seq::<Seq<char>>::empty());
        assert(current_text@ + body(all_lines.skip(i as int)) == current_text@);
    }
    if let Some(page) = current_page {
        let block = NoteBlock { page, text: text_of(trim(current_text.as_slice())) };
        proof {
            lemma_notes_push(blocks@, block);
            assert(notes(blocks@) + (seq![block@] + Seq::<Note>::empty()) == notes(blocks@).push(
                block@,
            ));
        }
        blocks.push(block);
    } else {
        assert(notes(blocks@) + Seq::<Note>::empty() == notes(blocks@));
    }
    blocks
}

// ---- what reading a script guarantees ----

proof fn lemma_normalized_without_cr(s: Seq<char>)
    requires
        !s.contains('\r'),
    ensures
        newlines_normalized(s) == s,
    decreases s.len(),
{
    if s.len() > 0 {
        assert(forall|i: int| 0 <= i < s.len() ==> s[i] != '\r');
        assert(forall|i: int| 0 <= i < s.drop_last().len() ==> s.drop_last()[i] == s[i]);
        lemma_normalized_without_cr(s.drop_last());
        assert(s.drop_last().push(s.last()) == s);
    }
}

proof fn lemma_trim_start_shorter(s: Seq<char>)
    ensures
        crate::text::trim_start(s).len() <= s.len(),
        crate::text::trim_start(s).len() == s.len() ==> s.len() == 0 || !crate::text::white_space(
            s[0],
        ),
        crate::text::trim_start(s).len() > 0 ==> !crate::text::white_space(
            crate::text::trim_start(s)[0],
        ),
    decreases s.len(),
{
    if s.len() > 0 && crate::text::white_space(s[0]) {
        lemma_trim_start_shorter(s.drop_first());
    }
}

proof fn lemma_trim_end_shorter(s: Seq<char>)
    ensures
        crate::text::trim_end(s).len() <= s.len(),
        crate::text::trim_end(s).len() == s.len() ==> s.len() == 0 || !crate::text::white_space(
            s.last(),
        ),
        crate::text::trim_end(s).len() > 0 ==> !crate::text::white_space(
            crate::text::trim_end(s).last(),
        ) && crate::text::trim_end(s)[0] == s[0],
    decreases s.len(),
{
    if s.len() > 0 && crate::text::white_space(s.last()) {
        lemma_trim_end_shorter(s.drop_last());
    }
}

/// Trimming twice is trimming once.
pub proof fn law_trimmed_is_stable(s: Seq<char>)
    ensures
        trimmed(trimmed(s)) == trimmed(s),
{
    lemma_trim_start_shorter(s);
    lemma_trim_end_shorter(crate::text::trim_start(s));
}

/// The text of every note is trimmed.
pub proof fn law_note_texts_are_trimmed(script: Seq<char>)
    ensures
        forall|i: int|
            0 <= i < script_notes(script).len() ==> trimmed(
                (#[trigger] script_notes(script)[i]).text,
            ) == script_notes(script)[i].text,
{
    lemma_texts_trimmed(split(newlines_normalized(without_bom(script)), '\n'));
}

proof fn lemma_texts_trimmed(lines: Seq<Seq<char>>)
    ensures
        forall|i: int|
            0 <= i < notes_in_lines(lines).len() ==> trimmed(
                (#[trigger] notes_in_lines(lines)[i]).text,
            ) == notes_in_lines(lines)[i].text,
    decreases lines.len(),
{
    if lines.len() > 0 {
        lemma_texts_trimmed(lines.drop_first());
        law_trimmed_is_stable(body(lines.drop_first()));
        let rest = notes_in_lines(lines.drop_first());
        let all = notes_in_lines(lines);
        assert forall|i: int| 0 <= i < all.len() implies trimmed((#[trigger] all[i]).text)
            == all[i].text by {
            if marked_page(lines[0]) is Some {
                if i > 0 {
                    assert(all[i] == rest[i - 1]);
                }
            } else {
                assert(all[i] == rest[i]);
            }
        }
    }
}

/// A byte-order mark before a script does not change its notes.
pub proof fn law_byte_order_mark_is_ignored(script: Seq<char>)
    requires
        script.len() > 0 ==> script[0] != '\u{FEFF}',
    ensures
        script_notes(seq!['\u{FEFF}'] + script) == script_notes(script),
{
    assert((seq!['\u{FEFF}'] + script).drop_first() == script);
}

/// `s` with each newline written as a carriage return and a newline.
pub open spec fn with_crlf(s: Seq<char>) -> Seq<char>
    decreases s.len(),
{
    if s.len() == 0 {
        s
    } else if s.last() == '\n' {
        with_crlf(s.drop_last()).push('\r').push('\n')
    } else {
        with_crlf(s.drop_last()).push(s.last())
    }
}

/// `s` with each newline written as a carriage return.
pub open spec fn with_cr(s: Seq<char>) -> Seq<char> {
    s.map_values(
        |c: char|
            if c == '\n' {
                '\r'
            } else {
                c
            },
    )
}

proof fn lemma_crlf_normalized(s: Seq<char>)
    requires
        !s.contains('\r'),
    ensures
        newlines_normalized(with_crlf(s)) == s,
        s.len() > 0 && s[0] != '\n' ==> with_crlf(s).len() > 0 && with_crlf(s)[0] == s[0],
        s.len() > 0 && s[0] == '\n' ==> with_crlf(s).len() > 0 && with_crlf(s)[0] == '\r',
        s.len() == 0 ==> with_crlf(s).len() == 0,
        with_crlf(s).len() > 0 ==> with_crlf(s).last() != '\r',
    decreases s.len(),
{
    if s.len() > 0 {
        let init = s.drop_last();
        assert(forall|i: int| 0 <= i < s.len() ==> s[i] != '\r');
        assert(forall|i: int| 0 <= i < init.len() ==> init[i] == s[i]);
        lemma_crlf_normalized(init);
        let w = with_crlf(init);
        assert(init.push(s.last()) == s);
        if s.last() == '\n' {
            let c = w.push('\r');
            assert(c.drop_last() == w);
            assert(c.push('\n').drop_last() == c);
            assert(newlines_normalized(c) == init.push('\n'));
        } else {
            assert(w.push(s.last()).drop_last() == w);
        }
    }
}

proof fn lemma_cr_normalized(s: Seq<char>)
    requires
        !s.contains('\r'),
    ensures
        newlines_normalized(with_cr(s)) == s,
    decreases s.len(),
{
    if s.len() > 0 {
        let init = s.drop_last();
        assert(forall|i: int| 0 <= i < s.len() ==> s[i] != '\r');
        assert(forall|i: int| 0 <= i < init.len() ==> init[i] == s[i]);
        lemma_cr_normalized(init);
        assert(with_cr(s).drop_last() =~= with_cr(init));
        assert(init.push(s.last()) == s);
    } else {
        assert(with_cr(s) =~= s);
    }
}

proof fn lemma_crlf_drop_first(s: Seq<char>)
    requires
        s.len() > 0,
        s[0] != '\n',
    ensures
        with_crlf(s).len() > 0,
        with_crlf(s)[0] == s[0],
        with_crlf(s).drop_first() == with_crlf(s.drop_first()),
    decreases s.len(),
{
    if s.len() == 1 {
        assert(s.drop_last() =~= Seq::<char>::empty());
        assert(s.drop_first() =~= Seq::<char>::empty());
        assert(with_crlf(s) =~= s);
        assert(with_crlf(s).drop_first() =~= Seq::<char>::empty());
    } else {
        lemma_crlf_drop_first(s.drop_last());
        assert(s.drop_first().drop_last() == s.drop_last().drop_first());
        assert(with_crlf(s).drop_first() =~= with_crlf(s.drop_first()));
    }
}

/// A script reads the same whichever way its lines are ended.
pub proof fn law_line_endings_do_not_matter(script: Seq<char>)
    requires
        !script.contains('\r'),
    ensures
        script_notes(with_crlf(script)) == script_notes(script),
        script_notes(with_cr(script)) == script_notes(script),
{
    let plain = without_bom(script);
    assert(forall|i: int| 0 <= i < script.len() ==> script[i] != '\r');
    assert forall|i: int| 0 <= i < plain.len() implies plain[i] != '\r' by {
        if script[0] == '\u{FEFF}' {
            assert(plain[i] == script[i + 1]);
        }
    }
    lemma_crlf_normalized(script);
    if script.len() > 0 && script[0] == '\u{FEFF}' {
        lemma_crlf_drop_first(script);
    }
    assert(without_bom(with_crlf(script)) == with_crlf(plain));
    assert(without_bom(with_cr(script)) =~= with_cr(plain));
    lemma_crlf_normalized(plain);
    lemma_cr_normalized(plain);
    lemma_normalized_without_cr(plain);
}

proof fn lemma_normalized_has_no_cr(s: Seq<char>)
    ensures
        !newlines_normalized(s).contains('\r'),
    decreases s.len(),
{
    if s.len() > 0 {
        let init = newlines_normalized(s.drop_last());
        let all = newlines_normalized(s);
        lemma_normalized_has_no_cr(s.drop_last());
        assert forall|i: int| 0 <= i < all.len() implies all[i] != '\r' by {
            if i < init.len() {
                assert(all[i] == init[i]);
                assert(init.contains(init[i]));
            }
        }
    }
}

proof fn lemma_normalized_start(s: Seq<char>)
    ensures
        s.len() == 0 <==> newlines_normalized(s).len() == 0,
        s.len() > 0 ==> newlines_normalized(s)[0] == (if s[0] == '\r' {
            '\n'
        } else {
            s[0]
        }),
    decreases s.len(),
{
    if s.len() > 1 {
        lemma_normalized_start(s.drop_last());
    } else if s.len() == 1 {
        assert(newlines_normalized(s.drop_last()) == Seq::<char>::empty());
    }
}

proof fn lemma_normalized_drop_first(s: Seq<char>)
    requires
        s.len() > 0,
        s[0] != '\r',
    ensures
        newlines_normalized(s).drop_first() == newlines_normalized(s.drop_first()),
    decreases s.len(),
{
    lemma_normalized_start(s);
    if s.len() == 1 {
        assert(s.drop_last() =~= Seq::<char>::empty());
        assert(s.drop_first() =~= Seq::<char>::empty());
        assert(newlines_normalized(s) =~= s);
        assert(newlines_normalized(s).drop_first() =~= Seq::<char>::empty());
    } else {
        lemma_normalized_drop_first(s.drop_last());
        lemma_normalized_start(s.drop_last());
        assert(s.drop_first().drop_last() == s.drop_last().drop_first());
        assert(newlines_normalized(s).drop_first() =~= newlines_normalized(s.drop_first()));
    }
}

/// A script reads the same once each of its line ends, of whatever kind, is a newline.
pub proof fn law_mixed_line_endings_do_not_matter(script: Seq<char>)
    ensures
        script_notes(newlines_normalized(script)) == script_notes(script),
{
    let plain = without_bom(script);
    lemma_normalized_start(script);
    if script.len() > 0 && script[0] == '\u{FEFF}' {
        lemma_normalized_drop_first(script);
    }
    assert(without_bom(newlines_normalized(script)) == newlines_normalized(plain));
    lemma_normalized_has_no_cr(plain);
    lemma_normalized_without_cr(newlines_normalized(plain));
}

/// Whether a note can stand in a script: its text is trimmed, its lines end in
/// plain newlines, and none of them announces a page.
pub open spec fn writable(note: Note) -> bool {
    &&& trimmed(note.text) == note.text
    &&& !note.text.contains('\r')
    &&& forall|i: int|
        0 <= i < split(note.text, '\n').len() ==> marked_page(
            #[trigger] split(note.text, '\n')[i],
        ) is None
}

/// A script with the given notes.
pub open spec fn script_of(notes: Seq<Note>) -> Seq<char>
    decreases notes.len(),
{
    if notes.len() == 0 {
        Seq::empty()
    } else {
        decimal(notes[0].page as nat).push('p').push('\n') + (notes[0].text.push('\n')
            + script_of(notes.drop_first()))
    }
}

/// The lines one after another, each ended by a newline.
spec fn lines_text(lines: Seq<Seq<char>>) -> Seq<char>
    decreases lines.len(),
{
    if lines.len() == 0 {
        Seq::empty()
    } else {
        lines[0].push('\n') + lines_text(lines.drop_first())
    }
}

proof fn lemma_lines_text_push(lines: Seq<Seq<char>>, line: Seq<char>)
    ensures
        lines_text(lines.push(line)) == lines_text(lines) + line.push('\n'),
    decreases lines.len(),
{
    let more = lines.push(line);
    if lines.len() == 0 {
        assert(more.drop_first() =~= Seq::<Seq<char>>::empty());
        assert(lines_text(more.drop_first()) == Seq::<char>::empty());
        assert(lines_text(more) =~= lines_text(lines) + line.push('\n'));
    } else {
        lemma_lines_text_push(lines.drop_first(), line);
        assert(more.drop_first() == lines.drop_first().push(line));
        assert(lines_text(more) =~= lines_text(lines) + line.push('\n'));
    }
}

proof fn lemma_lines_text_of_split(s: Seq<char>)
    ensures
        lines_text(split(s, '\n')) == s.push('\n'),
    decreases s.len(),
{
    let lines = split(s, '\n');
    if s.len() == 0 {
        assert(lines.drop_first() =~= Seq::<Seq<char>>::empty());
        assert(lines_text(lines.drop_first()) == Seq::<char>::empty());
        assert(lines_text(lines) =~= s.push('\n'));
    } else {
        let init = split(s.drop_last(), '\n');
        crate::text::lemma_split_nonempty(s.drop_last(), '\n');
        lemma_lines_text_of_split(s.drop_last());
        assert(init.drop_last().push(init.last()) == init);
        lemma_lines_text_push(init.drop_last(), init.last());
        let x = lines_text(init.drop_last()) + init.last();
        assert(x.push('\n') == lines_text(init.drop_last()) + init.last().push('\n'));
        assert(x.push('\n').drop_last() == x);
        assert(s.drop_last().push('\n').drop_last() == s.drop_last());
        assert(s.drop_last().push(s.last()) == s);
        if s.last() == '\n' {
            lemma_lines_text_push(init, Seq::<char>::empty());
            assert(lines_text(lines) =~= s.push('\n'));
        } else {
            lemma_lines_text_push(init.drop_last(), init.last().push(s.last()));
            assert(lines_text(lines) =~= s.push('\n'));
        }
    }
}

proof fn lemma_unmarked_lines(lines: Seq<Seq<char>>, more: Seq<Seq<char>>)
    requires
        forall|i: int| 0 <= i < lines.len() ==> marked_page(#[trigger] lines[i]) is None,
    ensures
        body(lines + more) == lines_text(lines) + body(more),
        notes_in_lines(lines + more) == notes_in_lines(more),
    decreases lines.len(),
{
    if lines.len() == 0 {
        assert(lines + more =~= more);
        assert(body(lines + more) =~= lines_text(lines) + body(more));
    } else {
        let rest = lines.drop_first();
        assert forall|i: int| 0 <= i < rest.len() implies marked_page(#[trigger] rest[i]) is None by {
            assert(rest[i] == lines[i + 1]);
        }
        lemma_unmarked_lines(rest, more);
        assert((lines + more).drop_first() == rest + more);
        assert((lines + more)[0] == lines[0]);
        assert(body(lines + more) =~= lines_text(lines) + body(more));
    }
}

proof fn lemma_trimmed_with_newlines(text: Seq<char>)
    requires
        trimmed(text) == text,
    ensures
        trimmed(text.push('\n')) == text,
        trimmed(text.push('\n').push('\n')) == text,
{
    lemma_trim_start_shorter(text);
    lemma_trim_end_shorter(crate::text::trim_start(text));
    lemma_trim_end_shorter(text);
    assert(text.push('\n').drop_last() == text);
    assert(text.push('\n').push('\n').drop_last() == text.push('\n'));
    if text.len() == 0 {
        assert(text.push('\n').drop_first() == text);
        assert(text.push('\n').push('\n').drop_first() == text.push('\n'));
        reveal_with_fuel(crate::text::trim_start, 3);
    } else {
        reveal_with_fuel(crate::text::trim_end, 3);
    }
}

proof fn lemma_marker_line(page: u32)
    ensures
        marked_page(decimal(page as nat).push('p')) == Some(page),
        !decimal(page as nat).push('p').contains('\n'),
        !decimal(page as nat).push('p').contains('\r'),
        decimal(page as nat).len() > 0,
        crate::text::is_digit(decimal(page as nat)[0]),
{
    crate::text::law_decimal_reads_back(page as nat);
    let d = decimal(page as nat);
    assert(forall|i: int| 0 <= i < d.len() ==> crate::text::is_digit(#[trigger] d[i]));
    assert(d.push('p').drop_last() == d);
    assert(crate::text::is_digit(d[0]));
    assert(trimmed(d.push('p')) == d.push('p'));
}

proof fn lemma_script_lines(notes: Seq<Note>)
    requires
        forall|i: int| 0 <= i < notes.len() ==> writable(#[trigger] notes[i]),
    ensures
        notes_in_lines(split(script_of(notes), '\n')) == notes,
        notes.len() > 0 ==> body(split(script_of(notes), '\n')) == Seq::<char>::empty(),
        notes.len() == 0 ==> body(split(script_of(notes), '\n')) == seq!['\n'],
        !script_of(notes).contains('\r'),
    decreases notes.len(),
{
    let script = script_of(notes);
    let lines = split(script, '\n');
    if notes.len() == 0 {
        assert(lines.drop_first() =~= Seq::<Seq<char>>::empty());
        assert(body(lines.drop_first()) == Seq::<char>::empty());
        assert(trimmed(lines[0]).len() == 0);
        assert(body(lines) =~= seq!['\n']);
        assert(notes_in_lines(lines.drop_first()) == Seq::<Note>::empty());
        assert(notes_in_lines(lines) =~= notes);
    } else {
        let note = notes[0];
        let others = notes.drop_first();
        assert forall|i: int| 0 <= i < others.len() implies writable(#[trigger] others[i]) by {
            assert(others[i] == notes[i + 1]);
        }
        assert(writable(note));
        lemma_script_lines(others);
        lemma_marker_line(note.page);
        let marker = decimal(note.page as nat).push('p');
        let rest = note.text.push('\n') + script_of(others);
        let text_lines = split(note.text, '\n');
        let other_lines = split(script_of(others), '\n');
        lemma_split_at_separator(marker, rest, '\n');
        lemma_split_at_separator(note.text, script_of(others), '\n');
        lemma_split_without_separator(marker, '\n');
        assert(lines == seq![marker] + (text_lines + other_lines));
        assert(lines.drop_first() == text_lines + other_lines);
        lemma_unmarked_lines(text_lines, other_lines);
        lemma_lines_text_of_split(note.text);
        lemma_trimmed_with_newlines(note.text);
        if others.len() == 0 {
            assert(note.text.push('\n') + seq!['\n'] == note.text.push('\n').push('\n'));
        } else {
            assert(note.text.push('\n') + Seq::<char>::empty() == note.text.push('\n'));
        }
        assert(seq![note] + others =~= notes);
        assert forall|i: int| 0 <= i < script.len() implies script[i] != '\r' by {
            let m = marker.push('\n');
            let t = note.text.push('\n');
            if i < m.len() {
                if i < marker.len() {
                    assert(script[i] == marker[i]);
                } else {
                    assert(script[i] == '\n');
                }
            } else if i < m.len() + t.len() {
                if i < m.len() + note.text.len() {
                    assert(script[i] == note.text[i - m.len()]);
                } else {
                    assert(script[i] == '\n');
                }
            } else {
                assert(script[i] == script_of(others)[i - m.len() - t.len()]);
            }
        }
    }
}

/// Notes written as a script are read back as they were.
pub proof fn law_script_reads_back(notes: Seq<Note>)
    requires
        forall|i: int| 0 <= i < notes.len() ==> writable(#[trigger] notes[i]),
    ensures
        script_notes(script_of(notes)) == notes,
{
    lemma_script_lines(notes);
    let script = script_of(notes);
    if notes.len() > 0 {
        lemma_marker_line(notes[0].page);
        assert(script[0] == decimal(notes[0].page as nat)[0]);
    }
    assert(without_bom(script) == script);
    lemma_normalized_without_cr(script);
}

// ---- markers and the lines between them ----

/// A number in decimal with `k` zeros before it and `p` after it, between `a` and `b`.
pub open spec fn marker_text(a: Seq<char>, k: nat, n: u32, p: char, b: Seq<char>) -> Seq<char> {
    a + (zeros(k) + decimal(n as nat)).push(p) + b
}

/// Whether a line is such a marker with white space around it.
pub open spec fn marks_page(line: Seq<char>, n: u32) -> bool {
    exists|a: Seq<char>, k: nat, p: char, b: Seq<char>|
        blank(a) && blank(b) && (p == 'p' || p == 'P') && line == #[trigger] marker_text(a, k, n, p, b)
}

/// A line announces page `n` exactly where it is the number in decimal, with any number of
/// zeros before it, one `p` or `P` after it, and white space around the two.
pub proof fn law_markers_are_numbers_with_a_p(line: Seq<char>, n: u32)
    ensures
        marked_page(line) == Some(n) <==> marks_page(line, n),
{
    let t = trimmed(line);
    if marked_page(line) == Some(n) {
        law_only_white_space_is_trimmed(line);
        let (a, b) = choose|a: Seq<char>, b: Seq<char>|
            blank(a) && blank(b) && line == #[trigger] (a + trimmed(line) + b);
        law_number_is_its_decimal_form(t.drop_last(), n, 0);
        let k = choose|j: nat| t.drop_last() == #[trigger] zeros(j) + decimal(n as nat);
        let p = t.last();
        assert(t.drop_last().push(p) =~= t);
        assert(line == marker_text(a, k, n, p, b));
    }
    if marks_page(line, n) {
        let (a, k, p, b) = choose|a: Seq<char>, k: nat, p: char, b: Seq<char>|
            blank(a) && blank(b) && (p == 'p' || p == 'P') && line == #[trigger] marker_text(
                a,
                k,
                n,
                p,
                b,
            );
        let d = zeros(k) + decimal(n as nat);
        law_number_is_its_decimal_form(d, n, k);
        crate::text::law_decimal_reads_back(n as nat);
        assert(decimal(n as nat).len() > 0);
        assert(crate::text::is_digit(d[0])) by {
            if k == 0 {
                assert(d[0] == decimal(n as nat)[0]);
            }
        }
        assert(d.push(p)[0] == d[0]);
        law_white_space_around_is_trimmed(a, d.push(p), b);
        assert(t == d.push(p));
        assert(t.drop_last() =~= d);
    }
}

proof fn lemma_lines_text_joined(lines: Seq<Seq<char>>)
    requires
        lines.len() > 0,
    ensures
        lines_text(lines) == joined(lines, '\n').push('\n'),
    decreases lines.len(),
{
    let init = lines.drop_last();
    lemma_lines_text_push(init, lines.last());
    assert(init.push(lines.last()) =~= lines);
    if lines.len() == 1 {
        assert(init =~= Seq::<Seq<char>>::empty());
        assert(lines_text(init) == Seq::<char>::empty());
        assert(lines_text(lines) =~= lines[0].push('\n'));
    } else {
        lemma_lines_text_joined(init);
        assert(lines_text(lines) =~= joined(lines, '\n').push('\n'));
    }
}

proof fn lemma_trimmed_line_end(s: Seq<char>)
    ensures
        trimmed(s.push('\n')) == trimmed(s),
{
    law_only_white_space_is_trimmed(s);
    let (a, b) = choose|a: Seq<char>, b: Seq<char>|
        blank(a) && blank(b) && s == #[trigger] (a + trimmed(s) + b);
    let more = b.push('\n');
    assert forall|i: int| 0 <= i < more.len() implies crate::text::white_space(#[trigger] more[i]) by {
        if i < b.len() {
            assert(more[i] == b[i]);
        }
    }
    law_white_space_around_is_trimmed(a, trimmed(s), more);
    assert(s.push('\n') =~= a + trimmed(s) + more);
}

proof fn lemma_body_up_to(lines: Seq<Seq<char>>, p: int, end: int)
    requires
        0 <= p <= end <= lines.len(),
        forall|k: int| p <= k < end ==> marked_page(#[trigger] lines[k]) is None,
        end < lines.len() ==> marked_page(lines[end]) is Some,
    ensures
        trimmed(body(lines.skip(p))) == trimmed(joined(lines.subrange(p, end), '\n')),
{
    lemma_body_lines(lines, p, end);
    let between = lines.subrange(p, end);
    if between.len() > 0 {
        lemma_lines_text_joined(between);
        lemma_trimmed_line_end(joined(between, '\n'));
    } else {
        assert(lines_text(between) == Seq::<char>::empty());
    }
}

proof fn lemma_body_lines(lines: Seq<Seq<char>>, p: int, end: int)
    requires
        0 <= p <= end <= lines.len(),
        forall|k: int| p <= k < end ==> marked_page(#[trigger] lines[k]) is None,
        end < lines.len() ==> marked_page(lines[end]) is Some,
    ensures
        body(lines.skip(p)) == lines_text(lines.subrange(p, end)),
    decreases end - p,
{
    let rest = lines.skip(p);
    let between = lines.subrange(p, end);
    if p < end {
        lemma_body_lines(lines, p + 1, end);
        assert(rest[0] == lines[p]);
        assert(between[0] == lines[p]);
        assert(rest.drop_first() =~= lines.skip(p + 1));
        assert(between.drop_first() =~= lines.subrange(p + 1, end));
    } else {
        assert(rest.len() > 0 ==> rest[0] == lines[p]);
        assert(between =~= Seq::<Seq<char>>::empty());
    }
}

/// Whether `at` are the positions of the lines that announce a page, in order.
pub open spec fn marker_lines(lines: Seq<Seq<char>>, at: Seq<int>) -> bool {
    &&& forall|i: int, j: int| 0 <= i < j < at.len() ==> #[trigger] at[i] < #[trigger] at[j]
    &&& forall|i: int|
        0 <= i < at.len() ==> 0 <= #[trigger] at[i] < lines.len() && marked_page(lines[at[i]]) is Some
    &&& forall|k: int|
        0 <= k < lines.len() && marked_page(#[trigger] lines[k]) is Some ==> at.contains(k)
}

/// The note whose marker is the one at `i`.
pub open spec fn note_at(lines: Seq<Seq<char>>, at: Seq<int>, i: int) -> Note {
    Note {
        page: marked_page(lines[at[i]])->0,
        text: trimmed(joined(lines.subrange(at[i] + 1, note_end(lines, at, i)), '\n')),
    }
}

/// The line after the last one of the note whose marker is the one at `i`.
pub open spec fn note_end(lines: Seq<Seq<char>>, at: Seq<int>, i: int) -> int {
    if i + 1 < at.len() {
        at[i + 1]
    } else {
        lines.len() as int
    }
}

proof fn lemma_unmarked_up_to(lines: Seq<Seq<char>>, at: Seq<int>, q: int)
    requires
        marker_lines(lines, at),
        0 <= q < at.len(),
    ensures
        at[q] < note_end(lines, at, q) <= lines.len(),
        forall|k: int|
            at[q] + 1 <= k < note_end(lines, at, q) ==> marked_page(#[trigger] lines[k]) is None,
        note_end(lines, at, q) < lines.len() ==> marked_page(lines[note_end(lines, at, q)]) is Some,
{
    let end = note_end(lines, at, q);
    assert(at[q] < lines.len());
    if q + 1 < at.len() {
        assert(at[q] < at[q + 1]);
        assert(at[q + 1] < lines.len());
    }
    assert forall|k: int| at[q] + 1 <= k < end implies marked_page(#[trigger] lines[k]) is None by {
        if marked_page(lines[k]) is Some {
            assert(at.contains(k));
            let j = choose|j: int| 0 <= j < at.len() && at[j] == k;
            if j < q {
                assert(at[j] < at[q]);
            } else if q + 1 < j {
                assert(at[q + 1] < at[j]);
            }
        }
    }
}

#[verifier::spinoff_prover]
proof fn lemma_notes_from(lines: Seq<Seq<char>>, at: Seq<int>, p: int, q: int)
    requires
        marker_lines(lines, at),
        0 <= p <= lines.len(),
        0 <= q <= at.len(),
        forall|i: int| 0 <= i < q ==> #[trigger] at[i] < p,
        forall|i: int| q <= i < at.len() ==> #[trigger] at[i] >= p,
    ensures
        notes_in_lines(lines.skip(p)).len() == at.len() - q,
        forall|i: int|
            q <= i < at.len() ==> notes_in_lines(lines.skip(p))[i - q] == #[trigger] note_at(
                lines,
                at,
                i,
            ),
    decreases lines.len() - p,
{
    let here = lines.skip(p);
    if p == lines.len() {
        assert(here =~= Seq::<Seq<char>>::empty());
        if q < at.len() {
            assert(at[q] >= p);
        }
    } else {
        assert(here[0] == lines[p]);
        assert(here.drop_first() =~= lines.skip(p + 1));
        if marked_page(lines[p]) is Some {
            assert(at.contains(p));
            let m = choose|m: int| 0 <= m < at.len() && at[m] == p;
            assert(m >= q);
            if q < m {
                assert(at[q] < at[m]);
                assert(at[q] >= p);
            }
            assert(at[q] == p);
            assert forall|i: int| q + 1 <= i < at.len() implies #[trigger] at[i] >= p + 1 by {
                assert(at[q] < at[i]);
            }
            lemma_notes_from(lines, at, p + 1, q + 1);
            let end = note_end(lines, at, q);
            lemma_unmarked_up_to(lines, at, q);
            lemma_body_up_to(lines, p + 1, end);
            let rest = notes_in_lines(lines.skip(p + 1));
            let all = notes_in_lines(here);
            assert(all.len() == rest.len() + 1);
            assert(all[0] == note_at(lines, at, q));
            assert forall|i: int| q <= i < at.len() implies all[i - q] == #[trigger] note_at(
                lines,
                at,
                i,
            ) by {
                if i > q {
                    assert(all[i - q] == rest[i - (q + 1)]);
                }
            }
        } else {
            assert forall|i: int| q <= i < at.len() implies #[trigger] at[i] >= p + 1 by {
                assert(marked_page(lines[at[i]]) is Some);
            }
            lemma_notes_from(lines, at, p + 1, q);
        }
    }
}

proof fn lemma_joined_without(lines: Seq<Seq<char>>, c: char)
    requires
        c != '\n',
        forall|i: int| 0 <= i < lines.len() ==> !(#[trigger] lines[i]).contains(c),
    ensures
        !joined(lines, '\n').contains(c),
    decreases lines.len(),
{
    if lines.len() > 0 {
        let last = lines[lines.len() - 1];
        assert(!last.contains(c));
        if lines.len() > 1 {
            let init = lines.drop_last();
            assert forall|i: int| 0 <= i < init.len() implies !(#[trigger] init[i]).contains(c) by {
                assert(init[i] == lines[i]);
            }
            lemma_joined_without(init, c);
            let a = joined(init, '\n').push('\n');
            let all = joined(lines, '\n');
            assert forall|i: int| 0 <= i < all.len() implies all[i] != c by {
                if i < a.len() - 1 {
                    assert(all[i] == joined(init, '\n')[i]);
                } else if i >= a.len() {
                    assert(all[i] == last[i - a.len()]);
                }
            }
        }
    }
}

/// A script of any number of lines has one note for each line that announces a page, in
/// order: for that page, with the lines up to the next such line or the end as its text,
/// trimmed. The lines before the first such line belong to none.
///
/// One byte-order mark before the first line is dropped.
pub proof fn law_notes_are_the_lines_after_their_markers(
    lines: Seq<Seq<char>>,
    at: Seq<int>,
    script: Seq<char>,
)
    requires
        lines.len() > 0,
        forall|i: int| 0 <= i < lines.len() ==> !(#[trigger] lines[i]).contains('\n'),
        forall|i: int| 0 <= i < lines.len() ==> !(#[trigger] lines[i]).contains('\r'),
        marker_lines(lines, at),
        script == seq!['\u{FEFF}'] + joined(lines, '\n') || script == joined(lines, '\n') && (
        lines[0].len() > 0 ==> lines[0][0] != '\u{FEFF}'),
    ensures
        script_notes(script).len() == at.len(),
        forall|i: int|
            0 <= i < at.len() ==> script_notes(script)[i] == (Note {
                page: marked_page(lines[#[trigger] at[i]])->0,
                text: trimmed(joined(lines.subrange(at[i] + 1, note_end(lines, at, i)), '\n')),
            }),
{
    let s = joined(lines, '\n');
    lemma_joined_without(lines, '\r');
    lemma_joined_start(lines);
    assert((seq!['\u{FEFF}'] + s).drop_first() =~= s);
    assert(without_bom(script) == s);
    lemma_normalized_without_cr(s);
    crate::text::law_joined_pieces_split_again(lines, '\n');
    assert(lines.skip(0) =~= lines);
    lemma_notes_from(lines, at, 0, 0);
    assert forall|i: int| 0 <= i < at.len() implies script_notes(script)[i] == (Note {
        page: marked_page(lines[#[trigger] at[i]])->0,
        text: trimmed(joined(lines.subrange(at[i] + 1, note_end(lines, at, i)), '\n')),
    }) by {
        assert(note_at(lines, at, i) == script_notes(script)[i - 0]);
    }
}

proof fn lemma_joined_start(lines: Seq<Seq<char>>)
    requires
        lines.len() > 0,
    ensures
        lines[0].len() > 0 ==> joined(lines, '\n').len() > 0 && joined(lines, '\n')[0] == lines[0][0],
        lines[0].len() == 0 && joined(lines, '\n').len() > 0 ==> joined(lines, '\n')[0] == '\n',
        lines.len() > 1 ==> joined(lines, '\n').len() > 0,
    decreases lines.len(),
{
    if lines.len() > 1 {
        lemma_joined_start(lines.drop_last());
        assert(lines.drop_last()[0] == lines[0]);
    }
}

/// In a script each line end, be it `\r\n` or `\r`, counts as one `\n`, wherever it stands.
pub proof fn law_line_ends_are_newlines(a: Seq<char>, b: Seq<char>)
    requires
        a.len() > 0 ==> a.last() != '\r',
        b.len() > 0 ==> b[0] != '\n',
    ensures
        newlines_normalized(a + seq!['\r', '\n'] + b) == newlines_normalized(a).push('\n')
            + newlines_normalized(b),
        newlines_normalized(a + seq!['\r'] + b) == newlines_normalized(a).push('\n')
            + newlines_normalized(b),
        newlines_normalized(a + seq!['\n'] + b) == newlines_normalized(a).push('\n')
            + newlines_normalized(b),
    decreases b.len(),
{
    let x = a + seq!['\r', '\n'] + b;
    let y = a + seq!['\r'] + b;
    let z = a + seq!['\n'] + b;
    if b.len() == 0 {
        let c = a.push('\r');
        assert(c.drop_last() =~= a);
        assert(x.drop_last() =~= c);
        assert(y =~= c);
        assert(z.drop_last() =~= a);
        assert(newlines_normalized(b) =~= Seq::<char>::empty());
        assert(newlines_normalized(c) == newlines_normalized(a).push('\n'));
        assert(newlines_normalized(a).push('\n') + newlines_normalized(b) =~= newlines_normalized(
            a,
        ).push('\n'));
    } else {
        let init = b.drop_last();
        law_line_ends_are_newlines(a, init);
        assert(x.drop_last() =~= a + seq!['\r', '\n'] + init);
        assert(y.drop_last() =~= a + seq!['\r'] + init);
        assert(z.drop_last() =~= a + seq!['\n'] + init);
        assert(b.len() >= 2 ==> x[x.len() - 2] == b[b.len() - 2] && y[y.len() - 2] == b[b.len() - 2]
            && z[z.len() - 2] == b[b.len() - 2]);
        let n = newlines_normalized(a).push('\n');
        assert(newlines_normalized(x) =~= n + newlines_normalized(b));
        assert(newlines_normalized(y) =~= n + newlines_normalized(b));
        assert(newlines_normalized(z) =~= n + newlines_normalized(b));
    }
}

/// A script without carriage returns has the line ends it has.
pub proof fn law_other_characters_are_kept(s: Seq<char>)
    requires
        !s.contains('\r'),
    ensures
        newlines_normalized(s) == s,
{
    lemma_normalized_without_cr(s);
}

} // verus!
