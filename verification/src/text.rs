//! Text as sequences of characters: trimming, splitting, searching and decimal numbers.

use vstd::prelude::*;
use vstd::slice::slice_subrange;

verus! {

/// `String::push` appends one character.
pub assume_specification[ String::push ](s: &mut String, c: char)
    ensures
        final(s)@ == old(s)@.push(c),
;

/// What `String::from_utf8_lossy` makes of bytes that may not be UTF-8.
pub uninterp spec fn utf8_lossy(bytes: Seq<u8>) -> Seq<char>;

/// `String::from_utf8_lossy`: a function of the bytes alone, which decodes
/// valid UTF-8 exactly. How invalid bytes are replaced is left to the name.
#[verifier::external_body]
pub(crate) fn from_utf8_lossy(bytes: &[u8]) -> (r: String)
    ensures
        r@ == utf8_lossy(bytes@),
        vstd::utf8::valid_utf8(bytes@) ==> r@ == vstd::utf8::decode_utf8(bytes@),
{
    String::from_utf8_lossy(bytes).into_owned()
}

/// Whether bytes are decoded as the text they are, should they be UTF-8.
pub open spec fn decoded(bytes: Seq<u8>) -> bool {
    vstd::utf8::valid_utf8(bytes) ==> utf8_lossy(bytes) == vstd::utf8::decode_utf8(bytes)
}

/// The characters of a string.
pub fn chars_of(s: &str) -> (r: Vec<char>)
    ensures
        r@ == s@,
{
    let mut v: Vec<char> = Vec::new();
    for c in it: s.chars()
        invariant
            it.seq() == s@,
            v@ == s@.take(it.index() as int),
    {
        v.push(c);
        assert(s@.take(it.index() + 1) == s@.take(it.index() as int).push(s@[it.index() as int]));
    }
    assert(s@.take(s@.len() as int) == s@);
    v
}

/// The string made of the given characters.
pub fn text_of(chars: &[char]) -> (r: String)
    ensures
        r@ == chars@,
{
    let mut s = String::new();
    let mut i: usize = 0;
    while i < chars.len()
        invariant
            i <= chars@.len(),
            s@ == chars@.take(i as int),
        decreases chars@.len() - i,
    {
        s.push(chars[i]);
        assert(chars@.take(i + 1) == chars@.take(i as int).push(chars@[i as int]));
        i = i + 1;
    }
    assert(chars@.take(i as int) == chars@);
    s
}

/// Whether two character slices hold the same text.
pub fn same_chars(a: &[char], b: &[char]) -> (r: bool)
    ensures
        r == (a@ == b@),
{
    if a.len() != b.len() {
        return false;
    }
    let mut i: usize = 0;
    while i < a.len()
        invariant
            i <= a@.len(),
            a@.len() == b@.len(),
            forall|k: int| 0 <= k < i ==> a@[k] == b@[k],
        decreases a@.len() - i,
    {
        if a[i] != b[i] {
            return false;
        }
        i = i + 1;
    }
    assert(a@ == b@);
    true
}

/// Whether two byte slices are equal.
pub fn same_bytes(a: &[u8], b: &[u8]) -> (r: bool)
    ensures
        r == (a@ == b@),
{
    if a.len() != b.len() {
        return false;
    }
    let mut i: usize = 0;
    while i < a.len()
        invariant
            i <= a@.len(),
            a@.len() == b@.len(),
            forall|k: int| 0 <= k < i ==> a@[k] == b@[k],
        decreases a@.len() - i,
    {
        if a[i] != b[i] {
            return false;
        }
        i = i + 1;
    }
    assert(a@ == b@);
    true
}

/// A copy of the given bytes.
pub fn copy_bytes(bytes: &[u8]) -> (r: Vec<u8>)
    ensures
        r@ == bytes@,
{
    let mut v: Vec<u8> = Vec::new();
    let mut i: usize = 0;
    while i < bytes.len()
        invariant
            i <= bytes@.len(),
            v@ == bytes@.take(i as int),
        decreases bytes@.len() - i,
    {
        v.push(bytes[i]);
        assert(bytes@.take(i + 1) == bytes@.take(i as int).push(bytes@[i as int]));
        i = i + 1;
    }
    assert(bytes@.take(i as int) == bytes@);
    v
}

/// The UTF-8 form of a text.
pub open spec fn utf8(s: Seq<char>) -> Seq<u8> {
    vstd::utf8::encode_utf8(s)
}

/// The UTF-8 bytes of a string.
pub fn utf8_bytes(s: &str) -> (r: Vec<u8>)
    ensures
        r@ == utf8(s@),
{
    copy_bytes(s.as_bytes())
}

/// What a list of strings says.
pub open spec fn strings(v: Seq<String>) -> Seq<Seq<char>> {
    v.map_values(|s: String| s@)
}

/// Whether a name is in a list of names.
pub fn contains_name(names: &Vec<String>, name: &str) -> (r: bool)
    ensures
        r == strings(names@).contains(name@),
{
    let chars = chars_of(name);
    let mut i: usize = 0;
    while i < names.len()
        invariant
            i <= names@.len(),
            chars@ == name@,
            forall|k: int| 0 <= k < i ==> strings(names@)[k] != name@,
        decreases names@.len() - i,
    {
        if same_chars(chars_of(names[i].as_str()).as_slice(), chars.as_slice()) {
            assert(strings(names@)[i as int] == name@);
            return true;
        }
        i = i + 1;
    }
    false
}

/// What bytes or an error message say.
pub open spec fn outcome(r: Result<Vec<u8>, String>) -> Result<Seq<u8>, Seq<char>> {
    match r {
        Ok(b) => Ok(b@),
        Err(m) => Err(m@),
    }
}

/// Appends `more` to `out`.
pub fn extend_bytes(out: &mut Vec<u8>, more: &[u8])
    ensures
        final(out)@ == old(out)@ + more@,
{
    let ghost start = out@;
    let mut i: usize = 0;
    assert(start + more@.take(0) == start);
    while i < more.len()
        invariant
            i <= more@.len(),
            out@ == start + more@.take(i as int),
        decreases more@.len() - i,
    {
        out.push(more[i]);
        assert(more@.take(i + 1) == more@.take(i as int).push(more@[i as int]));
        assert(out@ == start + more@.take(i + 1));
        i = i + 1;
    }
    assert(more@.take(i as int) == more@);
}

// ---- white space ----

/// The characters with the Unicode property `White_Space`.
pub open spec fn white_space(c: char) -> bool {
    ||| '\u{9}' <= c <= '\u{d}'
    ||| c == ' '
    ||| c == '\u{85}'
    ||| c == '\u{a0}'
    ||| c == '\u{1680}'
    ||| '\u{2000}' <= c <= '\u{200a}'
    ||| c == '\u{2028}'
    ||| c == '\u{2029}'
    ||| c == '\u{202f}'
    ||| c == '\u{205f}'
    ||| c == '\u{3000}'
}

pub fn is_white_space(c: char) -> (r: bool)
    ensures
        r == white_space(c),
{
    ('\u{9}' <= c && c <= '\u{d}') || c == ' ' || c == '\u{85}' || c == '\u{a0}' || c == '\u{1680}'
        || ('\u{2000}' <= c && c <= '\u{200a}') || c == '\u{2028}' || c == '\u{2029}' || c
        == '\u{202f}' || c == '\u{205f}' || c == '\u{3000}'
}

pub open spec fn trim_start(s: Seq<char>) -> Seq<char>
    decreases s.len(),
{
    if s.len() > 0 && white_space(s[0]) {
        trim_start(s.drop_first())
    } else {
        s
    }
}

pub open spec fn trim_end(s: Seq<char>) -> Seq<char>
    decreases s.len(),
{
    if s.len() > 0 && white_space(s.last()) {
        trim_end(s.drop_last())
    } else {
        s
    }
}

/// `s` without the white space at either end.
pub open spec fn trimmed(s: Seq<char>) -> Seq<char> {
    trim_end(trim_start(s))
}

pub fn trim(s: &[char]) -> (r: &[char])
    ensures
        r@ == trimmed(s@),
{
    let mut i: usize = 0;
    assert(s@.skip(0) == s@);
    while i < s.len() && is_white_space(s[i])
        invariant
            i <= s@.len(),
            trim_start(s@) == trim_start(s@.skip(i as int)),
        decreases s@.len() - i,
    {
        assert(s@.skip(i as int).drop_first() == s@.skip(i + 1));
        i = i + 1;
    }
    let mut j: usize = s.len();
    let ghost t = s@.skip(i as int);
    assert(t == trim_start(s@));
    assert(s@.subrange(i as int, j as int) == t);
    while i < j && is_white_space(s[j - 1])
        invariant
            i <= j <= s@.len(),
            trim_end(t) == trim_end(s@.subrange(i as int, j as int)),
        decreases j - i,
    {
        assert(s@.subrange(i as int, j as int).drop_last() == s@.subrange(i as int, j - 1));
        j = j - 1;
    }
    slice_subrange(s, i, j)
}

/// White space is the tab, the line ends and the other controls up to the carriage return,
/// the space, and the nineteen further characters that Unicode lists.
pub proof fn law_white_space_is_what_unicode_lists(c: char)
    ensures
        white_space(c) <==> {
            let n = c as u32;
            ||| n == 9 || n == 10 || n == 11 || n == 12 || n == 13 || n == 32 || n == 133
            ||| n == 160 || n == 5760 || n == 8232 || n == 8233 || n == 8239 || n == 8287
            ||| 8192 <= n <= 8202 || n == 12288
        },
{
}

/// Whether every character is white space.
pub open spec fn blank(s: Seq<char>) -> bool {
    forall|i: int| 0 <= i < s.len() ==> white_space(#[trigger] s[i])
}

proof fn lemma_trim_start_blank(a: Seq<char>, s: Seq<char>)
    requires
        blank(a),
    ensures
        trim_start(a + s) == trim_start(s),
    decreases a.len(),
{
    if a.len() == 0 {
        assert(a + s =~= s);
    } else {
        let rest = a.drop_first();
        assert forall|i: int| 0 <= i < rest.len() implies white_space(#[trigger] rest[i]) by {
            assert(rest[i] == a[i + 1]);
        }
        lemma_trim_start_blank(rest, s);
        assert(white_space(a[0]));
        assert((a + s)[0] == a[0]);
        assert((a + s).drop_first() =~= rest + s);
    }
}

proof fn lemma_trim_end_blank(s: Seq<char>, b: Seq<char>)
    requires
        blank(b),
    ensures
        trim_end(s + b) == trim_end(s),
    decreases b.len(),
{
    if b.len() == 0 {
        assert(s + b =~= s);
    } else {
        let rest = b.drop_last();
        assert forall|i: int| 0 <= i < rest.len() implies white_space(#[trigger] rest[i]) by {
            assert(rest[i] == b[i]);
        }
        lemma_trim_end_blank(s, rest);
        assert(white_space(b[b.len() - 1]));
        assert((s + b).drop_last() =~= s + rest);
    }
}

/// White space around a text that neither starts nor ends in white space is all that is
/// trimmed off, however much of it there is.
pub proof fn law_white_space_around_is_trimmed(a: Seq<char>, t: Seq<char>, b: Seq<char>)
    requires
        blank(a),
        blank(b),
        t.len() > 0 ==> !white_space(t[0]) && !white_space(t[t.len() - 1]),
    ensures
        trimmed(a + t + b) == t,
{
    assert(a + t + b =~= a + (t + b));
    lemma_trim_start_blank(a, t + b);
    if t.len() == 0 {
        assert(t + b =~= b);
        lemma_trim_start_blank(b, Seq::<char>::empty());
        assert(b + Seq::<char>::empty() =~= b);
        assert(trim_start(b) == Seq::<char>::empty());
        assert(t =~= Seq::<char>::empty());
    } else {
        assert((t + b)[0] == t[0]);
        assert(trim_start(t + b) == t + b);
        lemma_trim_end_blank(t, b);
        assert(t.last() == t[t.len() - 1]);
    }
}

/// Every text is white space, the trimmed text, and white space, one after another.
pub proof fn law_only_white_space_is_trimmed(s: Seq<char>)
    ensures
        exists|a: Seq<char>, b: Seq<char>|
            blank(a) && blank(b) && s == #[trigger] (a + trimmed(s) + b),
        trimmed(s).len() > 0 ==> !white_space(trimmed(s)[0]) && !white_space(
            trimmed(s)[trimmed(s).len() - 1],
        ),
        trimmed(s).len() == 0 <==> blank(s),
{
    lemma_trim_start_parts(s);
    let t = trim_start(s);
    lemma_trim_end_parts(t);
    let a = s.take(s.len() - t.len());
    let b = t.skip(trim_end(t).len() as int);
    assert(s =~= a + trimmed(s) + b);
    if blank(s) {
        assert(s =~= s + Seq::<char>::empty());
        lemma_trim_start_blank(s, Seq::<char>::empty());
    }
    if trimmed(s).len() == 0 {
        assert forall|i: int| 0 <= i < s.len() implies white_space(#[trigger] s[i]) by {
            if i < a.len() {
                assert(a[i] == s[i]);
            } else {
                assert(b[i - a.len()] == s[i]);
            }
        }
    }
}

proof fn lemma_trim_start_parts(s: Seq<char>)
    ensures
        trim_start(s).len() <= s.len(),
        s.skip(s.len() - trim_start(s).len()) == trim_start(s),
        blank(s.take(s.len() - trim_start(s).len())),
        trim_start(s).len() > 0 ==> !white_space(trim_start(s)[0]),
    decreases s.len(),
{
    let t = trim_start(s);
    if s.len() > 0 && white_space(s[0]) {
        let rest = s.drop_first();
        lemma_trim_start_parts(rest);
        let n = s.len() - t.len();
        assert(s.skip(n) =~= rest.skip(n - 1));
        assert forall|i: int| 0 <= i < n implies white_space(#[trigger] s.take(n)[i]) by {
            if i > 0 {
                assert(s.take(n)[i] == rest.take(n - 1)[i - 1]);
            }
        }
    } else {
        assert(s.skip(0) =~= s);
    }
}

proof fn lemma_trim_end_parts(s: Seq<char>)
    ensures
        trim_end(s).len() <= s.len(),
        s.take(trim_end(s).len() as int) == trim_end(s),
        blank(s.skip(trim_end(s).len() as int)),
        trim_end(s).len() > 0 ==> !white_space(trim_end(s)[trim_end(s).len() - 1]) && trim_end(s)[0]
            == s[0],
    decreases s.len(),
{
    let t = trim_end(s);
    if s.len() > 0 && white_space(s.last()) {
        let rest = s.drop_last();
        lemma_trim_end_parts(rest);
        let n = t.len() as int;
        assert(s.take(n) =~= rest.take(n));
        assert forall|i: int| 0 <= i < s.skip(n).len() implies white_space(#[trigger] s.skip(n)[i]) by {
            if i < rest.skip(n).len() {
                assert(s.skip(n)[i] == rest.skip(n)[i]);
            }
        }
    } else {
        assert(s.take(s.len() as int) =~= s);
    }
}

// ---- splitting and joining ----

/// The pieces of `s` between occurrences of `sep`; always at least one.
pub open spec fn split(s: Seq<char>, sep: char) -> Seq<Seq<char>>
    decreases s.len(),
{
    if s.len() == 0 {
        seq![Seq::<char>::empty()]
    } else {
        let init = split(s.drop_last(), sep);
        if s.last() == sep {
            init.push(Seq::<char>::empty())
        } else {
            init.drop_last().push(init.last().push(s.last()))
        }
    }
}

/// The texts of a list of character vectors.
pub open spec fn texts(v: Seq<Vec<char>>) -> Seq<Seq<char>> {
    v.map_values(|x: Vec<char>| x@)
}

pub proof fn lemma_texts_push(v: Seq<Vec<char>>, x: Vec<char>)
    ensures
        texts(v.push(x)) == texts(v).push(x@),
{
    assert(texts(v.push(x)) =~= texts(v).push(x@));
}

pub proof fn lemma_split_nonempty(s: Seq<char>, sep: char)
    ensures
        split(s, sep).len() >= 1,
    decreases s.len(),
{
    if s.len() > 0 {
        lemma_split_nonempty(s.drop_last(), sep);
    }
}

/// A text with a separator in it splits into what its two halves split into.
pub proof fn lemma_split_at_separator(a: Seq<char>, b: Seq<char>, sep: char)
    ensures
        split(a.push(sep) + b, sep) == split(a, sep) + split(b, sep),
    decreases b.len(),
{
    let whole = a.push(sep) + b;
    lemma_split_nonempty(a, sep);
    lemma_split_nonempty(b, sep);
    if b.len() == 0 {
        assert(whole.drop_last() == a);
        assert(split(whole, sep) =~= split(a, sep) + split(b, sep));
    } else {
        lemma_split_at_separator(a, b.drop_last(), sep);
        lemma_split_nonempty(b.drop_last(), sep);
        assert(whole.drop_last() == a.push(sep) + b.drop_last());
        assert(whole.last() == b.last());
        assert(split(whole, sep) =~= split(a, sep) + split(b, sep));
    }
}

/// A text without a separator is one piece.
pub proof fn lemma_split_without_separator(s: Seq<char>, sep: char)
    requires
        !s.contains(sep),
    ensures
        split(s, sep) == seq![s],
    decreases s.len(),
{
    if s.len() > 0 {
        assert forall|i: int| 0 <= i < s.drop_last().len() implies s.drop_last()[i] != sep by {
            assert(s[i] != sep);
        }
        lemma_split_without_separator(s.drop_last(), sep);
        assert(s.last() != sep);
        assert(s.drop_last().push(s.last()) == s);
        assert(split(s, sep) =~= seq![s]);
    } else {
        assert(s =~= Seq::<char>::empty());
    }
}

pub fn split_at_char(s: &[char], sep: char) -> (r: Vec<Vec<char>>)
    ensures
        texts(r@) == split(s@, sep),
        r@.len() >= 1,
{
    let mut parts: Vec<Vec<char>> = Vec::new();
    let mut current: Vec<char> = Vec::new();
    let mut i: usize = 0;
    assert(texts(parts@).push(current@) =~= split(s@.take(0), sep));
    while i < s.len()
        invariant
            i <= s@.len(),
            texts(parts@).push(current@) == split(s@.take(i as int), sep),
        decreases s@.len() - i,
    {
        let ghost before = texts(parts@);
        let ghost piece = current@;
        assert(s@.take(i + 1).drop_last() == s@.take(i as int));
        assert(before.push(piece).drop_last() == before);
        if s[i] == sep {
            proof {
                lemma_texts_push(parts@, current);
            }
            parts.push(current);
            current = Vec::new();
        } else {
            current.push(s[i]);
        }
        i = i + 1;
    }
    assert(s@.take(i as int) == s@);
    proof {
        lemma_texts_push(parts@, current);
    }
    parts.push(current);
    parts
}

/// The pieces joined with `sep` between neighbours.
pub open spec fn joined(pieces: Seq<Seq<char>>, sep: char) -> Seq<char>
    decreases pieces.len(),
{
    if pieces.len() == 0 {
        Seq::empty()
    } else if pieces.len() == 1 {
        pieces[0]
    } else {
        joined(pieces.drop_last(), sep).push(sep) + pieces.last()
    }
}

/// Appends `more` to `out`.
pub fn extend_chars(out: &mut Vec<char>, more: &[char])
    ensures
        final(out)@ == old(out)@ + more@,
{
    let ghost start = out@;
    let mut i: usize = 0;
    assert(start + more@.take(0) == start);
    while i < more.len()
        invariant
            i <= more@.len(),
            out@ == start + more@.take(i as int),
        decreases more@.len() - i,
    {
        out.push(more[i]);
        assert(more@.take(i + 1) == more@.take(i as int).push(more@[i as int]));
        assert(out@ == start + more@.take(i + 1));
        i = i + 1;
    }
    assert(more@.take(i as int) == more@);
}

pub fn join_with_char(pieces: &Vec<Vec<char>>, sep: char) -> (r: Vec<char>)
    ensures
        r@ == joined(texts(pieces@), sep),
{
    let mut out: Vec<char> = Vec::new();
    let mut i: usize = 0;
    assert(texts(pieces@).take(0) =~= Seq::<Seq<char>>::empty());
    while i < pieces.len()
        invariant
            i <= pieces@.len(),
            out@ == joined(texts(pieces@).take(i as int), sep),
        decreases pieces@.len() - i,
    {
        let ghost all = texts(pieces@);
        assert(all.take(i + 1).drop_last() == all.take(i as int));
        assert(all.take(i + 1).last() == pieces@[i as int]@);
        if i > 0 {
            out.push(sep);
        }
        extend_chars(&mut out, pieces[i].as_slice());
        assert(i == 0 ==> out@ == pieces@[0]@);
        i = i + 1;
    }
    assert(texts(pieces@).take(i as int) == texts(pieces@));
    out
}

/// The pieces of a text hold no separator, there is one more of them than separators, and
/// joined they are the text.
pub proof fn law_pieces_join_to_the_text(s: Seq<char>, sep: char)
    ensures
        joined(split(s, sep), sep) == s,
        split(s, sep).len() == s.filter(|c: char| c == sep).len() + 1,
        forall|i: int| 0 <= i < split(s, sep).len() ==> !(#[trigger] split(s, sep)[i]).contains(sep),
    decreases s.len(),
{
    reveal(Seq::filter);
    let all = split(s, sep);
    if s.len() == 0 {
        assert(s =~= Seq::<char>::empty());
    } else {
        let short = s.drop_last();
        let init = split(short, sep);
        law_pieces_join_to_the_text(short, sep);
        lemma_split_nonempty(short, sep);
        assert(init[init.len() - 1] == init.last());
        if s.last() == sep {
            assert(all.drop_last() =~= init);
            assert(joined(all, sep) =~= short.push(sep));
            assert forall|i: int| 0 <= i < all.len() implies !(#[trigger] all[i]).contains(sep) by {
                if i < init.len() {
                    assert(all[i] == init[i]);
                }
            }
        } else {
            assert(all.drop_last() =~= init.drop_last());
            assert(joined(all, sep) =~= short.push(s.last()));
            assert forall|i: int| 0 <= i < all.len() implies !(#[trigger] all[i]).contains(sep) by {
                if i < init.len() - 1 {
                    assert(all[i] == init[i]);
                } else {
                    assert(all[i] == init.last().push(s.last()));
                    assert forall|k: int| 0 <= k < all[i].len() implies all[i][k] != sep by {
                        if k < init.last().len() {
                            assert(init.last().contains(init.last()[k]));
                        }
                    }
                }
            }
        }
        assert(short.push(s.last()) =~= s);
    }
}

/// Pieces without a separator in them, once joined, split into the same pieces.
pub proof fn law_joined_pieces_split_again(pieces: Seq<Seq<char>>, sep: char)
    requires
        pieces.len() > 0,
        forall|i: int| 0 <= i < pieces.len() ==> !(#[trigger] pieces[i]).contains(sep),
    ensures
        split(joined(pieces, sep), sep) == pieces,
    decreases pieces.len(),
{
    let last = pieces[pieces.len() - 1];
    assert(!last.contains(sep));
    lemma_split_without_separator(last, sep);
    if pieces.len() == 1 {
        assert(seq![last] =~= pieces);
    } else {
        let init = pieces.drop_last();
        assert forall|i: int| 0 <= i < init.len() implies !(#[trigger] init[i]).contains(sep) by {
            assert(init[i] == pieces[i]);
        }
        law_joined_pieces_split_again(init, sep);
        lemma_split_at_separator(joined(init, sep), last, sep);
        assert(init + seq![last] =~= pieces);
    }
}

// ---- prefixes, suffixes and searching ----

pub open spec fn has_prefix(s: Seq<char>, prefix: Seq<char>) -> bool {
    prefix.len() <= s.len() && s.take(prefix.len() as int) == prefix
}

pub open spec fn has_suffix(s: Seq<char>, suffix: Seq<char>) -> bool {
    suffix.len() <= s.len() && s.skip(s.len() - suffix.len()) == suffix
}

pub fn starts_with(s: &[char], prefix: &[char]) -> (r: bool)
    ensures
        r == has_prefix(s@, prefix@),
{
    if prefix.len() > s.len() {
        false
    } else {
        same_chars(slice_subrange(s, 0, prefix.len()), prefix)
    }
}

pub fn ends_with(s: &[char], suffix: &[char]) -> (r: bool)
    ensures
        r == has_suffix(s@, suffix@),
{
    if suffix.len() > s.len() {
        false
    } else {
        same_chars(slice_subrange(s, s.len() - suffix.len(), s.len()), suffix)
    }
}

/// The least index at or after `from` at which `pattern` occurs in `s`.
pub open spec fn find_from(s: Seq<char>, pattern: Seq<char>, from: int) -> Option<int>
    decreases s.len() + 1 - from,
{
    if from < 0 || from + pattern.len() > s.len() {
        None
    } else if s.subrange(from, from + pattern.len()) == pattern {
        Some(from)
    } else {
        find_from(s, pattern, from + 1)
    }
}

/// The least index at which `pattern` occurs in `s`.
pub open spec fn find(s: Seq<char>, pattern: Seq<char>) -> Option<int> {
    find_from(s, pattern, 0)
}

/// `s` with the first occurrence of `pattern`, where there is one, replaced by `to`.
pub open spec fn replaced_first(s: Seq<char>, pattern: Seq<char>, to: Seq<char>) -> Seq<char> {
    match find(s, pattern) {
        Some(i) => s.take(i) + to + s.skip(i + pattern.len()),
        None => s,
    }
}

pub fn find_text(s: &[char], pattern: &[char]) -> (r: Option<usize>)
    ensures
        match r {
            Some(i) => find(s@, pattern@) == Some(i as int) && i + pattern@.len() <= s@.len()
                <= usize::MAX,
            None => find(s@, pattern@) is None,
        },
{
    if pattern.len() > s.len() {
        return None;
    }
    let last: usize = s.len() - pattern.len();
    let mut i: usize = 0;
    assert(s@.len() == s.len());
    loop
        invariant
            i <= last,
            last + pattern@.len() == s@.len(),
            s@.len() <= usize::MAX,
            find(s@, pattern@) == find_from(s@, pattern@, i as int),
        decreases last - i,
    {
        if same_chars(slice_subrange(s, i, i + pattern.len()), pattern) {
            return Some(i);
        }
        if i == last {
            assert(find_from(s@, pattern@, i + 1) is None);
            return None;
        }
        i = i + 1;
    }
}

pub fn replace_first(s: &[char], pattern: &[char], to: &[char]) -> (r: Vec<char>)
    ensures
        r@ == replaced_first(s@, pattern@, to@),
{
    let mut out: Vec<char> = Vec::new();
    match find_text(s, pattern) {
        Some(i) => {
            extend_chars(&mut out, slice_subrange(s, 0, i));
            extend_chars(&mut out, to);
            extend_chars(&mut out, slice_subrange(s, i + pattern.len(), s.len()));
            assert(out@ == replaced_first(s@, pattern@, to@));
        },
        None => {
            extend_chars(&mut out, s);
            assert(out@ == s@);
        },
    }
    out
}

/// Whether `pattern` stands in `s` from `i` on, character by character.
pub open spec fn occurs_at(s: Seq<char>, pattern: Seq<char>, i: int) -> bool {
    &&& 0 <= i
    &&& i + pattern.len() <= s.len()
    &&& forall|k: int| 0 <= k < pattern.len() ==> s[i + k] == #[trigger] pattern[k]
}

proof fn lemma_occurs(s: Seq<char>, pattern: Seq<char>, i: int)
    requires
        0 <= i,
        i + pattern.len() <= s.len(),
    ensures
        occurs_at(s, pattern, i) == (s.subrange(i, i + pattern.len()) == pattern),
{
    let part = s.subrange(i, i + pattern.len());
    if occurs_at(s, pattern, i) {
        assert(part =~= pattern);
    }
    if part == pattern {
        assert forall|k: int| 0 <= k < pattern.len() implies s[i + k] == #[trigger] pattern[k] by {
            assert(part[k] == s[i + k]);
        }
    }
}

proof fn lemma_find_from(s: Seq<char>, pattern: Seq<char>, from: int)
    requires
        0 <= from,
    ensures
        match find_from(s, pattern, from) {
            Some(i) => from <= i && occurs_at(s, pattern, i) && forall|k: int|
                from <= k < i ==> !#[trigger] occurs_at(s, pattern, k),
            None => forall|k: int| from <= k ==> !#[trigger] occurs_at(s, pattern, k),
        },
    decreases s.len() + 1 - from,
{
    if from + pattern.len() <= s.len() {
        lemma_occurs(s, pattern, from);
        if !occurs_at(s, pattern, from) {
            lemma_find_from(s, pattern, from + 1);
        }
    }
}

/// What is found is the first place at which the pattern stands, wherever that is; nothing
/// is found only where it stands nowhere.
pub proof fn law_first_occurrence_is_found(s: Seq<char>, pattern: Seq<char>)
    ensures
        match find(s, pattern) {
            Some(i) => occurs_at(s, pattern, i) && forall|k: int|
                k < i ==> !#[trigger] occurs_at(s, pattern, k),
            None => forall|k: int| !#[trigger] occurs_at(s, pattern, k),
        },
{
    lemma_find_from(s, pattern, 0);
}

/// A text that holds a pattern gets the replacement in place of its first occurrence and is
/// the same before and after it; one that does not hold it stays as it is.
pub proof fn law_first_occurrence_is_replaced(
    a: Seq<char>,
    b: Seq<char>,
    pattern: Seq<char>,
    to: Seq<char>,
)
    ensures
        (forall|k: int| k < a.len() ==> !#[trigger] occurs_at(a + pattern + b, pattern, k))
            ==> replaced_first(a + pattern + b, pattern, to) == a + to + b,
        (forall|k: int| !#[trigger] occurs_at(a, pattern, k)) ==> replaced_first(a, pattern, to)
            == a,
{
    let s = a + pattern + b;
    law_first_occurrence_is_found(s, pattern);
    law_first_occurrence_is_found(a, pattern);
    if forall|k: int| k < a.len() ==> !#[trigger] occurs_at(s, pattern, k) {
        let n = a.len() as int;
        assert forall|k: int| 0 <= k < pattern.len() implies s[n + k] == #[trigger] pattern[k] by {}
        assert(occurs_at(s, pattern, n));
        assert(find(s, pattern) == Some(n));
        assert(s.take(n) =~= a);
        assert(s.skip(n + pattern.len()) =~= b);
    }
}

/// A text starts with a prefix, or ends with a suffix, where it is made of it and some rest.
pub proof fn law_prefix_and_suffix(s: Seq<char>, rest: Seq<char>, p: Seq<char>)
    ensures
        has_prefix(p + rest, p),
        has_suffix(rest + p, p),
        has_prefix(s, p) ==> s == p + s.skip(p.len() as int),
        has_suffix(s, p) ==> s == s.take(s.len() - p.len()) + p,
{
    assert((p + rest).take(p.len() as int) =~= p);
    assert((rest + p).skip((rest + p).len() - p.len()) =~= p);
    if has_prefix(s, p) {
        assert(s =~= s.take(p.len() as int) + s.skip(p.len() as int));
    }
    if has_suffix(s, p) {
        assert(s =~= s.take(s.len() - p.len()) + s.skip(s.len() - p.len()));
    }
}

// ---- decimal numbers ----

pub open spec fn digit_char(d: nat) -> char {
    ((d + 48) as u8) as char
}

/// The decimal form of `n`, without leading zeros.
pub open spec fn decimal(n: nat) -> Seq<char>
    decreases n,
{
    if n < 10 {
        seq![digit_char(n)]
    } else {
        decimal(n / 10).push(digit_char(n % 10))
    }
}

pub open spec fn is_digit(c: char) -> bool {
    '0' <= c <= '9'
}

pub open spec fn all_digits(s: Seq<char>) -> bool {
    forall|i: int| 0 <= i < s.len() ==> is_digit(#[trigger] s[i])
}

/// The number that a run of decimal digits denotes.
pub open spec fn digits_value(s: Seq<char>) -> nat
    decreases s.len(),
{
    if s.len() == 0 {
        0
    } else {
        digits_value(s.drop_last()) * 10 + (s.last() as nat - '0' as nat) as nat
    }
}

/// The number that a non-empty run of decimal digits denotes, if it fits in 32 bits.
pub open spec fn digits_u32(s: Seq<char>) -> Option<u32> {
    if s.len() > 0 && all_digits(s) && digits_value(s) <= u32::MAX {
        Some(digits_value(s) as u32)
    } else {
        None
    }
}

/// An optional plus sign and decimal digits, read as a 32-bit number.
pub open spec fn number_u32(s: Seq<char>) -> Option<u32> {
    if s.len() > 0 && s[0] == '+' {
        digits_u32(s.drop_first())
    } else {
        digits_u32(s)
    }
}

proof fn lemma_digits_value_grows(s: Seq<char>, i: int)
    requires
        0 <= i <= s.len(),
    ensures
        digits_value(s.take(i)) <= digits_value(s),
    decreases s.len() - i,
{
    if i < s.len() {
        lemma_digits_value_grows(s, i + 1);
        assert(s.take(i + 1).drop_last() == s.take(i));
    } else {
        assert(s.take(i) == s);
    }
}

pub fn parse_digits(s: &[char]) -> (r: Option<u32>)
    ensures
        r == digits_u32(s@),
{
    if s.len() == 0 {
        return None;
    }
    let mut value: u64 = 0;
    let mut i: usize = 0;
    while i < s.len()
        invariant
            i <= s@.len(),
            value == digits_value(s@.take(i as int)),
            value <= u32::MAX,
            forall|k: int| 0 <= k < i ==> is_digit(#[trigger] s@[k]),
        decreases s@.len() - i,
    {
        let c = s[i];
        if !('0' <= c && c <= '9') {
            assert(!is_digit(s@[i as int]));
            return None;
        }
        assert(s@.take(i + 1).drop_last() == s@.take(i as int));
        value = value * 10 + ((c as u32) - ('0' as u32)) as u64;
        if value > u32::MAX as u64 {
            proof {
                lemma_digits_value_grows(s@, i + 1);
            }
            return None;
        }
        i = i + 1;
    }
    assert(s@.take(i as int) == s@);
    Some(value as u32)
}

pub fn parse_u32(s: &[char]) -> (r: Option<u32>)
    ensures
        r == number_u32(s@),
{
    if s.len() > 0 && s[0] == '+' {
        assert(s@.subrange(1, s@.len() as int) == s@.drop_first());
        parse_digits(slice_subrange(s, 1, s.len()))
    } else {
        parse_digits(s)
    }
}

pub fn decimal_chars(n: u128) -> (r: Vec<char>)
    ensures
        r@ == decimal(n as nat),
    decreases n,
{
    if n < 10 {
        let d: u8 = (n as u8) + 48;
        let mut v: Vec<char> = Vec::new();
        v.push(d as char);
        v
    } else {
        let mut v = decimal_chars(n / 10);
        let d: u8 = ((n % 10) as u8) + 48;
        v.push(d as char);
        v
    }
}

/// The decimal form of a number as a string.
pub fn decimal_text(n: u128) -> (r: String)
    ensures
        r@ == decimal(n as nat),
{
    text_of(decimal_chars(n).as_slice())
}

/// Writing a number in decimal and reading it back gives the number.
pub proof fn law_decimal_reads_back(n: nat)
    ensures
        decimal(n).len() > 0,
        all_digits(decimal(n)),
        digits_value(decimal(n)) == n,
        n <= u32::MAX ==> number_u32(decimal(n)) == Some(n as u32),
    decreases n,
{
    if n >= 10 {
        law_decimal_reads_back(n / 10);
        assert(decimal(n).drop_last() == decimal(n / 10));
        assert(decimal(n).last() as nat == n % 10 + 48);
        assert forall|i: int| 0 <= i < decimal(n).len() implies is_digit(#[trigger] decimal(n)[i]) by {
            if i < decimal(n).len() - 1 {
                assert(decimal(n)[i] == decimal(n / 10)[i]);
            }
        }
    } else {
        assert(decimal(n).drop_last() == Seq::<char>::empty());
        assert(digits_value(Seq::<char>::empty()) == 0);
        assert(decimal(n).last() as nat == n + 48);
    }
    assert(is_digit(decimal(n)[0]));
}

proof fn lemma_digits_zero(s: Seq<char>)
    ensures
        digits_value(seq!['0'] + s) == digits_value(s),
    decreases s.len(),
{
    let z = seq!['0'] + s;
    if s.len() == 0 {
        assert(z.drop_last() =~= Seq::<char>::empty());
        assert(digits_value(Seq::<char>::empty()) == 0);
    } else {
        lemma_digits_zero(s.drop_last());
        assert(z.drop_last() =~= seq!['0'] + s.drop_last());
    }
}

proof fn lemma_digits_end(s: Seq<char>)
    requires
        s.len() > 0,
        all_digits(s),
        s[0] != '0',
    ensures
        decimal(digits_value(s)) == s,
        digits_value(s) > 0,
    decreases s.len(),
{
    let init = s.drop_last();
    assert(is_digit(s[s.len() - 1]));
    let d = (s.last() as nat - '0' as nat) as nat;
    assert(0 <= d < 10);
    assert(digit_char(d) == s.last());
    if s.len() == 1 {
        assert(digits_value(init) == 0);
        assert(s =~= seq![s.last()]);
    } else {
        assert forall|i: int| 0 <= i < init.len() implies is_digit(#[trigger] init[i]) by {
            assert(init[i] == s[i]);
        }
        lemma_digits_end(init);
        let n = digits_value(s);
        assert(n == digits_value(init) * 10 + d);
        assert(n >= 10);
        assert(n / 10 == digits_value(init));
        assert(n % 10 == d);
        assert(init.push(s.last()) =~= s);
    }
}

/// Zeros in front.
pub open spec fn zeros(n: nat) -> Seq<char> {
    Seq::new(n, |i: int| '0')
}

proof fn lemma_zeros(k: nat, s: Seq<char>)
    requires
        all_digits(s),
    ensures
        digits_value(zeros(k) + s) == digits_value(s),
        all_digits(zeros(k) + s),
    decreases k,
{
    let z = zeros(k) + s;
    assert forall|i: int| 0 <= i < z.len() implies is_digit(#[trigger] z[i]) by {
        if i >= k {
            assert(z[i] == s[i - k]);
        }
    }
    if k == 0 {
        assert(z =~= s);
    } else {
        let less = zeros((k - 1) as nat) + s;
        lemma_zeros((k - 1) as nat, s);
        assert(z =~= seq!['0'] + less);
        lemma_digits_zero(less);
    }
}

proof fn lemma_digits_are_zeros_and_decimal(s: Seq<char>)
    requires
        s.len() > 0,
        all_digits(s),
    ensures
        exists|k: nat| s == #[trigger] zeros(k) + decimal(digits_value(s)),
    decreases s.len(),
{
    if s[0] != '0' {
        lemma_digits_end(s);
        assert(s =~= zeros(0) + decimal(digits_value(s)));
    } else if s.len() == 1 {
        assert(s.drop_last() =~= Seq::<char>::empty());
        assert(digits_value(s.drop_last()) == 0);
        assert(s =~= zeros(0) + decimal(digits_value(s)));
    } else {
        let rest = s.drop_first();
        assert forall|i: int| 0 <= i < rest.len() implies is_digit(#[trigger] rest[i]) by {
            assert(rest[i] == s[i + 1]);
        }
        lemma_digits_are_zeros_and_decimal(rest);
        let k = choose|k: nat| rest == #[trigger] zeros(k) + decimal(digits_value(rest));
        assert(s =~= seq!['0'] + rest);
        lemma_digits_zero(rest);
        assert(s =~= zeros(k + 1) + decimal(digits_value(s)));
    }
}

/// What is read as a number is just its decimal form with any number of zeros in front, as
/// far as it fits in 32 bits, and a plus sign before it changes nothing.
pub proof fn law_number_is_its_decimal_form(s: Seq<char>, n: u32, k: nat)
    ensures
        digits_u32(zeros(k) + decimal(n as nat)) == Some(n),
        digits_u32(s) == Some(n) <==> exists|j: nat| s == #[trigger] zeros(j) + decimal(n as nat),
        number_u32(seq!['+'] + s) == digits_u32(s),
        !has_prefix(s, seq!['+']) ==> number_u32(s) == digits_u32(s),
{
    law_decimal_reads_back(n as nat);
    lemma_zeros(k, decimal(n as nat));
    if digits_u32(s) == Some(n) {
        lemma_digits_are_zeros_and_decimal(s);
    }
    if exists|j: nat| s == #[trigger] zeros(j) + decimal(n as nat) {
        let j = choose|j: nat| s == #[trigger] zeros(j) + decimal(n as nat);
        lemma_zeros(j, decimal(n as nat));
    }
    assert((seq!['+'] + s).drop_first() =~= s);
    if s.len() > 0 && s[0] == '+' {
        assert(s.take(1) =~= seq!['+']);
    }
}

/// Different numbers have different decimal forms.
pub proof fn law_decimal_injective(m: nat, n: nat)
    requires
        decimal(m) == decimal(n),
    ensures
        m == n,
{
    law_decimal_reads_back(m);
    law_decimal_reads_back(n);
}

// ---- UTF-8 ----

pub proof fn lemma_utf8_concat(a: Seq<char>, b: Seq<char>)
    ensures
        utf8(a + b) == utf8(a) + utf8(b),
    decreases a.len(),
{
    if a.len() == 0 {
        assert(a + b =~= b);
        assert(utf8(a + b) =~= utf8(a) + utf8(b));
    } else {
        lemma_utf8_concat(a.drop_first(), b);
        assert((a + b).drop_first() =~= a.drop_first() + b);
        assert(utf8(a + b) =~= utf8(a) + utf8(b));
    }
}

pub proof fn lemma_utf8_injective(a: Seq<char>, b: Seq<char>)
    requires
        utf8(a) == utf8(b),
    ensures
        a == b,
{
    vstd::utf8::encode_utf8_decode_utf8(a);
    vstd::utf8::encode_utf8_decode_utf8(b);
}

/// A text in UTF-8 is decoded as the text.
pub proof fn lemma_decoded_text(s: Seq<char>)
    requires
        decoded(utf8(s)),
    ensures
        utf8_lossy(utf8(s)) == s,
{
    vstd::utf8::encode_utf8_valid_utf8(s);
    vstd::utf8::encode_utf8_decode_utf8(s);
}

} // verus!
