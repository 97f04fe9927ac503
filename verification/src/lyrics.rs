//! Lyric tokenizer: display tokens with their char ranges, and the label-run
//! cleanup used by frame-level note segmentation.

use vstd::prelude::*;
use vstd::string::StringExecFns;
use crate::japanese::mora::{is_kana_char, spec_is_kana_char};
use crate::text::{chars_of, string_of_range};

verus! {

broadcast use vstd::string::group_string_axioms;

/// A display token with the char range of the source text it covers. One
/// display token can cover several chars (きゃ, りー, a hanzi with trailing
/// punctuation).
#[derive(Debug, Clone)]
pub struct SpannedToken {
    pub text: String,
    pub char_start: usize,
    pub char_end: usize,
}

impl View for SpannedToken {
    type V = (Seq<char>, int, int);

    open spec fn view(&self) -> (Seq<char>, int, int) {
        (self.text@, self.char_start as int, self.char_end as int)
    }
}

/// The models of a sequence of tokens.
pub open spec fn tokens_view(v: Seq<SpannedToken>) -> Seq<(Seq<char>, int, int)> {
    v.map_values(|t: SpannedToken| t@)
}

/// Whether `c` is Unicode white space: the White_Space property of the
/// Unicode character database, U+0009..U+000D, U+0020, U+0085, U+00A0,
/// U+1680, U+2000..U+200A, U+2028, U+2029, U+202F, U+205F and U+3000.
pub open spec fn white_space(c: char) -> bool {
    ('\u{9}' <= c && c <= '\u{D}') || c == '\u{20}' || c == '\u{85}' || c == '\u{A0}' || c
        == '\u{1680}' || ('\u{2000}' <= c && c <= '\u{200A}') || c == '\u{2028}' || c
        == '\u{2029}' || c == '\u{202F}' || c == '\u{205F}' || c == '\u{3000}'
}

/// Whether a lyric piece consists only of chars that are neither word chars
/// (`\w` of the regex crate) nor CJK ideographs (U+4E00..U+9FFF) nor kana.
pub uninterp spec fn non_word_piece(piece: Seq<char>) -> bool;

/// Whether `c` has the Unicode White_Space property: what std's
/// `char::is_whitespace` (and so `str::trim`) tests.
pub(crate) fn is_white_space(c: char) -> (r: bool)
    ensures
        r == white_space(c),
{
    ('\u{9}' <= c && c <= '\u{D}') || c == '\u{20}' || c == '\u{85}' || c == '\u{A0}' || c
        == '\u{1680}' || ('\u{2000}' <= c && c <= '\u{200A}') || c == '\u{2028}' || c
        == '\u{2029}' || c == '\u{202F}' || c == '\u{205F}' || c == '\u{3000}'
}

/// `Regex::is_match` of the regex crate with the pattern `^\s$` on the one
/// char `c`: `\s` is the White_Space property (the tokenizer's pieces are
/// `[^\s]` chars). The pattern is a valid constant, so compiling it does not
/// fail.
#[verifier::external_body]
fn is_pattern_space(c: char) -> (r: bool)
    ensures
        r == white_space(c),
{
    let mut buf = [0u8; 4];
    match regex::Regex::new(r"^\s$") {
        Ok(re) => re.is_match(c.encode_utf8(&mut buf)),
        Err(_) => false,
    }
}

/// `Regex::is_match` of the regex crate with the pattern
/// `^[^\w\x{4e00}-\x{9fff}\x{3040}-\x{309f}\x{30a0}-\x{30ff}]+$`: whether the
/// piece is punctuation-like. The pattern is a valid constant, so compiling it
/// does not fail.
#[verifier::external_body]
fn is_non_word_piece(piece: &str) -> (r: bool)
    ensures
        r == non_word_piece(piece@),
{
    match regex::Regex::new(r"^[^\w\x{4e00}-\x{9fff}\x{3040}-\x{309f}\x{30a0}-\x{30ff}]+$") {
        Ok(re) => re.is_match(piece),
        Err(_) => false,
    }
}

/// ASCII letters and digits: the chars of Latin words.
pub open spec fn is_latin(c: char) -> bool {
    ('a' <= c && c <= 'z') || ('A' <= c && c <= 'Z') || ('0' <= c && c <= '9')
}

/// The end of the run of Latin chars that starts at `i`.
pub open spec fn latin_run_end(s: Seq<char>, i: int) -> int
    decreases s.len() - i,
{
    if 0 <= i < s.len() && is_latin(s[i]) {
        latin_run_end(s, i + 1)
    } else {
        i
    }
}

/// The end of the Latin word that starts at `i`: runs of Latin chars joined
/// by `'` or `-` (`[a-zA-Z0-9]+(?:['\-][a-zA-Z0-9]+)*`).
pub open spec fn latin_word_end(s: Seq<char>, i: int) -> int
    decreases s.len() - i, 1int,
{
    let j = latin_run_end(s, i);
    if i < j && j + 1 < s.len() && (s[j] == '\'' || s[j] == '-') && is_latin(s[j + 1]) {
        latin_word_end(s, j + 1)
    } else {
        j
    }
}

/// The end of the piece that starts at the non-space char `i`: a Latin word,
/// or a single char (hanzi, kana or any other char).
pub open spec fn piece_end(s: Seq<char>, i: int) -> int {
    if is_latin(s[i]) {
        latin_word_end(s, i)
    } else {
        i + 1
    }
}

/// The pieces of `s[i..]`: white space separates pieces and belongs to none.
pub open spec fn pieces_from(s: Seq<char>, i: int) -> Seq<(int, int)>
    decreases s.len() - i,
{
    if i < 0 || i >= s.len() {
        Seq::empty()
    } else if white_space(s[i]) {
        pieces_from(s, i + 1)
    } else {
        proof {
            lemma_piece_end(s, i);
        }
        seq![(i, piece_end(s, i))] + pieces_from(s, piece_end(s, i))
    }
}

/// One piece into the token list: a punctuation-like piece joins the token
/// before it (display only); any other piece is a token of its own.
pub open spec fn punct_step(
    toks: Seq<(Seq<char>, int, int)>,
    s: Seq<char>,
    p: (int, int),
) -> Seq<(Seq<char>, int, int)> {
    let piece = s.subrange(p.0, p.1);
    if non_word_piece(piece) && toks.len() > 0 {
        let last = toks.last();
        toks.drop_last().push((last.0 + piece, last.1, p.1))
    } else {
        toks.push((piece, p.0, p.1))
    }
}

/// The tokens of the first `k` pieces.
pub open spec fn punct_fold(s: Seq<char>, pieces: Seq<(int, int)>, k: int) -> Seq<
    (Seq<char>, int, int),
>
    decreases k,
{
    if k <= 0 || k > pieces.len() {
        Seq::empty()
    } else {
        punct_step(punct_fold(s, pieces, k - 1), s, pieces[k - 1])
    }
}

/// Small kana that attach to the kana before them in display.
pub open spec fn spec_is_japanese_attach_char(c: char) -> bool {
    c == '\u{3041}' || c == '\u{3043}' || c == '\u{3045}' || c == '\u{3047}' || c == '\u{3049}'
        || c == '\u{3083}' || c == '\u{3085}' || c == '\u{3087}' || c == '\u{30A1}'
        || c == '\u{30A3}' || c == '\u{30A5}' || c == '\u{30A7}' || c == '\u{30A9}'
        || c == '\u{30E3}' || c == '\u{30E5}' || c == '\u{30E7}' || c == '\u{30EE}'
}

/// A token that attaches to the kana token before it: one small kana or ー.
pub open spec fn is_single_attach(t: Seq<char>) -> bool {
    t.len() == 1 && (spec_is_japanese_attach_char(t[0]) || t[0] == '\u{30FC}')
}

/// A token that ends in kana or ー.
pub open spec fn ends_kana(t: Seq<char>) -> bool {
    t.len() > 0 && (spec_is_kana_char(t.last()) || t.last() == '\u{30FC}')
}

/// One token into the display token list: a single small kana or ー joins a
/// preceding token that ends in kana; anything else stays a token.
pub open spec fn attach_step(
    toks: Seq<(Seq<char>, int, int)>,
    t: (Seq<char>, int, int),
) -> Seq<(Seq<char>, int, int)> {
    if toks.len() > 0 && is_single_attach(t.0) && ends_kana(toks.last().0) {
        let last = toks.last();
        toks.drop_last().push((last.0 + t.0, last.1, t.2))
    } else {
        toks.push(t)
    }
}

/// The display tokens of the first `k` tokens.
pub open spec fn attach_fold(toks: Seq<(Seq<char>, int, int)>, k: int) -> Seq<
    (Seq<char>, int, int),
>
    decreases k,
{
    if k <= 0 || k > toks.len() {
        Seq::empty()
    } else {
        attach_step(attach_fold(toks, k - 1), toks[k - 1])
    }
}

/// The display tokens of a lyric text.
pub open spec fn spec_tokenize(s: Seq<char>) -> Seq<(Seq<char>, int, int)> {
    let pieces = pieces_from(s, 0);
    let toks = punct_fold(s, pieces, pieces.len() as int);
    attach_fold(toks, toks.len() as int)
}

proof fn lemma_latin_run_end(s: Seq<char>, i: int)
    requires
        0 <= i <= s.len(),
    ensures
        i <= latin_run_end(s, i) <= s.len(),
        latin_run_end(s, i) < s.len() ==> !is_latin(s[latin_run_end(s, i)]),
        forall|k: int| i <= k < latin_run_end(s, i) ==> is_latin(#[trigger] s[k]),
    decreases s.len() - i,
{
    if i < s.len() && is_latin(s[i]) {
        lemma_latin_run_end(s, i + 1);
    }
}

proof fn lemma_latin_word_end(s: Seq<char>, i: int)
    requires
        0 <= i <= s.len(),
    ensures
        latin_run_end(s, i) <= latin_word_end(s, i) <= s.len(),
    decreases s.len() - i,
{
    lemma_latin_run_end(s, i);
    let j = latin_run_end(s, i);
    if i < j && j + 1 < s.len() && (s[j] == '\'' || s[j] == '-') && is_latin(s[j + 1]) {
        lemma_latin_word_end(s, j + 1);
        lemma_latin_run_end(s, j + 1);
    }
}

/// A piece is non-empty and lies in the text.
pub proof fn lemma_piece_end(s: Seq<char>, i: int)
    requires
        0 <= i < s.len(),
    ensures
        i < piece_end(s, i) <= s.len(),
{
    if is_latin(s[i]) {
        lemma_latin_word_end(s, i);
        lemma_latin_run_end(s, i);
    }
}

/// Token ranges in `lo..hi`, each non-empty, each starting at or after the
/// end of the one before it.
pub open spec fn ranges_in_order(t: Seq<(Seq<char>, int, int)>, lo: int, hi: int) -> bool {
    &&& forall|k: int| 0 <= k < t.len() ==> lo <= (#[trigger] t[k]).1 < t[k].2 <= hi
    &&& forall|k: int| 0 <= k < t.len() - 1 ==> (#[trigger] t[k]).2 <= t[k + 1].1
}

proof fn lemma_pieces_in_order(s: Seq<char>, i: int)
    requires
        0 <= i <= s.len(),
    ensures
        forall|k: int|
            0 <= k < pieces_from(s, i).len() ==> i <= (#[trigger] pieces_from(s, i)[k]).0
                < pieces_from(s, i)[k].1 <= s.len(),
        forall|k: int|
            0 <= k < pieces_from(s, i).len() - 1 ==> (#[trigger] pieces_from(s, i)[k]).1
                <= pieces_from(s, i)[k + 1].0,
    decreases s.len() - i,
{
    if i < s.len() {
        if white_space(s[i]) {
            lemma_pieces_in_order(s, i + 1);
            assert(pieces_from(s, i) == pieces_from(s, i + 1));
        } else {
            lemma_piece_end(s, i);
            let e = piece_end(s, i);
            lemma_pieces_in_order(s, e);
            let p = pieces_from(s, i);
            let rest = pieces_from(s, e);
            assert(p == seq![(i, e)] + rest);
            assert forall|k: int| 0 <= k < p.len() implies i <= (#[trigger] p[k]).0 < p[k].1
                <= s.len() by {
                if k > 0 {
                    assert(p[k] == rest[k - 1]);
                }
            }
            assert forall|k: int| 0 <= k < p.len() - 1 implies (#[trigger] p[k]).1 <= p[k + 1].0 by {
                assert(p[k + 1] == rest[k]);
                if k > 0 {
                    assert(p[k] == rest[k - 1]);
                }
            }
        }
    }
}

proof fn lemma_punct_fold_in_order(s: Seq<char>, pieces: Seq<(int, int)>, k: int)
    requires
        0 <= k <= pieces.len(),
        forall|j: int| 0 <= j < pieces.len() ==> 0 <= (#[trigger] pieces[j]).0 < pieces[j].1 <= s.len(),
        forall|j: int| 0 <= j < pieces.len() - 1 ==> (#[trigger] pieces[j]).1 <= pieces[j + 1].0,
    ensures
        ranges_in_order(punct_fold(s, pieces, k), 0, s.len() as int),
        k > 0 ==> punct_fold(s, pieces, k).len() > 0 && punct_fold(s, pieces, k).last().2
            == pieces[k - 1].1,
        k == 0 ==> punct_fold(s, pieces, k).len() == 0,
    decreases k,
{
    if k > 0 {
        lemma_punct_fold_in_order(s, pieces, k - 1);
        let acc = punct_fold(s, pieces, k - 1);
        let p = pieces[k - 1];
        let r = punct_fold(s, pieces, k);
        assert(r == punct_step(acc, s, p));
        if k > 1 {
            assert(pieces[k - 2].1 <= pieces[k - 1].0);
        }
        if non_word_piece(s.subrange(p.0, p.1)) && acc.len() > 0 {
            let last = acc.last();
            assert(r == acc.drop_last().push((last.0 + s.subrange(p.0, p.1), last.1, p.1)));
            assert forall|j: int| 0 <= j < r.len() implies 0 <= (#[trigger] r[j]).1 < r[j].2 <= s.len() by {
                if j < r.len() - 1 {
                    assert(r[j] == acc[j]);
                }
            }
            assert forall|j: int| 0 <= j < r.len() - 1 implies (#[trigger] r[j]).2 <= r[j + 1].1 by {
                assert(r[j] == acc[j]);
                if j + 1 < r.len() - 1 {
                    assert(r[j + 1] == acc[j + 1]);
                }
            }
        } else {
            assert(r == acc.push((s.subrange(p.0, p.1), p.0, p.1)));
            assert forall|j: int| 0 <= j < r.len() implies 0 <= (#[trigger] r[j]).1 < r[j].2 <= s.len() by {
                if j < r.len() - 1 {
                    assert(r[j] == acc[j]);
                }
            }
            assert forall|j: int| 0 <= j < r.len() - 1 implies (#[trigger] r[j]).2 <= r[j + 1].1 by {
                assert(r[j] == acc[j]);
                if j + 1 < r.len() - 1 {
                    assert(r[j + 1] == acc[j + 1]);
                }
            }
        }
    }
}

proof fn lemma_attach_fold_in_order(toks: Seq<(Seq<char>, int, int)>, k: int, hi: int)
    requires
        0 <= k <= toks.len(),
        ranges_in_order(toks, 0, hi),
    ensures
        ranges_in_order(attach_fold(toks, k), 0, hi),
        k > 0 ==> attach_fold(toks, k).len() > 0 && attach_fold(toks, k).last().2 == toks[k - 1].2,
        k == 0 ==> attach_fold(toks, k).len() == 0,
    decreases k,
{
    if k > 0 {
        lemma_attach_fold_in_order(toks, k - 1, hi);
        let acc = attach_fold(toks, k - 1);
        let t = toks[k - 1];
        let r = attach_fold(toks, k);
        assert(r == attach_step(acc, t));
        if k > 1 {
            assert(toks[k - 2].2 <= toks[k - 1].1);
        }
        if acc.len() > 0 && is_single_attach(t.0) && ends_kana(acc.last().0) {
            let last = acc.last();
            assert(r == acc.drop_last().push((last.0 + t.0, last.1, t.2)));
            assert forall|j: int| 0 <= j < r.len() implies 0 <= (#[trigger] r[j]).1 < r[j].2 <= hi by {
                if j < r.len() - 1 {
                    assert(r[j] == acc[j]);
                }
            }
            assert forall|j: int| 0 <= j < r.len() - 1 implies (#[trigger] r[j]).2 <= r[j + 1].1 by {
                assert(r[j] == acc[j]);
                if j + 1 < r.len() - 1 {
                    assert(r[j + 1] == acc[j + 1]);
                }
            }
        } else {
            assert(r == acc.push(t));
            assert forall|j: int| 0 <= j < r.len() implies 0 <= (#[trigger] r[j]).1 < r[j].2 <= hi by {
                if j < r.len() - 1 {
                    assert(r[j] == acc[j]);
                }
            }
            assert forall|j: int| 0 <= j < r.len() - 1 implies (#[trigger] r[j]).2 <= r[j + 1].1 by {
                assert(r[j] == acc[j]);
                if j + 1 < r.len() - 1 {
                    assert(r[j + 1] == acc[j + 1]);
                }
            }
        }
    }
}

/// The display tokens of a text lie in it in order: each covers a non-empty
/// char range, and each starts at or after the end of the one before it.
pub proof fn lemma_tokens_in_order(s: Seq<char>)
    ensures
        ranges_in_order(spec_tokenize(s), 0, s.len() as int),
{
    let pieces = pieces_from(s, 0);
    lemma_pieces_in_order(s, 0);
    lemma_punct_fold_in_order(s, pieces, pieces.len() as int);
    let toks = punct_fold(s, pieces, pieces.len() as int);
    lemma_attach_fold_in_order(toks, toks.len() as int, s.len() as int);
}

fn is_latin_char(c: char) -> (r: bool)
    ensures
        r == is_latin(c),
{
    ('a' <= c && c <= 'z') || ('A' <= c && c <= 'Z') || ('0' <= c && c <= '9')
}

/// Small kana that attach to the kana before them in display.
pub fn is_japanese_attach_char(c: char) -> (r: bool)
    ensures
        r == spec_is_japanese_attach_char(c),
{
    c == '\u{3041}' || c == '\u{3043}' || c == '\u{3045}' || c == '\u{3047}' || c == '\u{3049}'
        || c == '\u{3083}' || c == '\u{3085}' || c == '\u{3087}' || c == '\u{30A1}'
        || c == '\u{30A3}' || c == '\u{30A5}' || c == '\u{30A7}' || c == '\u{30A9}'
        || c == '\u{30E3}' || c == '\u{30E5}' || c == '\u{30E7}' || c == '\u{30EE}'
}

/// The long-vowel mark ー: displayed with the char before it, but a mora of
/// its own.
pub fn is_chionpu(c: char) -> (r: bool)
    ensures
        r == (c == '\u{30FC}'),
{
    c == '\u{30FC}'
}

/// CJK unified ideographs and extension A.
pub fn is_kanji_char(c: char) -> (r: bool)
    ensures
        r == (('\u{4E00}' <= c && c <= '\u{9FFF}') || ('\u{3400}' <= c && c <= '\u{4DBF}')),
{
    ('\u{4E00}' <= c && c <= '\u{9FFF}') || ('\u{3400}' <= c && c <= '\u{4DBF}')
}

/// The end of the piece that starts at the non-space char `i`.
fn find_piece_end(chars: &Vec<char>, i: usize) -> (e: usize)
    requires
        i < chars@.len(),
    ensures
        e == piece_end(chars@, i as int),
{
    let ghost s = chars@;
    let n = chars.len();
    if !is_latin_char(chars[i]) {
        return i + 1;
    }
    let mut start = i;
    loop
        invariant
            chars@ == s,
            n == s.len(),
            i <= start < n,
            is_latin(s[start as int]),
            latin_word_end(s, i as int) == latin_word_end(s, start as int),
        decreases n - start,
    {
        let mut j = start;
        while j < n && is_latin_char(chars[j])
            invariant
                chars@ == s,
                n == s.len(),
                start <= j <= n,
                latin_run_end(s, start as int) == latin_run_end(s, j as int),
            decreases n - j,
        {
            j += 1;
        }
        proof {
            lemma_latin_run_end(s, start as int);
        }
        if j < n && n - j > 1 && (chars[j] == '\'' || chars[j] == '-') && is_latin_char(chars[j + 1]) {
            start = j + 1;
        } else {
            return j;
        }
    }
}

/// Merges single small kana and ー into the kana token before them
/// (display grouping only; mora counting is separate).
fn merge_japanese_attach_chars_spans(tokens: &mut Vec<SpannedToken>)
    ensures
        tokens_view(final(tokens)@) == attach_fold(
            tokens_view(old(tokens)@),
            old(tokens)@.len() as int,
        ),
{
    let ghost input = tokens_view(tokens@);
    let mut pending: Vec<SpannedToken> = Vec::new();
    std::mem::swap(tokens, &mut pending);
    let n = pending.len();
    let mut k: usize = 0;
    while pending.len() > 0
        invariant
            k + pending@.len() == n,
            n == input.len(),
            tokens_view(pending@) == input.subrange(k as int, n as int),
            tokens_view(tokens@) == attach_fold(input, k as int),
        decreases pending@.len(),
    {
        let ghost rest = tokens_view(pending@);
        let tok = pending.remove(0);
        proof {
            assert(rest[0] == tok@);
            assert(input[k as int] == tok@);
            assert(tokens_view(pending@) =~= rest.subrange(1, rest.len() as int));
        }
        let single = tok.text.unicode_len() == 1 && {
            let c = tok.text.as_str().get_char(0);
            is_japanese_attach_char(c) || is_chionpu(c)
        };
        let prev_kana = tokens.len() > 0 && {
            let last = &tokens[tokens.len() - 1];
            let len = last.text.unicode_len();
            len > 0 && {
                let c = last.text.as_str().get_char(len - 1);
                is_kana_char(c) || is_chionpu(c)
            }
        };
        let ghost before = tokens_view(tokens@);
        if single && prev_kana {
            let mut prev = tokens.pop().unwrap();
            prev.text.append(tok.text.as_str());
            prev.char_end = tok.char_end;
            tokens.push(prev);
            proof {
                assert(tokens_view(tokens@) =~= attach_step(before, tok@));
            }
        } else {
            tokens.push(tok);
            proof {
                assert(tokens_view(tokens@) =~= attach_step(before, input[k as int]));
            }
        }
        k += 1;
        proof {
            assert(tokens_view(pending@) =~= input.subrange(k as int, n as int));
        }
    }
}

/// Splits a lyric line into display tokens with their char ranges: Latin
/// words (joined by `'` or `-`), single hanzi, single kana and any other
/// single non-space char. Punctuation-like pieces join the token before them;
/// single small kana and ー join a preceding kana token.
pub fn tokenize_core(text: &str) -> (tokens: Vec<SpannedToken>)
    ensures
        tokens_view(tokens@) == spec_tokenize(text@),
{
    let chars = chars_of(text);
    let ghost s = text@;
    let ghost pieces = pieces_from(s, 0);
    let n = chars.len();
    let mut tokens: Vec<SpannedToken> = Vec::new();
    let mut i: usize = 0;
    let ghost mut done: int = 0;
    while i < n
        invariant
            chars@ == s,
            n == s.len(),
            i <= n,
            0 <= done <= pieces.len(),
            pieces.subrange(done, pieces.len() as int) == pieces_from(s, i as int),
            pieces == pieces_from(s, 0),
            tokens_view(tokens@) == punct_fold(s, pieces, done),
        decreases n - i,
    {
        if is_pattern_space(chars[i]) {
            i += 1;
            continue;
        }
        let e = find_piece_end(&chars, i);
        proof {
            lemma_piece_end(s, i as int);
            assert(pieces_from(s, i as int)[0] == (i as int, e as int));
            assert(pieces_from(s, i as int).len() >= 1);
            assert(pieces.subrange(done, pieces.len() as int)[0] == pieces[done]);
            assert(pieces[done] == (i as int, e as int));
            assert(pieces.subrange(done + 1, pieces.len() as int) =~= pieces.subrange(done, pieces.len() as int).drop_first());
            assert(pieces_from(s, i as int).drop_first() =~= pieces_from(s, e as int));
        }
        let piece = string_of_range(&chars, i, e);
        let ghost before = tokens_view(tokens@);
        if is_non_word_piece(piece.as_str()) && tokens.len() > 0 {
            let mut last = tokens.pop().unwrap();
            last.text.append(piece.as_str());
            last.char_end = e;
            tokens.push(last);
        } else {
            tokens.push(SpannedToken { text: piece, char_start: i, char_end: e });
        }
        proof {
            assert(tokens_view(tokens@) =~= punct_step(before, s, pieces[done]));
            done = done + 1;
            assert(pieces.subrange(done, pieces.len() as int) =~= pieces_from(s, e as int));
        }
        i = e;
    }
    proof {
        assert(done == pieces.len());
    }
    merge_japanese_attach_chars_spans(&mut tokens);
    tokens
}

/// The display token texts of a lyric line.
pub fn tokenize(text: &str) -> (r: Vec<String>)
    ensures
        r@.len() == spec_tokenize(text@).len(),
        forall|k: int| 0 <= k < r@.len() ==> (#[trigger] r@[k])@ == spec_tokenize(text@)[k].0,
{
    let mut tokens = tokenize_core(text);
    let ghost model = tokens_view(tokens@);
    let mut texts: Vec<String> = Vec::new();
    let n = tokens.len();
    let mut k: usize = 0;
    while tokens.len() > 0
        invariant
            k + tokens@.len() == n,
            n == model.len(),
            tokens_view(tokens@) == model.subrange(k as int, n as int),
            texts@.len() == k,
            forall|m: int| 0 <= m < k ==> (#[trigger] texts@[m])@ == model[m].0,
        decreases tokens@.len(),
    {
        let ghost rest = tokens_view(tokens@);
        let t = tokens.remove(0);
        proof {
            assert(rest[0] == t@);
            assert(tokens_view(tokens@) =~= rest.subrange(1, rest.len() as int));
        }
        texts.push(t.text);
        k += 1;
        proof {
            assert(tokens_view(tokens@) =~= model.subrange(k as int, n as int));
        }
    }
    texts
}

/// `s` in lower case (Unicode case mapping of the whole string).
pub uninterp spec fn lowercase(s: Seq<char>) -> Seq<char>;

/// Whether `c` is alphabetic or numeric in Unicode.
pub uninterp spec fn alphanumeric(c: char) -> bool;

/// `str::to_lowercase` from std: the lower-case form of `s` under Unicode
/// case mapping.
#[verifier::external_body]
fn to_lower(s: &str) -> (r: String)
    ensures
        r@ == lowercase(s@),
{
    s.to_lowercase()
}

/// `char::is_alphanumeric` from std: whether `c` has the Alphabetic property
/// or is a Unicode number.
#[verifier::external_body]
fn is_alphanumeric_char(c: char) -> (r: bool)
    ensures
        r == alphanumeric(c),
{
    c.is_alphanumeric()
}

/// The vowels of a Latin word (y included).
pub open spec fn is_vowel(c: char) -> bool {
    c == 'a' || c == 'e' || c == 'i' || c == 'o' || c == 'u' || c == 'y'
}

/// The number of runs of vowels in `s`.
pub open spec fn vowel_runs(s: Seq<char>) -> nat
    decreases s.len(),
{
    if s.len() == 0 {
        0
    } else {
        vowel_runs(s.drop_last()) + if is_vowel(s.last()) && (s.len() == 1 || !is_vowel(
            s[s.len() - 2],
        )) {
            1nat
        } else {
            0nat
        }
    }
}

/// The syllables of a Latin word: its runs of vowels once in lower case,
/// at least one (hello has 2, through has 1).
pub open spec fn latin_syllables(word: Seq<char>) -> nat {
    let n = vowel_runs(lowercase(word));
    if n < 1 {
        1
    } else {
        n
    }
}

/// An ASCII letter.
pub open spec fn is_ascii_letter(c: char) -> bool {
    ('a' <= c && c <= 'z') || ('A' <= c && c <= 'Z')
}

/// The weight of one char, in tenths of a mora, besides the moras of the
/// kana: a hanzi or kanji weighs 1.8, kana and ー are counted as moras,
/// punctuation weighs nothing, any other letter or digit weighs 1.
pub open spec fn char_weight_tenths(c: char) -> nat {
    if ('\u{4E00}' <= c && c <= '\u{9FFF}') || ('\u{3400}' <= c && c <= '\u{4DBF}') {
        18
    } else if spec_is_kana_char(c) || c == '\u{30FC}' {
        0
    } else if !alphanumeric(c) {
        0
    } else {
        10
    }
}

/// The char weights of `s`, in tenths.
pub open spec fn chars_weight_tenths(s: Seq<char>) -> nat
    decreases s.len(),
{
    if s.len() == 0 {
        0
    } else {
        chars_weight_tenths(s.drop_last()) + char_weight_tenths(s.last())
    }
}

/// The estimated length of a token, in tenths of a mora: an empty token
/// weighs 1; a Latin word weighs its syllables; anything else weighs its
/// kana moras plus its char weights, at least 1.
pub open spec fn spec_token_weight_tenths(s: Seq<char>) -> nat {
    if s.len() == 0 {
        10
    } else if is_ascii_letter(s[0]) {
        10 * latin_syllables(s)
    } else {
        let w = 10 * crate::japanese::mora::mora_count(s) + chars_weight_tenths(s);
        if w < 10 {
            10
        } else {
            w
        }
    }
}

/// The estimated length of a token in moras, in tenths (see
/// `spec_token_weight_tenths`): weights for distributing a line's time
/// over its tokens.
pub fn token_weight_tenths(text: &str) -> (w: u128)
    ensures
        w == spec_token_weight_tenths(text@),
{
    let chars = chars_of(text);
    if chars.len() == 0 {
        return 10;
    }
    let first = chars[0];
    if ('a' <= first && first <= 'z') || ('A' <= first && first <= 'Z') {
        let lower = to_lower(text);
        let lc = chars_of(lower.as_str());
        let mut runs: u128 = 0;
        let mut i: usize = 0;
        while i < lc.len()
            invariant
                i <= lc@.len(),
                runs == vowel_runs(lc@.take(i as int)),
                runs <= i,
            decreases lc.len() - i,
        {
            let c = lc[i];
            let v = c == 'a' || c == 'e' || c == 'i' || c == 'o' || c == 'u' || c == 'y';
            let starts = v && (i == 0 || {
                let p = lc[i - 1];
                !(p == 'a' || p == 'e' || p == 'i' || p == 'o' || p == 'u' || p == 'y')
            });
            proof {
                let t = lc@.take(i + 1);
                assert(t.drop_last() == lc@.take(i as int));
                assert(t.last() == c);
                if i > 0 {
                    assert(t[t.len() - 2] == lc@[i - 1]);
                }
            }
            if starts {
                runs = runs + 1;
            }
            i += 1;
        }
        proof {
            assert(lc@.take(i as int) == lc@);
        }
        return if runs < 1 {
            10
        } else {
            10 * runs
        };
    }
    let moras = crate::japanese::mora::parse_kana_moras(text);
    let mut w: u128 = 0;
    let mut i: usize = 0;
    while i < chars.len()
        invariant
            chars@ == text@,
            i <= chars@.len(),
            w == chars_weight_tenths(text@.take(i as int)),
            w <= 18 * i,
        decreases chars.len() - i,
    {
        let c = chars[i];
        let cw: u128 = if ('\u{4E00}' <= c && c <= '\u{9FFF}') || ('\u{3400}' <= c && c <= '\u{4DBF}') {
            18
        } else if is_kana_char(c) || c == '\u{30FC}' {
            0
        } else if !is_alphanumeric_char(c) {
            0
        } else {
            10
        };
        proof {
            let t = text@.take(i + 1);
            assert(t.drop_last() == text@.take(i as int));
            assert(t.last() == c);
        }
        w = w + cw;
        i += 1;
    }
    proof {
        assert(text@.take(i as int) == text@);
    }
    let total = 10 * (moras.len() as u128) + w;
    if total < 10 {
        10
    } else {
        total
    }
}

/// Runs shorter than this many frames are noise in frame-level segmentation.
pub const MIN_NOTE_FRAMES: usize = 5;

/// The end of the run of equal labels that starts at `i`.
pub open spec fn label_run_end(l: Seq<i32>, i: int) -> int
    decreases l.len() - i,
{
    if 0 <= i && i + 1 < l.len() && l[i + 1] == l[i] {
        label_run_end(l, i + 1)
    } else {
        i + 1
    }
}

/// The maximal runs of equal labels of `l[i..]`: (start, end, label).
pub open spec fn label_runs_from(l: Seq<i32>, i: int) -> Seq<(int, int, i32)>
    decreases l.len() - i,
{
    if i < 0 || i >= l.len() {
        Seq::empty()
    } else {
        proof {
            lemma_label_run_end(l, i);
        }
        seq![(i, label_run_end(l, i), l[i])] + label_runs_from(l, label_run_end(l, i))
    }
}

/// The label that fills run `j` after cleanup: a run of at least
/// `MIN_NOTE_FRAMES` keeps its label; a shorter one takes the label of its
/// neighbours when they agree, else that of the longer neighbour (the earlier
/// one on a tie), or of its only neighbour.
pub open spec fn cleaned_run_label(runs: Seq<(int, int, i32)>, j: int) -> i32 {
    let (start, end, label) = runs[j];
    if end - start >= MIN_NOTE_FRAMES {
        label
    } else if j > 0 && j + 1 < runs.len() {
        let p = runs[j - 1];
        let n = runs[j + 1];
        if p.2 == n.2 {
            p.2
        } else if p.1 - p.0 >= n.1 - n.0 {
            p.2
        } else {
            n.2
        }
    } else if j > 0 {
        runs[j - 1].2
    } else if j + 1 < runs.len() {
        runs[j + 1].2
    } else {
        label
    }
}

pub proof fn lemma_label_run_end(l: Seq<i32>, i: int)
    requires
        0 <= i < l.len(),
    ensures
        i < label_run_end(l, i) <= l.len(),
        forall|k: int| i <= k < label_run_end(l, i) ==> #[trigger] l[k] == l[i],
        label_run_end(l, i) < l.len() ==> l[label_run_end(l, i)] != l[i],
    decreases l.len() - i,
{
    if i + 1 < l.len() && l[i + 1] == l[i] {
        lemma_label_run_end(l, i + 1);
    }
}

/// The runs of `l[i..]` tile `i..l.len()`; each holds one label and
/// neighbouring runs hold different labels.
pub proof fn lemma_label_runs_tile(l: Seq<i32>, i: int)
    requires
        0 <= i <= l.len(),
    ensures
        ({
            let r = label_runs_from(l, i);
            &&& (r.len() == 0 <==> i == l.len())
            &&& r.len() > 0 ==> r[0].0 == i && r[r.len() - 1].1 == l.len()
            &&& forall|k: int| 0 <= k < r.len() ==> i <= (#[trigger] r[k]).0 < r[k].1 <= l.len()
            &&& forall|k: int| 0 <= k < r.len() - 1 ==> (#[trigger] r[k]).1 == r[k + 1].0
            &&& forall|k: int, m: int|
                0 <= k < r.len() && r[k].0 <= m < r[k].1 ==> #[trigger] l[m] == (#[trigger] r[k]).2
            &&& forall|k: int| 0 <= k < r.len() - 1 ==> (#[trigger] r[k]).2 != r[k + 1].2
        }),
    decreases l.len() - i,
{
    if i < l.len() {
        lemma_label_run_end(l, i);
        let e = label_run_end(l, i);
        lemma_label_runs_tile(l, e);
        let rest = label_runs_from(l, e);
        let r = label_runs_from(l, i);
        assert(r == seq![(i, e, l[i])] + rest);
        assert forall|k: int| 0 <= k < r.len() implies i <= (#[trigger] r[k]).0 < r[k].1 <= l.len() by {
            if k > 0 {
                assert(r[k] == rest[k - 1]);
            }
        }
        assert forall|k: int| 0 <= k < r.len() - 1 implies (#[trigger] r[k]).1 == r[k + 1].0 by {
            assert(r[k + 1] == rest[k]);
            if k > 0 {
                assert(r[k] == rest[k - 1]);
            }
        }
        assert forall|k: int, m: int|
            0 <= k < r.len() && r[k].0 <= m < r[k].1 implies #[trigger] l[m] == (#[trigger] r[k]).2 by {
            if k > 0 {
                assert(r[k] == rest[k - 1]);
            }
        }
        assert forall|k: int| 0 <= k < r.len() - 1 implies (#[trigger] r[k]).2 != r[k + 1].2 by {
            assert(r[k + 1] == rest[k]);
            if k > 0 {
                assert(r[k] == rest[k - 1]);
            } else {
                if rest.len() > 0 {
                    assert(rest[0].2 == l[e]);
                }
            }
        }
    }
}

/// The model of a list of runs.
pub open spec fn runs_view(v: Seq<(usize, usize, i32)>) -> Seq<(int, int, i32)> {
    v.map_values(|r: (usize, usize, i32)| (r.0 as int, r.1 as int, r.2))
}

/// The maximal runs of equal labels: (start, end, label), in order.
pub fn label_runs(labels: &[i32]) -> (runs: Vec<(usize, usize, i32)>)
    ensures
        runs_view(runs@) == label_runs_from(labels@, 0),
{
    let ghost l = labels@;
    let n = labels.len();
    let mut runs: Vec<(usize, usize, i32)> = Vec::new();
    let mut start: usize = 0;
    proof {
        lemma_label_runs_tile(l, 0);
    }
    while start < n
        invariant
            labels@ == l,
            n == l.len(),
            start <= n,
            label_runs_from(l, 0) == runs_view(runs@) + label_runs_from(l, start as int),
        decreases n - start,
    {
        let mut i = start + 1;
        while i < n && labels[i] == labels[start]
            invariant
                labels@ == l,
                n == l.len(),
                start < i <= n,
                forall|k: int| start <= k < i ==> #[trigger] l[k] == l[start as int],
                label_run_end(l, start as int) == label_run_end(l, (i - 1) as int),
            decreases n - i,
        {
            i += 1;
        }
        let ghost before = runs_view(runs@);
        runs.push((start, i, labels[start]));
        proof {
            assert(label_runs_from(l, start as int) == seq![(start as int, i as int, l[start as int])]
                + label_runs_from(l, i as int));
            assert(runs_view(runs@) =~= before.push((start as int, i as int, l[start as int])));
        }
        start = i;
    }
    proof {
        assert(label_runs_from(l, start as int) == Seq::<(int, int, i32)>::empty());
        assert(label_runs_from(l, 0) =~= runs_view(runs@));
    }
    runs
}

/// Relabels runs shorter than `MIN_NOTE_FRAMES` with the label of their
/// neighbours (see `cleaned_run_label`); the runs are those of the input.
pub fn remove_short_label_runs(labels: &[i32]) -> (cleaned: Vec<i32>)
    ensures
        cleaned@.len() == labels@.len(),
        forall|j: int, k: int|
            #![trigger cleaned@[k], label_runs_from(labels@, 0)[j]]
            0 <= j < label_runs_from(labels@, 0).len() && label_runs_from(labels@, 0)[j].0 <= k
                < label_runs_from(labels@, 0)[j].1 ==> cleaned@[k] == cleaned_run_label(
                label_runs_from(labels@, 0),
                j,
            ),
{
    let ghost l = labels@;
    let ghost rs = label_runs_from(l, 0);
    let runs = label_runs(labels);
    proof {
        lemma_label_runs_tile(l, 0);
    }
    let mut cleaned: Vec<i32> = Vec::new();
    let nr = runs.len();
    let mut i: usize = 0;
    while i < nr
        invariant
            labels@ == l,
            rs == label_runs_from(l, 0),
            runs_view(runs@) == rs,
            nr == rs.len(),
            i <= nr,
            forall|k: int| 0 <= k < rs.len() ==> 0 <= (#[trigger] rs[k]).0 < rs[k].1 <= l.len(),
            forall|k: int| 0 <= k < rs.len() - 1 ==> (#[trigger] rs[k]).1 == rs[k + 1].0,
            rs.len() > 0 ==> rs[0].0 == 0 && rs[rs.len() - 1].1 == l.len(),
            rs.len() == 0 ==> l.len() == 0,
            cleaned@.len() == (if i == 0 { 0 } else { rs[i - 1].1 }),
            forall|j: int| 0 <= j < i ==> (#[trigger] rs[j]).1 <= cleaned@.len(),
            forall|j: int, k: int|
                #![trigger cleaned@[k], rs[j]]
                0 <= j < i && rs[j].0 <= k < rs[j].1 ==> cleaned@[k] == cleaned_run_label(rs, j),
        decreases nr - i,
    {
        let (start, end, label) = runs[i];
        assert(rs[i as int] == (start as int, end as int, label));
        assert(start as int == cleaned@.len()) by {
            if i > 0 {
                assert(rs[i - 1].1 == rs[i as int].0);
            }
        }
        let fill = if end - start >= MIN_NOTE_FRAMES {
            label
        } else if i > 0 && i + 1 < nr {
            let (ps, pe, p) = runs[i - 1];
            let (ns, ne, nl) = runs[i + 1];
            assert(rs[i - 1] == (ps as int, pe as int, p));
            assert(rs[i + 1] == (ns as int, ne as int, nl));
            if p == nl {
                p
            } else if pe - ps >= ne - ns {
                p
            } else {
                nl
            }
        } else if i > 0 {
            let (_, _, p) = runs[i - 1];
            assert(rs[i - 1].2 == p);
            p
        } else if i + 1 < nr {
            let (_, _, nl) = runs[i + 1];
            assert(rs[i + 1].2 == nl);
            nl
        } else {
            label
        };
        assert(fill == cleaned_run_label(rs, i as int));
        let mut k = start;
        while k < end
            invariant
                start <= k <= end,
                i < rs.len(),
                cleaned@.len() == k,
                forall|j: int, m: int|
                    #![trigger cleaned@[m], rs[j]]
                    0 <= j < i && rs[j].0 <= m < rs[j].1 ==> cleaned@[m] == cleaned_run_label(rs, j),
                forall|m: int| start <= m < k ==> #[trigger] cleaned@[m] == fill,
                forall|j: int| 0 <= j < i ==> 0 <= (#[trigger] rs[j]).0 && rs[j].1 <= start,
            decreases end - k,
        {
            let ghost before = cleaned@;
            cleaned.push(fill);
            assert forall|j: int, m: int|
                #![trigger cleaned@[m], rs[j]]
                0 <= j < i && rs[j].0 <= m < rs[j].1 implies cleaned@[m] == cleaned_run_label(rs, j) by {
                assert(0 <= rs[j].0 && rs[j].1 <= start);
            }
            k += 1;
        }
        i += 1;
    }
    cleaned
}

/// `s[i..]` without its white space.
pub open spec fn non_space_from(s: Seq<char>, i: int) -> Seq<char>
    decreases s.len() - i,
{
    if i < 0 || i >= s.len() {
        Seq::empty()
    } else if white_space(s[i]) {
        non_space_from(s, i + 1)
    } else {
        seq![s[i]] + non_space_from(s, i + 1)
    }
}

/// The texts of tokens, concatenated in order.
pub open spec fn joined_texts(t: Seq<(Seq<char>, int, int)>) -> Seq<char>
    decreases t.len(),
{
    if t.len() == 0 {
        Seq::empty()
    } else {
        joined_texts(t.drop_last()) + t.last().0
    }
}

/// The pieces as tokens: each with its text.
pub open spec fn piece_tokens(s: Seq<char>, pieces: Seq<(int, int)>) -> Seq<(Seq<char>, int, int)> {
    pieces.map_values(|p: (int, int)| (s.subrange(p.0, p.1), p.0, p.1))
}

proof fn lemma_joined_front(t: (Seq<char>, int, int), rest: Seq<(Seq<char>, int, int)>)
    ensures
        joined_texts(seq![t] + rest) == t.0 + joined_texts(rest),
    decreases rest.len(),
{
    if rest.len() == 0 {
        let e = Seq::<(Seq<char>, int, int)>::empty();
        assert(seq![t] + rest =~= seq![t]);
        assert(seq![t].drop_last() =~= e);
        assert(joined_texts(e) == Seq::<char>::empty());
        assert(joined_texts(seq![t]) == joined_texts(e) + t.0);
        assert(Seq::<char>::empty() + t.0 =~= t.0);
        assert(joined_texts(rest) == Seq::<char>::empty());
        assert(t.0 + Seq::<char>::empty() =~= t.0);
    } else {
        lemma_joined_front(t, rest.drop_last());
        assert((seq![t] + rest).drop_last() =~= seq![t] + rest.drop_last());
        assert((seq![t] + rest).last() == rest.last());
        assert(joined_texts(seq![t] + rest) == joined_texts(seq![t] + rest.drop_last())
            + rest.last().0);
        assert(t.0 + joined_texts(rest.drop_last()) + rest.last().0 =~= t.0 + (joined_texts(
            rest.drop_last(),
        ) + rest.last().0));
    }
}

proof fn lemma_latin_word_no_space(s: Seq<char>, i: int)
    requires
        0 <= i <= s.len(),
    ensures
        forall|k: int| i <= k < latin_word_end(s, i) ==> !white_space(#[trigger] s[k]),
    decreases s.len() - i,
{
    lemma_latin_run_end(s, i);
    let j = latin_run_end(s, i);
    if i < j && j + 1 < s.len() && (s[j] == '\'' || s[j] == '-') && is_latin(s[j + 1]) {
        lemma_latin_word_no_space(s, j + 1);
        assert forall|k: int| i <= k < latin_word_end(s, i) implies !white_space(#[trigger] s[k]) by {
            if k < j {
                assert(is_latin(s[k]));
            }
        }
    } else {
        assert forall|k: int| i <= k < latin_word_end(s, i) implies !white_space(#[trigger] s[k]) by {
            assert(is_latin(s[k]));
        }
    }
}

proof fn lemma_non_space_run(s: Seq<char>, a: int, e: int)
    requires
        0 <= a <= e <= s.len(),
        forall|k: int| a <= k < e ==> !white_space(#[trigger] s[k]),
    ensures
        non_space_from(s, a) == s.subrange(a, e) + non_space_from(s, e),
    decreases e - a,
{
    if a < e {
        lemma_non_space_run(s, a + 1, e);
        assert(seq![s[a]] + s.subrange(a + 1, e) =~= s.subrange(a, e));
        assert(seq![s[a]] + (s.subrange(a + 1, e) + non_space_from(s, e)) =~= s.subrange(a, e)
            + non_space_from(s, e));
    } else {
        assert(s.subrange(a, e) + non_space_from(s, e) =~= non_space_from(s, e));
    }
}

proof fn lemma_pieces_rebuild(s: Seq<char>, i: int)
    requires
        0 <= i <= s.len(),
    ensures
        joined_texts(piece_tokens(s, pieces_from(s, i))) == non_space_from(s, i),
        forall|k: int|
            0 <= k < pieces_from(s, i).len() ==> (#[trigger] pieces_from(s, i)[k]).0 < pieces_from(
                s,
                i,
            )[k].1,
    decreases s.len() - i,
{
    if i < s.len() {
        if white_space(s[i]) {
            lemma_pieces_rebuild(s, i + 1);
        } else {
            lemma_piece_end(s, i);
            let e = piece_end(s, i);
            lemma_pieces_rebuild(s, e);
            let rest = pieces_from(s, e);
            assert(pieces_from(s, i) == seq![(i, e)] + rest);
            assert(piece_tokens(s, pieces_from(s, i)) =~= seq![(s.subrange(i, e), i, e)]
                + piece_tokens(s, rest));
            lemma_joined_front((s.subrange(i, e), i, e), piece_tokens(s, rest));
            if is_latin(s[i]) {
                lemma_latin_word_no_space(s, i);
            }
            lemma_non_space_run(s, i, e);
            assert forall|k: int| 0 <= k < pieces_from(s, i).len() implies (#[trigger] pieces_from(
                s,
                i,
            )[k]).0 < pieces_from(s, i)[k].1 by {
                if k > 0 {
                    assert(pieces_from(s, i)[k] == rest[k - 1]);
                }
            }
        }
    } else {
        assert(piece_tokens(s, pieces_from(s, i)) =~= Seq::<(Seq<char>, int, int)>::empty());
    }
}

proof fn lemma_punct_fold_rebuild(s: Seq<char>, pieces: Seq<(int, int)>, k: int)
    requires
        0 <= k <= pieces.len(),
        forall|j: int| 0 <= j < pieces.len() ==> (#[trigger] pieces[j]).0 < pieces[j].1,
        forall|j: int| 0 <= j < pieces.len() ==> 0 <= (#[trigger] pieces[j]).0 && pieces[j].1
            <= s.len(),
    ensures
        joined_texts(punct_fold(s, pieces, k)) == joined_texts(piece_tokens(s, pieces).take(k)),
        forall|j: int|
            0 <= j < punct_fold(s, pieces, k).len() ==> (#[trigger] punct_fold(s, pieces, k)[j]).0.len()
                > 0,
    decreases k,
{
    let pt = piece_tokens(s, pieces);
    if k == 0 {
        assert(pt.take(0) =~= Seq::<(Seq<char>, int, int)>::empty());
    } else {
        lemma_punct_fold_rebuild(s, pieces, k - 1);
        let prev = punct_fold(s, pieces, k - 1);
        let p = pieces[k - 1];
        let piece = s.subrange(p.0, p.1);
        assert(pt.take(k).drop_last() =~= pt.take(k - 1));
        assert(pt.take(k).last() == (piece, p.0, p.1));
        let cur = punct_fold(s, pieces, k);
        if non_word_piece(piece) && prev.len() > 0 {
            let last = prev.last();
            assert(cur == prev.drop_last().push((last.0 + piece, last.1, p.1)));
            assert(cur.drop_last() =~= prev.drop_last());
            assert(prev.drop_last().push(last) =~= prev);
            assert(joined_texts(prev) == joined_texts(prev.drop_last()) + last.0);
            assert(joined_texts(cur) == joined_texts(prev.drop_last()) + (last.0 + piece));
            assert(joined_texts(prev.drop_last()) + (last.0 + piece) =~= joined_texts(
                prev.drop_last(),
            ) + last.0 + piece);
            assert forall|j: int| 0 <= j < cur.len() implies (#[trigger] cur[j]).0.len() > 0 by {
                if j < cur.len() - 1 {
                    assert(cur[j] == prev[j]);
                }
            }
        } else {
            assert(cur == prev.push((piece, p.0, p.1)));
            assert(cur.drop_last() =~= prev);
            assert forall|j: int| 0 <= j < cur.len() implies (#[trigger] cur[j]).0.len() > 0 by {
                if j < cur.len() - 1 {
                    assert(cur[j] == prev[j]);
                }
            }
        }
    }
}

proof fn lemma_attach_fold_rebuild(toks: Seq<(Seq<char>, int, int)>, k: int)
    requires
        0 <= k <= toks.len(),
        forall|j: int| 0 <= j < toks.len() ==> (#[trigger] toks[j]).0.len() > 0,
    ensures
        joined_texts(attach_fold(toks, k)) == joined_texts(toks.take(k)),
        forall|j: int|
            0 <= j < attach_fold(toks, k).len() ==> (#[trigger] attach_fold(toks, k)[j]).0.len() > 0,
    decreases k,
{
    if k == 0 {
        assert(toks.take(0) =~= Seq::<(Seq<char>, int, int)>::empty());
    } else {
        lemma_attach_fold_rebuild(toks, k - 1);
        let prev = attach_fold(toks, k - 1);
        let t = toks[k - 1];
        assert(toks.take(k).drop_last() =~= toks.take(k - 1));
        assert(toks.take(k).last() == t);
        let cur = attach_fold(toks, k);
        if prev.len() > 0 && is_single_attach(t.0) && ends_kana(prev.last().0) {
            let last = prev.last();
            assert(cur == prev.drop_last().push((last.0 + t.0, last.1, t.2)));
            assert(cur.drop_last() =~= prev.drop_last());
            assert(joined_texts(prev) == joined_texts(prev.drop_last()) + last.0);
            assert(joined_texts(prev.drop_last()) + (last.0 + t.0) =~= joined_texts(
                prev.drop_last(),
            ) + last.0 + t.0);
            assert forall|j: int| 0 <= j < cur.len() implies (#[trigger] cur[j]).0.len() > 0 by {
                if j < cur.len() - 1 {
                    assert(cur[j] == prev[j]);
                }
            }
        } else {
            assert(cur == prev.push(t));
            assert(cur.drop_last() =~= prev);
            assert forall|j: int| 0 <= j < cur.len() implies (#[trigger] cur[j]).0.len() > 0 by {
                if j < cur.len() - 1 {
                    assert(cur[j] == prev[j]);
                }
            }
        }
    }
}

/// The tokens of a lyric text rebuild it: each token's text is non-empty,
/// and the texts, concatenated in order, are the text without its white
/// space (no char is lost, none repeats).
pub proof fn lemma_tokens_rebuild_the_text(s: Seq<char>)
    ensures
        forall|k: int| 0 <= k < spec_tokenize(s).len() ==> (#[trigger] spec_tokenize(s)[k]).0.len() > 0,
        joined_texts(spec_tokenize(s)) == non_space_from(s, 0),
{
    let pieces = pieces_from(s, 0);
    lemma_pieces_rebuild(s, 0);
    lemma_pieces_in_order(s, 0);
    lemma_punct_fold_rebuild(s, pieces, pieces.len() as int);
    assert(piece_tokens(s, pieces).take(pieces.len() as int) =~= piece_tokens(s, pieces));
    let toks = punct_fold(s, pieces, pieces.len() as int);
    lemma_attach_fold_rebuild(toks, toks.len() as int);
    assert(toks.take(toks.len() as int) =~= toks);
}

/// An ASCII letter or digit.
pub open spec fn ascii_alnum(c: char) -> bool {
    ('a' <= c && c <= 'z') || ('A' <= c && c <= 'Z') || ('0' <= c && c <= '9')
}

/// No ASCII letter or digit run is cut at `x`: `x` is not strictly inside
/// `s` between two ASCII letters or digits.
pub open spec fn cut_keeps_words(s: Seq<char>, x: int) -> bool {
    x <= 0 || x >= s.len() || !(ascii_alnum(s[x - 1]) && ascii_alnum(s[x]))
}

proof fn lemma_latin_word_end_stops(s: Seq<char>, i: int)
    requires
        0 <= i <= s.len(),
    ensures
        latin_word_end(s, i) < s.len() ==> !is_latin(s[latin_word_end(s, i)]),
    decreases s.len() - i,
{
    lemma_latin_run_end(s, i);
    let j = latin_run_end(s, i);
    if i < j && j + 1 < s.len() && (s[j] == '\'' || s[j] == '-') && is_latin(s[j + 1]) {
        lemma_latin_word_end_stops(s, j + 1);
    }
}

proof fn lemma_pieces_keep_words(s: Seq<char>, i: int)
    requires
        0 <= i <= s.len(),
        cut_keeps_words(s, i),
    ensures
        forall|k: int|
            0 <= k < pieces_from(s, i).len() ==> cut_keeps_words(s, (#[trigger] pieces_from(s, i)[k]).0)
                && cut_keeps_words(s, pieces_from(s, i)[k].1),
    decreases s.len() - i,
{
    if i < s.len() {
        if white_space(s[i]) {
            lemma_pieces_keep_words(s, i + 1);
            assert(pieces_from(s, i) == pieces_from(s, i + 1));
        } else {
            lemma_piece_end(s, i);
            let e = piece_end(s, i);
            if is_latin(s[i]) {
                lemma_latin_word_end_stops(s, i);
            }
            assert(cut_keeps_words(s, e));
            lemma_pieces_keep_words(s, e);
            let p = pieces_from(s, i);
            let rest = pieces_from(s, e);
            assert(p == seq![(i, e)] + rest);
            assert forall|k: int| 0 <= k < p.len() implies cut_keeps_words(s, (#[trigger] p[k]).0)
                && cut_keeps_words(s, p[k].1) by {
                if k > 0 {
                    assert(p[k] == rest[k - 1]);
                }
            }
        }
    }
}

proof fn lemma_punct_fold_keeps_words(s: Seq<char>, pieces: Seq<(int, int)>, k: int)
    requires
        0 <= k <= pieces.len(),
        forall|j: int|
            0 <= j < pieces.len() ==> cut_keeps_words(s, (#[trigger] pieces[j]).0) && cut_keeps_words(
                s,
                pieces[j].1,
            ),
    ensures
        forall|j: int|
            0 <= j < punct_fold(s, pieces, k).len() ==> cut_keeps_words(
                s,
                (#[trigger] punct_fold(s, pieces, k)[j]).1,
            ) && cut_keeps_words(s, punct_fold(s, pieces, k)[j].2),
    decreases k,
{
    if k > 0 {
        lemma_punct_fold_keeps_words(s, pieces, k - 1);
        let prev = punct_fold(s, pieces, k - 1);
        let cur = punct_fold(s, pieces, k);
        let p = pieces[k - 1];
        assert forall|j: int| 0 <= j < cur.len() implies cut_keeps_words(s, (#[trigger] cur[j]).1)
            && cut_keeps_words(s, cur[j].2) by {
            if j < cur.len() - 1 {
                assert(cur[j] == prev[j]);
            } else if prev.len() > 0 && non_word_piece(s.subrange(p.0, p.1)) {
                assert(cur[j].1 == prev.last().1);
                assert(prev.last() == prev[prev.len() - 1]);
            }
        }
    }
}

proof fn lemma_attach_fold_keeps_words(s: Seq<char>, toks: Seq<(Seq<char>, int, int)>, k: int)
    requires
        0 <= k <= toks.len(),
        forall|j: int|
            0 <= j < toks.len() ==> cut_keeps_words(s, (#[trigger] toks[j]).1) && cut_keeps_words(
                s,
                toks[j].2,
            ),
    ensures
        forall|j: int|
            0 <= j < attach_fold(toks, k).len() ==> cut_keeps_words(
                s,
                (#[trigger] attach_fold(toks, k)[j]).1,
            ) && cut_keeps_words(s, attach_fold(toks, k)[j].2),
    decreases k,
{
    if k > 0 {
        lemma_attach_fold_keeps_words(s, toks, k - 1);
        let prev = attach_fold(toks, k - 1);
        let cur = attach_fold(toks, k);
        assert forall|j: int| 0 <= j < cur.len() implies cut_keeps_words(s, (#[trigger] cur[j]).1)
            && cut_keeps_words(s, cur[j].2) by {
            if j < cur.len() - 1 {
                assert(cur[j] == prev[j]);
            } else if prev.len() > 0 && is_single_attach(toks[k - 1].0) && ends_kana(prev.last().0) {
                assert(prev.last() == prev[prev.len() - 1]);
            }
        }
    }
}

/// Words stay whole: a run of ASCII letters and digits (such as `24`, `mp3`
/// or `Hello`) is never cut by a token boundary, so no token starts or ends
/// between two adjacent ASCII letters or digits.
pub proof fn lemma_tokens_keep_ascii_words(s: Seq<char>)
    ensures
        forall|k: int|
            0 <= k < spec_tokenize(s).len() ==> cut_keeps_words(s, (#[trigger] spec_tokenize(s)[k]).1)
                && cut_keeps_words(s, spec_tokenize(s)[k].2),
{
    let pieces = pieces_from(s, 0);
    lemma_pieces_keep_words(s, 0);
    lemma_punct_fold_keeps_words(s, pieces, pieces.len() as int);
    let toks = punct_fold(s, pieces, pieces.len() as int);
    lemma_attach_fold_keeps_words(s, toks, toks.len() as int);
}

} // verus!
