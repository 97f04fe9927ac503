//! Kana to mora segmentation.
//!
//! A base kana followed by a small vowel or small y-kana is one mora
//! (きゃ, ファ, ティ); the long-vowel mark ー, the sokuon っ and the hatsuon ん
//! are each a mora of their own; every other kana is one mora. Characters that
//! are not kana (kanji, Latin, punctuation) produce no mora and are skipped.

use vstd::prelude::*;
use crate::text::{chars_of, string_of_range};

verus! {

/// A mora found in a text; `char_start..char_end` indexes the chars of that text.
#[derive(Debug, Clone, PartialEq)]
pub struct ParsedMora {
    pub kana: String,
    pub char_start: usize,
    pub char_end: usize,
}

/// Small vowel kana: ぁぃぅぇぉ and ァィゥェォ.
pub open spec fn spec_is_small_vowel(c: char) -> bool {
    c == '\u{3041}' || c == '\u{3043}' || c == '\u{3045}' || c == '\u{3047}' || c == '\u{3049}'
        || c == '\u{30A1}' || c == '\u{30A3}' || c == '\u{30A5}' || c == '\u{30A7}'
        || c == '\u{30A9}'
}

/// Small y-kana: ゃゅょ and ャュョ.
pub open spec fn spec_is_y_small(c: char) -> bool {
    c == '\u{3083}' || c == '\u{3085}' || c == '\u{3087}' || c == '\u{30E3}' || c == '\u{30E5}'
        || c == '\u{30E7}'
}

/// A small kana that joins the preceding kana into one mora.
pub open spec fn spec_is_combining_kana(c: char) -> bool {
    spec_is_small_vowel(c) || spec_is_y_small(c)
}

/// Hiragana (U+3041..U+309F) or katakana (U+30A0..U+30FF).
pub open spec fn spec_is_kana_char(c: char) -> bool {
    ('\u{3041}' <= c && c <= '\u{309F}') || ('\u{30A0}' <= c && c <= '\u{30FF}')
}

/// The long-vowel mark ー.
pub open spec fn spec_is_chionpu(c: char) -> bool {
    c == '\u{30FC}'
}

/// The end of the mora that starts at `i` (which holds a kana): one past the
/// following combining kana when the kana at `i` can take one, else `i + 1`.
pub open spec fn mora_end_at(s: Seq<char>, i: int) -> int {
    if spec_is_kana_char(s[i]) && !spec_is_combining_kana(s[i]) && s[i] != '\u{3063}'
        && i + 1 < s.len() && spec_is_combining_kana(s[i + 1]) {
        i + 2
    } else {
        i + 1
    }
}

/// The char spans of the moras of `s[i..]`, in order.
pub open spec fn mora_spans_from(s: Seq<char>, i: int) -> Seq<(int, int)>
    decreases s.len() - i,
{
    if i < 0 || i >= s.len() {
        Seq::empty()
    } else if !spec_is_kana_char(s[i]) && !spec_is_chionpu(s[i]) {
        mora_spans_from(s, i + 1)
    } else {
        let end = mora_end_at(s, i);
        seq![(i, end)] + mora_spans_from(s, end)
    }
}

/// The char spans of the moras of `s`, in order.
pub open spec fn mora_spans(s: Seq<char>) -> Seq<(int, int)> {
    mora_spans_from(s, 0)
}

/// The number of moras of `s`.
pub open spec fn mora_count(s: Seq<char>) -> nat {
    mora_spans(s).len()
}

/// The kana of each mora of `s`.
pub open spec fn mora_kanas(s: Seq<char>) -> Seq<Seq<char>> {
    mora_spans(s).map_values(|p: (int, int)| s.subrange(p.0, p.1))
}

/// `moras` lists, in order, exactly the moras of `s`.
pub open spec fn moras_of(moras: Seq<ParsedMora>, s: Seq<char>) -> bool {
    let spans = mora_spans(s);
    &&& moras.len() == spans.len()
    &&& forall|k: int|
        0 <= k < moras.len() ==> {
            &&& (#[trigger] moras[k]).char_start == spans[k].0
            &&& moras[k].char_end == spans[k].1
            &&& moras[k].kana@ == s.subrange(spans[k].0, spans[k].1)
        }
}

pub fn is_small_vowel(c: char) -> (r: bool)
    ensures
        r == spec_is_small_vowel(c),
{
    c == '\u{3041}' || c == '\u{3043}' || c == '\u{3045}' || c == '\u{3047}' || c == '\u{3049}'
        || c == '\u{30A1}' || c == '\u{30A3}' || c == '\u{30A5}' || c == '\u{30A7}'
        || c == '\u{30A9}'
}

pub fn is_y_small(c: char) -> (r: bool)
    ensures
        r == spec_is_y_small(c),
{
    c == '\u{3083}' || c == '\u{3085}' || c == '\u{3087}' || c == '\u{30E3}' || c == '\u{30E5}'
        || c == '\u{30E7}'
}

pub fn is_combining_kana(c: char) -> (r: bool)
    ensures
        r == spec_is_combining_kana(c),
{
    is_small_vowel(c) || is_y_small(c)
}

/// Whether `c` is hiragana or katakana.
pub fn is_kana_char(c: char) -> (r: bool)
    ensures
        r == spec_is_kana_char(c),
{
    ('\u{3041}' <= c && c <= '\u{309F}') || ('\u{30A0}' <= c && c <= '\u{30FF}')
}

pub fn is_chionpu(c: char) -> (r: bool)
    ensures
        r == spec_is_chionpu(c),
{
    c == '\u{30FC}'
}

/// Every mora span of `s[i..]` lies inside `i..s.len()`, is non-empty, and the
/// spans come in increasing, non-overlapping order.
pub proof fn lemma_mora_spans_bounds(s: Seq<char>, i: int)
    requires
        0 <= i,
    ensures
        forall|k: int|
            0 <= k < mora_spans_from(s, i).len() ==> {
                &&& i <= (#[trigger] mora_spans_from(s, i)[k]).0
                &&& mora_spans_from(s, i)[k].0 < mora_spans_from(s, i)[k].1
                &&& mora_spans_from(s, i)[k].1 <= s.len()
                &&& mora_spans_from(s, i)[k].1 <= mora_spans_from(s, i)[k].0 + 2
            },
        forall|k: int, l: int|
            0 <= k < l < mora_spans_from(s, i).len() ==> (#[trigger] mora_spans_from(s, i)[k]).1
                <= (#[trigger] mora_spans_from(s, i)[l]).0,
    decreases s.len() - i,
{
    if i >= s.len() {
    } else if !spec_is_kana_char(s[i]) && !spec_is_chionpu(s[i]) {
        lemma_mora_spans_bounds(s, i + 1);
    } else {
        let end = mora_end_at(s, i);
        lemma_mora_spans_bounds(s, end);
        let rest = mora_spans_from(s, end);
        let all = mora_spans_from(s, i);
        assert(all == seq![(i, end)] + rest);
        assert forall|k: int| 0 <= k < all.len() implies {
            &&& i <= (#[trigger] all[k]).0
            &&& all[k].0 < all[k].1
            &&& all[k].1 <= s.len()
            &&& all[k].1 <= all[k].0 + 2
        } by {
            if k > 0 {
                assert(all[k] == rest[k - 1]);
            }
        }
        assert forall|k: int, l: int| 0 <= k < l < all.len() implies (#[trigger] all[k]).1
            <= (#[trigger] all[l]).0 by {
            assert(all[l] == rest[l - 1]);
            if k > 0 {
                assert(all[k] == rest[k - 1]);
            }
        }
    }
}

/// Splits kana text into moras. Characters that are not kana are skipped and
/// produce no mora.
pub fn parse_kana_moras(text: &str) -> (moras: Vec<ParsedMora>)
    ensures
        moras_of(moras@, text@),
{
    let char_list = chars_of(text);
    let ghost s = text@;
    let mut moras: Vec<ParsedMora> = Vec::new();
    let mut ci: usize = 0;
    proof {
        lemma_mora_spans_bounds(s, 0);
    }
    while ci < char_list.len()
        invariant
            char_list@ == s,
            ci <= s.len(),
            mora_spans(s) == mora_spans_from(s, 0),
            mora_spans_from(s, 0) =~= ({
                let done = moras@.map_values(|m: ParsedMora| (m.char_start as int, m.char_end as int));
                done + mora_spans_from(s, ci as int)
            }),
            forall|k: int|
                0 <= k < moras@.len() ==> (#[trigger] moras@[k]).kana@ == s.subrange(
                    moras@[k].char_start as int,
                    moras@[k].char_end as int,
                ),
        decreases char_list.len() - ci,
    {
        let c = char_list[ci];
        if !is_kana_char(c) && !is_chionpu(c) {
            ci += 1;
            continue;
        }
        let start = ci;
        let mut end = ci + 1;
        if (is_kana_char(c) && !is_combining_kana(c) && c != '\u{3063}') && end < char_list.len()
            && is_combining_kana(char_list[end]) {
            end += 1;
        }
        assert(end == mora_end_at(s, start as int));
        let kana = string_of_range(&char_list, start, end);
        let ghost old_moras = moras@;
        moras.push(ParsedMora { kana, char_start: start, char_end: end });
        assert(moras@.map_values(|m: ParsedMora| (m.char_start as int, m.char_end as int))
            =~= old_moras.map_values(|m: ParsedMora| (m.char_start as int, m.char_end as int))
            + seq![(start as int, end as int)]);
        ci = end;
    }
    proof {
        let done = moras@.map_values(|m: ParsedMora| (m.char_start as int, m.char_end as int));
        assert(mora_spans_from(s, ci as int) == Seq::<(int, int)>::empty());
        assert(mora_spans(s) =~= done);
        assert forall|k: int| 0 <= k < moras@.len() implies {
            &&& (#[trigger] moras@[k]).char_start == mora_spans(s)[k].0
            &&& moras@[k].char_end == mora_spans(s)[k].1
            &&& moras@[k].kana@ == s.subrange(mora_spans(s)[k].0, mora_spans(s)[k].1)
        } by {
            assert(done[k] == (moras@[k].char_start as int, moras@[k].char_end as int));
        }
    }
    moras
}

/// A text of `n` chars has at most `n` moras.
pub proof fn lemma_mora_count_bound(s: Seq<char>)
    ensures
        mora_count(s) <= s.len(),
{
    lemma_mora_spans_from_len(s, 0);
}

proof fn lemma_mora_spans_from_len(s: Seq<char>, i: int)
    requires
        0 <= i,
    ensures
        i <= s.len() ==> mora_spans_from(s, i).len() <= s.len() - i,
        i > s.len() ==> mora_spans_from(s, i).len() == 0,
    decreases s.len() - i,
{
    if i < s.len() {
        if !spec_is_kana_char(s[i]) && !spec_is_chionpu(s[i]) {
            lemma_mora_spans_from_len(s, i + 1);
        } else {
            lemma_mora_spans_from_len(s, mora_end_at(s, i));
        }
    }
}

/// Some span of `spans` holds index `j`.
pub open spec fn covers(spans: Seq<(int, int)>, j: int) -> bool {
    exists|k: int| 0 <= k < spans.len() && (#[trigger] spans[k]).0 <= j < spans[k].1
}

/// A two-char mora is a kana that is neither small nor っ, followed by a
/// combining small kana.
pub open spec fn two_char_moras_well_formed(s: Seq<char>, spans: Seq<(int, int)>) -> bool {
    forall|k: int|
        0 <= k < spans.len() && (#[trigger] spans[k]).1 == spans[k].0 + 2 ==> {
            let a = spans[k].0;
            &&& spec_is_kana_char(s[a])
            &&& !spec_is_combining_kana(s[a])
            &&& s[a] != '\u{3063}'
            &&& spec_is_combining_kana(s[a + 1])
        }
}

proof fn lemma_moras_cover_kana_from(s: Seq<char>, i: int)
    requires
        0 <= i <= s.len(),
    ensures
        forall|j: int| i <= j < s.len() ==> (covers(mora_spans_from(s, i), j) <==> spec_is_kana_char(
            #[trigger] s[j],
        )),
        two_char_moras_well_formed(s, mora_spans_from(s, i)),
    decreases s.len() - i,
{
    let sp = mora_spans_from(s, i);
    if i < s.len() {
        if !spec_is_kana_char(s[i]) && !spec_is_chionpu(s[i]) {
            lemma_moras_cover_kana_from(s, i + 1);
            lemma_mora_spans_bounds(s, i + 1);
            assert(sp == mora_spans_from(s, i + 1));
            if covers(sp, i) {
                let k = choose|k: int| 0 <= k < sp.len() && (#[trigger] sp[k]).0 <= i < sp[k].1;
                assert(i + 1 <= sp[k].0);
            }
        } else {
            let end = mora_end_at(s, i);
            let rest = mora_spans_from(s, end);
            lemma_moras_cover_kana_from(s, end);
            lemma_mora_spans_bounds(s, end);
            assert(sp == seq![(i, end)] + rest);
            assert(sp[0] == (i, end));
            assert forall|j: int| i <= j < s.len() implies (covers(sp, j) <==> spec_is_kana_char(
                #[trigger] s[j],
            )) by {
                if j < end {
                    assert(sp[0].0 <= j < sp[0].1);
                } else {
                    if covers(sp, j) {
                        let k = choose|k: int| 0 <= k < sp.len() && (#[trigger] sp[k]).0 <= j
                            < sp[k].1;
                        assert(k > 0);
                        assert(sp[k] == rest[k - 1]);
                        assert(covers(rest, j));
                    }
                    if covers(rest, j) {
                        let k = choose|k: int| 0 <= k < rest.len() && (#[trigger] rest[k]).0 <= j
                            < rest[k].1;
                        assert(sp[k + 1] == rest[k]);
                    }
                }
            }
            assert forall|k: int|
                0 <= k < sp.len() && (#[trigger] sp[k]).1 == sp[k].0 + 2 implies {
                let a = sp[k].0;
                &&& spec_is_kana_char(s[a])
                &&& !spec_is_combining_kana(s[a])
                &&& s[a] != '\u{3063}'
                &&& spec_is_combining_kana(s[a + 1])
            } by {
                if k > 0 {
                    assert(sp[k] == rest[k - 1]);
                }
            }
        }
    }
}

/// The moras of `s` hold exactly its kana chars (ー included): a char lies in
/// a mora exactly when it is kana. A two-char mora is a kana that is neither
/// small nor っ, followed by one of ぁぃぅぇぉゃゅょァィゥェォャュョ.
pub proof fn lemma_moras_cover_the_kana(s: Seq<char>)
    ensures
        forall|j: int| 0 <= j < s.len() ==> (covers(mora_spans(s), j) <==> spec_is_kana_char(
            #[trigger] s[j],
        )),
        two_char_moras_well_formed(s, mora_spans(s)),
{
    lemma_moras_cover_kana_from(s, 0);
}

/// The small kana that join the kana before them into one mora, listed:
/// ぁぃぅぇぉ, ァィゥェォ, ゃゅょ and ャュョ.
pub open spec fn joining_small_kana(c: char) -> bool {
    c == 'ぁ' || c == 'ぃ' || c == 'ぅ' || c == 'ぇ' || c == 'ぉ' || c == 'ァ' || c == 'ィ' || c
        == 'ゥ' || c == 'ェ' || c == 'ォ' || c == 'ゃ' || c == 'ゅ' || c == 'ょ' || c == 'ャ' || c
        == 'ュ' || c == 'ョ'
}

proof fn lemma_mora_span_ends(s: Seq<char>, i: int)
    requires
        0 <= i <= s.len(),
    ensures
        forall|k: int|
            0 <= k < mora_spans_from(s, i).len() ==> (#[trigger] mora_spans_from(s, i)[k]).1
                == mora_end_at(s, mora_spans_from(s, i)[k].0),
    decreases s.len() - i,
{
    if i < s.len() {
        if !spec_is_kana_char(s[i]) && !spec_is_chionpu(s[i]) {
            lemma_mora_span_ends(s, i + 1);
            assert(mora_spans_from(s, i) == mora_spans_from(s, i + 1));
        } else {
            let end = mora_end_at(s, i);
            assert(i < end <= s.len());
            lemma_mora_span_ends(s, end);
            let rest = mora_spans_from(s, end);
            let sp = mora_spans_from(s, i);
            assert(sp == seq![(i, end)] + rest);
            assert forall|k: int| 0 <= k < sp.len() implies (#[trigger] sp[k]).1 == mora_end_at(
                s,
                sp[k].0,
            ) by {
                if k > 0 {
                    assert(sp[k] == rest[k - 1]);
                }
            }
        }
    }
}

/// A small kana joins the kana before it: wherever a mora starts at a
/// hiragana or katakana other than っ and other than a small joining kana,
/// and the next char is one of ぁぃぅぇぉァィゥェォゃゅょャュョ, that mora is
/// the two chars together (ウォ, きゃ, ファ are one mora each).
pub proof fn lemma_small_kana_join(s: Seq<char>)
    ensures
        forall|k: int|
            0 <= k < mora_spans(s).len() ==> {
                let a = (#[trigger] mora_spans(s)[k]).0;
                (a + 1 < s.len() && (('\u{3041}' <= s[a] && s[a] <= '\u{309F}') || ('\u{30A0}'
                    <= s[a] && s[a] <= '\u{30FF}')) && s[a] != 'っ' && !joining_small_kana(s[a])
                    && joining_small_kana(s[a + 1])) ==> mora_spans(s)[k].1 == a + 2
            },
{
    lemma_mora_span_ends(s, 0);
    lemma_mora_spans_bounds(s, 0);
}

} // verus!
