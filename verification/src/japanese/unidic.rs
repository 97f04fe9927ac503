//! Readings from the UniDic dictionary, segmented by `lindera`.
//!
//! The pronunciation field of a token is preferred over its reading field;
//! katakana is turned into hiragana for the mora parser, and byte offsets are
//! turned into char offsets.

use vstd::prelude::*;
use crate::japanese::mora::{mora_count, parse_kana_moras};
use crate::japanese::phoneme::spec_katakana_to_hiragana;
use crate::japanese::reading::{
    is_kana_class, spans_view, JapaneseReadingProvider, ReadingConfidence, ReadingSpan,
    ReadingSpanModel,
};
use crate::text::{chars_of, push_char, strings_view};
use lindera::mode::Mode;
use lindera::segmenter::Segmenter;
use std::borrow::Cow;

verus! {

broadcast use vstd::string::group_string_axioms;

/// Katakana to hiragana, char by char (U+30A1..=U+30F6 to U+3041..=U+3096).
pub open spec fn spec_hiragana_of(s: Seq<char>) -> Seq<char> {
    s.map_values(|c: char| spec_katakana_to_hiragana(c))
}

/// Turns the katakana of `text` into hiragana; other chars stay as they are.
pub fn katakana_to_hiragana(text: &str) -> (r: String)
    ensures
        r@ == spec_hiragana_of(text@),
{
    let chars = chars_of(text);
    let mut out = String::new();
    let mut i: usize = 0;
    while i < chars.len()
        invariant
            chars@ == text@,
            i <= chars@.len(),
            out@ == spec_hiragana_of(text@.take(i as int)),
        decreases chars.len() - i,
    {
        let h = crate::japanese::phoneme::katakana_to_hiragana(chars[i]);
        push_char(&mut out, h);
        proof {
            assert(text@.take(i + 1) == text@.take(i as int).push(text@[i as int]));
        }
        i += 1;
    }
    proof {
        assert(text@.take(i as int) == text@);
    }
    out
}

/// One token of a UniDic segmentation: its surface, its byte range in the
/// segmented text and its feature fields.
#[derive(Debug, Clone)]
pub struct UnidicToken {
    pub surface: String,
    pub byte_start: usize,
    pub byte_end: usize,
    pub details: Vec<String>,
}

impl View for UnidicToken {
    type V = (Seq<char>, int, int, Seq<Seq<char>>);

    open spec fn view(&self) -> (Seq<char>, int, int, Seq<Seq<char>>) {
        (self.surface@, self.byte_start as int, self.byte_end as int, strings_view(self.details@))
    }
}

/// The models of a sequence of tokens.
pub open spec fn unidic_tokens_view(v: Seq<UnidicToken>) -> Seq<(Seq<char>, int, int, Seq<Seq<char>>)> {
    v.map_values(|t: UnidicToken| t@)
}

/// The tokens that `lindera` gives for `text` with its embedded UniDic
/// dictionary in normal mode: surface, byte range and details of each.
pub uninterp spec fn unidic_segmentation(text: Seq<char>) -> Seq<(Seq<char>, int, int, Seq<Seq<char>>)>;

/// `lindera`'s UniDic segmentation: `lindera::dictionary::load_dictionary`
/// of the embedded UniDic dictionary, `Segmenter::new` in normal mode without
/// a user dictionary, then `Segmenter::segment` and `Token::details` on each
/// token. Claimed: a successful result is `unidic_segmentation(text@)`, a
/// function of the text alone once the dictionary is fixed. Nothing is claimed
/// of when it fails: the `embedded` scheme exists only when `lindera` is
/// built with an `embed-*` feature (`embed-unidic` here), and without one
/// `load_dictionary` always returns an error.
#[verifier::external_body]
fn unidic_segment(text: &str) -> (r: Result<Vec<UnidicToken>, String>)
    ensures
        r matches Ok(t) ==> unidic_tokens_view(t@) == unidic_segmentation(text@),
{
    let dictionary = lindera::dictionary::load_dictionary("embedded://unidic")
        .map_err(|e| format!("加载 UniDic 字典数据失败: {}", e))?;
    let segmenter = Segmenter::new(Mode::Normal, dictionary, None);
    let mut tokens = segmenter.segment(Cow::Borrowed(text))
        .map_err(|e| format!("UniDic 分词失败: {}", e))?;
    Ok(tokens.iter_mut().map(|t| UnidicToken {
        surface: t.surface.to_string(),
        byte_start: t.byte_start,
        byte_end: t.byte_end,
        details: t.details().iter().map(|d| d.to_string()).collect(),
    }).collect())
}

/// The number of bytes of the UTF-8 encoding of `c`.
pub open spec fn utf8_width(c: char) -> int {
    let v = c as u32;
    if v <= 0x7F {
        1
    } else if v <= 0x7FF {
        2
    } else if v <= 0xFFFF {
        3
    } else {
        4
    }
}

/// The byte offset of char `i` of `s` in the UTF-8 encoding of `s`.
pub open spec fn byte_offset(s: Seq<char>, i: int) -> int
    decreases i,
{
    if i <= 0 {
        0
    } else {
        byte_offset(s, i - 1) + utf8_width(s[i - 1])
    }
}

/// The first char of `s` from `i` on that starts at or after byte `b`
/// (`s.len()` when none does).
pub open spec fn char_at_byte_from(s: Seq<char>, b: int, i: int) -> int
    decreases s.len() - i,
{
    if i >= s.len() || byte_offset(s, i) >= b {
        i
    } else {
        char_at_byte_from(s, b, i + 1)
    }
}

/// Byte offset `b` of the text `s` as a char offset: the first char that
/// starts at or after it; `None` past the end of the encoding.
pub open spec fn char_of_byte(s: Seq<char>, b: int) -> Option<int> {
    if 0 <= b <= byte_offset(s, s.len() as int) {
        Some(char_at_byte_from(s, b, 0))
    } else {
        None
    }
}

/// Byte offsets grow with char offsets, strictly.
pub proof fn lemma_byte_offset_monotonic(s: Seq<char>, i: int, j: int)
    requires
        0 <= i <= j <= s.len(),
    ensures
        byte_offset(s, i) + (j - i) <= byte_offset(s, j),
    decreases j - i,
{
    if i < j {
        lemma_byte_offset_monotonic(s, i, j - 1);
    }
}

/// A byte after every char start before `i`, and not after the start of
/// char `i`, belongs to char `i`.
proof fn lemma_char_at_byte(s: Seq<char>, b: int, j: int, i: int)
    requires
        0 <= j <= i <= s.len(),
        i > 0 ==> byte_offset(s, i - 1) < b,
        i < s.len() ==> b <= byte_offset(s, i),
    ensures
        char_at_byte_from(s, b, j) == i,
    decreases i - j,
{
    if j < i {
        lemma_byte_offset_monotonic(s, j, i - 1);
        lemma_char_at_byte(s, b, j + 1, i);
    }
}

fn utf8_width_of(c: char) -> (w: usize)
    ensures
        w == utf8_width(c),
{
    let v = c as u32;
    if v <= 0x7F {
        1
    } else if v <= 0x7FF {
        2
    } else if v <= 0xFFFF {
        3
    } else {
        4
    }
}

/// `table[b]` is the char offset of byte `b` of the UTF-8 encoding of
/// `chars`, for `b` from 0 to the length of the encoding.
fn char_of_byte_table(chars: &[char]) -> (table: Vec<usize>)
    ensures
        table@.len() == byte_offset(chars@, chars@.len() as int) + 1,
        forall|b: int| 0 <= b < table@.len() ==> #[trigger] table@[b] == char_at_byte_from(chars@, b, 0),
{
    let ghost s = chars@;
    let n = chars.len();
    let mut table: Vec<usize> = Vec::new();
    let mut ci: usize = 0;
    while ci < n
        invariant
            chars@ == s,
            n == s.len(),
            ci <= n,
            table@.len() == byte_offset(s, ci as int),
            forall|b: int| 0 <= b < table@.len() ==> #[trigger] table@[b] == char_at_byte_from(s, b, 0),
        decreases n - ci,
    {
        let w = utf8_width_of(chars[ci]);
        proof {
            lemma_char_at_byte(s, byte_offset(s, ci as int), 0, ci as int);
        }
        table.push(ci);
        let mut k: usize = 1;
        while k < w
            invariant
                chars@ == s,
                n == s.len(),
                ci < n,
                1 <= k <= w,
                w == utf8_width(s[ci as int]),
                table@.len() == byte_offset(s, ci as int) + k,
                forall|b: int| 0 <= b < table@.len() ==> #[trigger] table@[b] == char_at_byte_from(s, b, 0),
            decreases w - k,
        {
            proof {
                lemma_char_at_byte(s, table@.len() as int, 0, ci + 1);
            }
            table.push(ci + 1);
            k += 1;
        }
        ci += 1;
    }
    proof {
        lemma_char_at_byte(s, byte_offset(s, n as int), 0, n as int);
    }
    table.push(n);
    table
}

/// `a + b`, saturated at `usize::MAX`.
pub open spec fn sat_add(a: int, b: int) -> int {
    if a + b > usize::MAX {
        usize::MAX as int
    } else {
        a + b
    }
}

/// Feature field `i`, or `*` when there is none.
pub open spec fn detail_field(d: Seq<Seq<char>>, i: int) -> Seq<char> {
    if 0 <= i < d.len() {
        d[i]
    } else {
        seq!['*']
    }
}

/// A field that holds a value: neither empty nor `*`.
pub open spec fn field_is_set(f: Seq<char>) -> bool {
    f.len() > 0 && f != seq!['*']
}

/// Every char of `s` is kana or ー.
pub open spec fn all_kana_class(s: Seq<char>) -> bool {
    forall|i: int| 0 <= i < s.len() ==> is_kana_class(#[trigger] s[i])
}

/// The pronunciation of a token: a kana surface reads as itself; else the
/// pronunciation field (9), else the lemma reading field (6), in hiragana.
pub open spec fn token_pronunciation(t: (Seq<char>, int, int, Seq<Seq<char>>)) -> Seq<char> {
    if all_kana_class(t.0) {
        spec_hiragana_of(t.0)
    } else if field_is_set(detail_field(t.3, 9)) {
        spec_hiragana_of(detail_field(t.3, 9))
    } else if field_is_set(detail_field(t.3, 6)) {
        spec_hiragana_of(detail_field(t.3, 6))
    } else {
        Seq::empty()
    }
}

/// The reading of a token: a kana surface reads as itself; else the lemma
/// reading field (6) in hiragana, else the pronunciation.
pub open spec fn token_reading(t: (Seq<char>, int, int, Seq<Seq<char>>)) -> Seq<char> {
    if all_kana_class(t.0) {
        spec_hiragana_of(t.0)
    } else if field_is_set(detail_field(t.3, 6)) {
        spec_hiragana_of(detail_field(t.3, 6))
    } else {
        token_pronunciation(t)
    }
}

/// The reading span of token `t` of the text `s`, whose moras are numbered
/// from `mora_start`.
pub open spec fn unidic_span(
    s: Seq<char>,
    t: (Seq<char>, int, int, Seq<Seq<char>>),
    mora_start: int,
) -> ReadingSpanModel {
    let pron = token_pronunciation(t);
    let reading = token_reading(t);
    let char_start = match char_of_byte(s, t.1) {
        Some(c) => c,
        None => 0,
    };
    let char_end = match char_of_byte(s, t.2) {
        Some(c) => c,
        None => sat_add(char_start, t.0.len() as int),
    };
    let phonetic = if pron.len() > 0 {
        pron
    } else {
        reading
    };
    ReadingSpanModel {
        surface: t.0,
        reading,
        pronunciation: pron,
        char_start,
        char_end,
        display_start: char_start,
        display_end: char_end,
        mora_start,
        mora_end: sat_add(mora_start, mora_count(phonetic) as int),
        confidence: if all_kana_class(t.0) {
            ReadingConfidence::Exact
        } else if pron.len() > 0 {
            ReadingConfidence::Dictionary
        } else {
            ReadingConfidence::Unknown
        },
    }
}

/// The spans of tokens `k..` of `toks`, moras numbered from `mora`.
pub open spec fn unidic_spans_from(
    s: Seq<char>,
    toks: Seq<(Seq<char>, int, int, Seq<Seq<char>>)>,
    k: int,
    mora: int,
) -> Seq<ReadingSpanModel>
    decreases toks.len() - k,
{
    if k < 0 || k >= toks.len() {
        Seq::empty()
    } else {
        let sp = unidic_span(s, toks[k], mora);
        seq![sp] + unidic_spans_from(s, toks, k + 1, sp.mora_end)
    }
}

/// The reading spans of the text `s` from its UniDic tokens `toks`, one per
/// token, with the moras of the line numbered in order.
pub open spec fn unidic_spans(s: Seq<char>, toks: Seq<(Seq<char>, int, int, Seq<Seq<char>>)>) -> Seq<
    ReadingSpanModel,
> {
    unidic_spans_from(s, toks, 0, 0)
}

fn is_field_set(f: &String) -> (r: bool)
    ensures
        r == field_is_set(f@),
{
    let chars = chars_of(f.as_str());
    if chars.len() == 0 {
        false
    } else if chars.len() == 1 && chars[0] == '*' {
        assert(f@ == seq!['*']);
        false
    } else {
        assert(f@.len() != 1 ==> f@ != seq!['*']);
        assert(f@.len() == 1 ==> f@[0] != (seq!['*'])[0]);
        true
    }
}

fn is_all_kana_class(chars: &[char]) -> (r: bool)
    ensures
        r == all_kana_class(chars@),
{
    let mut i: usize = 0;
    while i < chars.len()
        invariant
            i <= chars@.len(),
            forall|k: int| 0 <= k < i ==> is_kana_class(#[trigger] chars@[k]),
        decreases chars.len() - i,
    {
        let c = chars[i];
        if !(crate::japanese::mora::is_kana_char(c) || c == '\u{30FC}') {
            assert(!is_kana_class(chars@[i as int]));
            return false;
        }
        i += 1;
    }
    true
}

/// The reading spans of `text` from its UniDic tokens `tokens`: one span per
/// token, in order (see `unidic_span`).
pub fn unidic_reading_spans(text: &str, tokens: &[UnidicToken]) -> (spans: Vec<ReadingSpan>)
    ensures
        spans_view(spans@) == unidic_spans(text@, unidic_tokens_view(tokens@)),
{
    let ghost s = text@;
    let ghost toks = unidic_tokens_view(tokens@);
    let text_chars = chars_of(text);
    let table = char_of_byte_table(text_chars.as_slice());
    let mut spans: Vec<ReadingSpan> = Vec::new();
    let mut mora_offset: usize = 0;
    let mut k: usize = 0;
    while k < tokens.len()
        invariant
            text_chars@ == s,
            toks == unidic_tokens_view(tokens@),
            table@.len() == byte_offset(s, s.len() as int) + 1,
            forall|b: int| 0 <= b < table@.len() ==> #[trigger] table@[b] == char_at_byte_from(s, b, 0),
            k <= tokens.len(),
            spans_view(spans@) + unidic_spans_from(s, toks, k as int, mora_offset as int)
                == unidic_spans(s, toks),
        decreases tokens.len() - k,
    {
        let token = &tokens[k];
        let ghost t = toks[k as int];
        assert(t == token@);
        let surface_chars = chars_of(token.surface.as_str());
        let surface_is_kana = is_all_kana_class(surface_chars.as_slice());
        let char_start = if token.byte_start < table.len() {
            table[token.byte_start]
        } else {
            0
        };
        let char_end = if token.byte_end < table.len() {
            table[token.byte_end]
        } else {
            char_start.saturating_add(surface_chars.len())
        };
        let d = &token.details;
        let pron_set = d.len() > 9 && is_field_set(&d[9]);
        let read_set = d.len() > 6 && is_field_set(&d[6]);
        proof {
            assert(pron_set == field_is_set(detail_field(t.3, 9)));
            assert(read_set == field_is_set(detail_field(t.3, 6)));
        }
        let pronunciation = if surface_is_kana {
            katakana_to_hiragana(token.surface.as_str())
        } else if pron_set {
            katakana_to_hiragana(d[9].as_str())
        } else if read_set {
            katakana_to_hiragana(d[6].as_str())
        } else {
            String::new()
        };
        let reading = if surface_is_kana {
            katakana_to_hiragana(token.surface.as_str())
        } else if read_set {
            katakana_to_hiragana(d[6].as_str())
        } else {
            pronunciation.clone()
        };
        let confidence = if surface_is_kana {
            ReadingConfidence::Exact
        } else if pronunciation.unicode_len() > 0 {
            ReadingConfidence::Dictionary
        } else {
            ReadingConfidence::Unknown
        };
        let mora_start = mora_offset;
        let moras = if pronunciation.unicode_len() > 0 {
            parse_kana_moras(pronunciation.as_str())
        } else {
            parse_kana_moras(reading.as_str())
        };
        mora_offset = mora_offset.saturating_add(moras.len());
        let span = ReadingSpan {
            surface: token.surface.clone(),
            reading,
            pronunciation,
            char_start,
            char_end,
            display_start: char_start,
            display_end: char_end,
            mora_start,
            mora_end: mora_offset,
            confidence,
        };
        proof {
            assert(span@ == unidic_span(s, t, mora_start as int));
        }
        let ghost before = spans_view(spans@);
        spans.push(span);
        proof {
            assert(spans_view(spans@) == before.push(span@));
            assert(unidic_spans_from(s, toks, k as int, mora_start as int) == seq![span@]
                + unidic_spans_from(s, toks, k + 1, mora_offset as int));
            assert(spans_view(spans@) + unidic_spans_from(s, toks, k + 1, mora_offset as int)
                == before + unidic_spans_from(s, toks, k as int, mora_start as int));
        }
        k += 1;
    }
    proof {
        assert(unidic_spans_from(s, toks, k as int, mora_offset as int) == Seq::<ReadingSpanModel>::empty());
        assert(spans_view(spans@) == unidic_spans(s, toks));
    }
    spans
}

/// Reads Japanese text with the UniDic dictionary.
pub struct LinderaUnidicProvider;

impl JapaneseReadingProvider for LinderaUnidicProvider {
    fn name(&self) -> (r: &'static str)
        ensures
            r@ == "lindera-unidic"@,
    {
        "lindera-unidic"
    }

    /// One span per UniDic token of `text` (see `unidic_reading_spans`) when
    /// the dictionary segments it; the segmentation's error otherwise (whether
    /// it fails is up to `lindera` and how it was built, see `unidic_segment`).
    fn analyze(&self, text: &str) -> (r: Result<Vec<ReadingSpan>, String>)
        ensures
            r matches Ok(spans) ==> spans_view(spans@) == unidic_spans(
                text@,
                unidic_segmentation(text@),
            ),
    {
        match unidic_segment(text) {
            Ok(tokens) => Ok(unidic_reading_spans(text, tokens.as_slice())),
            Err(e) => Err(e),
        }
    }
}


proof fn lemma_byte_offset_drop_first(s: Seq<char>, i: int)
    requires
        1 <= i <= s.len(),
    ensures
        byte_offset(s, i) == utf8_width(s[0]) + byte_offset(s.drop_first(), i - 1),
    decreases i,
{
    if i > 1 {
        lemma_byte_offset_drop_first(s, i - 1);
        assert(s.drop_first()[i - 2] == s[i - 1]);
    } else {
        assert(byte_offset(s, 0) == 0);
        assert(byte_offset(s.drop_first(), 0) == 0);
    }
}

/// The byte offsets of a text count the bytes of its UTF-8 encoding: the
/// offset past its last char is the length of the encoding (what `str::len`
/// returns), so `char_of_byte` is defined exactly on the byte offsets of the
/// text, its end included.
pub proof fn lemma_byte_offset_is_utf8_len(s: Seq<char>)
    ensures
        byte_offset(s, s.len() as int) == vstd::utf8::encode_utf8(s).len(),
    decreases s.len(),
{
    if s.len() > 0 {
        lemma_byte_offset_is_utf8_len(s.drop_first());
        lemma_byte_offset_drop_first(s, s.len() as int);
        vstd::utf8::char_is_scalar(s[0]);
        let v = s[0] as u32;
        assert(vstd::utf8::encode_scalar(v).len() == utf8_width(s[0]));
    }
}

} // verus!
