//! Japanese reading providers, ruby (furigana) markup and reading overrides.
//!
//! Priority of readings: user override > ruby > UniDic dictionary > kana-only.
//! All span coordinates are char offsets into the display text.

use vstd::prelude::*;
use crate::japanese::mora::{
    is_kana_char, lemma_mora_count_bound, mora_count, parse_kana_moras, spec_is_kana_char,
};
use crate::text::{chars_of, push_char, string_of_range};
use vstd::string::StrSliceExecFns;

verus! {

broadcast use vstd::string::group_string_axioms;

/// One `漢字(かな)` annotation. `display_*` index the display text (markup
/// removed); `raw_*` index the raw text and are kept for diagnostics.
#[derive(Debug, Clone, PartialEq, Eq)]
pub struct RubyAnnotation {
    pub surface: String,
    pub reading: String,
    pub display_start: usize,
    pub display_end: usize,
    pub raw_start: usize,
    pub raw_end: usize,
}

/// A lyric line with its ruby markup taken out.
#[derive(Debug, Clone, PartialEq, Eq)]
pub struct ParsedRubyText {
    pub raw_text: String,
    pub display_text: String,
    pub annotations: Vec<RubyAnnotation>,
}

#[derive(Debug, Clone, PartialEq, Eq)]
pub enum RubyParseError {
    InvalidInput(String),
}

/// The model of a ruby annotation.
pub struct AnnotationModel {
    pub surface: Seq<char>,
    pub reading: Seq<char>,
    pub display_start: int,
    pub display_end: int,
    pub raw_start: int,
    pub raw_end: int,
}

impl View for RubyAnnotation {
    type V = AnnotationModel;

    open spec fn view(&self) -> AnnotationModel {
        AnnotationModel {
            surface: self.surface@,
            reading: self.reading@,
            display_start: self.display_start as int,
            display_end: self.display_end as int,
            raw_start: self.raw_start as int,
            raw_end: self.raw_end as int,
        }
    }
}

/// The models of a sequence of annotations.
pub open spec fn annotations_view(v: Seq<RubyAnnotation>) -> Seq<AnnotationModel> {
    v.map_values(|a: RubyAnnotation| a@)
}

/// CJK unified ideographs and extension A.
pub open spec fn spec_is_kanji(c: char) -> bool {
    ('\u{3400}' <= c && c <= '\u{4DBF}') || ('\u{4E00}' <= c && c <= '\u{9FFF}')
}

/// Chars allowed inside a ruby reading: kana, ー and ・.
pub open spec fn spec_is_ruby_reading_char(c: char) -> bool {
    spec_is_kana_char(c) || c == '\u{30FC}' || c == '\u{30FB}'
}

/// The number of backslashes directly before index `i`.
pub open spec fn backslash_run(s: Seq<char>, i: int) -> nat
    decreases i,
{
    if i > 0 && i <= s.len() && s[i - 1] == '\\' {
        1 + backslash_run(s, i - 1)
    } else {
        0
    }
}

/// A char is escaped when an odd number of backslashes precedes it.
pub open spec fn spec_is_escaped(s: Seq<char>, i: int) -> bool {
    backslash_run(s, i) % 2 == 1
}

/// The start of the run of kanji that ends just before `i`.
pub open spec fn kanji_run_start(s: Seq<char>, i: int) -> int
    decreases i,
{
    if i > 0 && i <= s.len() && spec_is_kanji(s[i - 1]) {
        kanji_run_start(s, i - 1)
    } else {
        i
    }
}

/// The first unescaped `)` at or after `j`, or `s.len()` when there is none.
pub open spec fn find_close(s: Seq<char>, j: int) -> int
    decreases s.len() - j,
{
    if j < 0 || j >= s.len() {
        s.len() as int
    } else if s[j] == ')' && !spec_is_escaped(s, j) {
        j
    } else {
        find_close(s, j + 1)
    }
}

/// `s[a..b]` is a non-empty ruby reading.
pub open spec fn is_reading_range(s: Seq<char>, a: int, b: int) -> bool {
    &&& a < b
    &&& forall|k: int| a <= k < b ==> spec_is_ruby_reading_char(#[trigger] s[k])
}

/// The annotation opened by the `(` at `i`, when that `(` starts valid ruby.
pub open spec fn ruby_at(s: Seq<char>, i: int, display_len: int) -> Option<AnnotationModel> {
    let close = find_close(s, i + 1);
    if 0 <= i < s.len() && s[i] == '(' && !spec_is_escaped(s, i) && i > 0 && spec_is_kanji(
        s[i - 1],
    ) && close < s.len() && is_reading_range(s, i + 1, close) {
        let start = kanji_run_start(s, i);
        let surface = s.subrange(start, i);
        Some(
            AnnotationModel {
                surface,
                reading: s.subrange(i + 1, close),
                display_start: if display_len >= surface.len() {
                    display_len - surface.len()
                } else {
                    0
                },
                display_end: display_len,
                raw_start: start,
                raw_end: close + 1,
            },
        )
    } else {
        None
    }
}

/// The ruby scan of `s[i..]`, given the display text and annotations so far:
/// `\(` and `\)` stand for literal parentheses; `漢字(かな)` becomes an
/// annotation of the kanji run before `(` and leaves the kanji in the display
/// text; any other char is copied to the display text.
pub open spec fn ruby_scan(
    s: Seq<char>,
    i: int,
    display: Seq<char>,
    anns: Seq<AnnotationModel>,
) -> (Seq<char>, Seq<AnnotationModel>)
    decreases s.len() - i,
{
    if i < 0 || i >= s.len() {
        (display, anns)
    } else if s[i] == '\\' && i + 1 < s.len() && (s[i + 1] == '(' || s[i + 1] == ')') {
        ruby_scan(s, i + 2, display.push(s[i + 1]), anns)
    } else if let Some(a) = ruby_at(s, i, display.len() as int) {
        ruby_scan(s, a.raw_end, display, anns.push(a))
    } else {
        ruby_scan(s, i + 1, display.push(s[i]), anns)
    }
}

/// The display text and annotations of raw lyric text.
pub open spec fn ruby_parse(s: Seq<char>) -> (Seq<char>, Seq<AnnotationModel>) {
    ruby_scan(s, 0, Seq::empty(), Seq::empty())
}

fn is_kanji(c: char) -> (r: bool)
    ensures
        r == spec_is_kanji(c),
{
    ('\u{3400}' <= c && c <= '\u{4DBF}') || ('\u{4E00}' <= c && c <= '\u{9FFF}')
}

fn is_ruby_reading_char(c: char) -> (r: bool)
    ensures
        r == spec_is_ruby_reading_char(c),
{
    is_kana_char(c) || c == '\u{30FC}' || c == '\u{30FB}'
}

fn is_escaped(chars: &Vec<char>, index: usize) -> (r: bool)
    requires
        index <= chars@.len(),
    ensures
        r == spec_is_escaped(chars@, index as int),
{
    let mut backslashes: usize = 0;
    let mut i = index;
    while i > 0 && chars[i - 1] == '\\'
        invariant
            i <= index <= chars@.len(),
            backslashes + i == index,
            backslash_run(chars@, index as int) == backslashes + backslash_run(chars@, i as int),
        decreases i,
    {
        backslashes += 1;
        i -= 1;
    }
    backslashes % 2 == 1
}

/// The kanji run that ends at `i` comes right before `i`.
proof fn lemma_kanji_run_start(s: Seq<char>, i: int)
    requires
        0 <= i <= s.len(),
    ensures
        0 <= kanji_run_start(s, i) <= i,
        forall|k: int| kanji_run_start(s, i) <= k < i ==> spec_is_kanji(#[trigger] s[k]),
        kanji_run_start(s, i) > 0 ==> !spec_is_kanji(s[kanji_run_start(s, i) - 1]),
    decreases i,
{
    if i > 0 && spec_is_kanji(s[i - 1]) {
        lemma_kanji_run_start(s, i - 1);
    }
}

proof fn lemma_find_close(s: Seq<char>, j: int)
    requires
        0 <= j,
    ensures
        j <= find_close(s, j) <= s.len() || (j > s.len() && find_close(s, j) == s.len()),
        find_close(s, j) < s.len() ==> s[find_close(s, j)] == ')' && !spec_is_escaped(
            s,
            find_close(s, j),
        ),
        forall|k: int|
            j <= k < find_close(s, j) ==> !(#[trigger] s[k] == ')' && !spec_is_escaped(s, k)),
    decreases s.len() - j,
{
    if j < s.len() && !(s[j] == ')' && !spec_is_escaped(s, j)) {
        lemma_find_close(s, j + 1);
    }
}

/// Parses `漢字(かな)` ruby markup.
///
/// Parentheses that do not form valid ruby stay in the lyric text; a
/// backslash only escapes a parenthesis and never reaches the display text,
/// so malformed ruby never breaks a lyric line. Every annotation's surface is
/// the slice of the display text that its display range names.
pub fn parse_ruby_text(raw: &str) -> (r: Result<ParsedRubyText, RubyParseError>)
    ensures
        r is Ok,
        r matches Ok(p) ==> {
            &&& p.raw_text@ == raw@
            &&& p.display_text@ == ruby_parse(raw@).0
            &&& annotations_view(p.annotations@) == ruby_parse(raw@).1
            &&& forall|k: int|
                0 <= k < p.annotations@.len() ==> {
                    let a = #[trigger] p.annotations@[k];
                    &&& a.display_start <= a.display_end <= p.display_text@.len()
                    &&& p.display_text@.subrange(a.display_start as int, a.display_end as int)
                        == a.surface@
                    &&& a.raw_start < a.raw_end <= raw@.len()
                    &&& raw@.subrange(a.raw_start as int, a.raw_start + a.surface@.len())
                        == a.surface@
                }
        },
{
    let chars = chars_of(raw);
    let ghost s = raw@;
    let n = chars.len();
    let mut display = String::new();
    let mut display_len: usize = 0;
    let mut annotations: Vec<RubyAnnotation> = Vec::new();
    let mut i: usize = 0;
    proof {
        lemma_kanji_run_start(s, 0);
        assert(annotations_view(annotations@) =~= Seq::<AnnotationModel>::empty());
    }
    while i < n
        invariant
            chars@ == s,
            n == s.len(),
            i <= n,
            display_len == display@.len(),
            display@.len() <= i,
            ruby_parse(s) == ruby_scan(s, i as int, display@, annotations_view(annotations@)),
            // The kanji run that ends at `i` is the tail of the display text.
            i - kanji_run_start(s, i as int) <= display@.len(),
            display@.subrange(
                display@.len() - (i - kanji_run_start(s, i as int)),
                display@.len() as int,
            ) == s.subrange(kanji_run_start(s, i as int), i as int),
            forall|k: int|
                0 <= k < annotations@.len() ==> {
                    let a = #[trigger] annotations@[k];
                    &&& a.display_start <= a.display_end <= display@.len()
                    &&& display@.subrange(a.display_start as int, a.display_end as int)
                        == a.surface@
                    &&& a.raw_start < a.raw_end <= i
                    &&& s.subrange(a.raw_start as int, a.raw_start + a.surface@.len())
                        == a.surface@
                },
        decreases n - i,
    {
        proof {
            lemma_kanji_run_start(s, i as int);
        }
        let ghost old_display = display@;
        if chars[i] == '\\' && i + 1 < n && (chars[i + 1] == '(' || chars[i + 1] == ')') {
            push_char(&mut display, chars[i + 1]);
            display_len += 1;
            i += 2;
            proof {
                lemma_kanji_run_start(s, i as int);
                assert(kanji_run_start(s, i as int) == i);
                assert forall|k: int| 0 <= k < annotations@.len() implies {
                    let a = #[trigger] annotations@[k];
                    display@.subrange(a.display_start as int, a.display_end as int) == a.surface@
                } by {
                    let a = annotations@[k];
                    assert(display@.subrange(a.display_start as int, a.display_end as int)
                        =~= old_display.subrange(a.display_start as int, a.display_end as int));
                }
            }
            continue;
        }
        if chars[i] == '(' && !is_escaped(&chars, i) && i > 0 && is_kanji(chars[i - 1]) {
            let mut surface_start = i;
            while surface_start > 0 && is_kanji(chars[surface_start - 1])
                invariant
                    chars@ == s,
                    n == s.len(),
                    surface_start <= i < n,
                    kanji_run_start(s, i as int) == kanji_run_start(s, surface_start as int),
                decreases surface_start,
            {
                surface_start -= 1;
            }
            let mut close = i + 1;
            while close < n && !(chars[close] == ')' && !is_escaped(&chars, close))
                invariant
                    chars@ == s,
                    n == s.len(),
                    i < close <= n,
                    find_close(s, (i + 1) as int) == find_close(s, close as int),
                decreases n - close,
            {
                close += 1;
            }
            proof {
                lemma_find_close(s, close as int);
            }
            if close < n {
                let mut ok = close > i + 1;
                let mut k = i + 1;
                while k < close
                    invariant
                        chars@ == s,
                        n == s.len(),
                        i + 1 <= k <= close < n,
                        ok == (close > i + 1 && forall|m: int|
                            i + 1 <= m < k ==> spec_is_ruby_reading_char(#[trigger] s[m])),
                    decreases close - k,
                {
                    if !is_ruby_reading_char(chars[k]) {
                        ok = false;
                    }
                    k += 1;
                }
                if ok {
                    let surface = string_of_range(&chars, surface_start, i);
                    let reading = string_of_range(&chars, i + 1, close);
                    let surface_len = i - surface_start;
                    let display_end = display_len;
                    let display_start = display_end - surface_len;
                    let ghost old_anns = annotations@;
                    annotations.push(
                        RubyAnnotation {
                            surface,
                            reading,
                            display_start,
                            display_end,
                            raw_start: surface_start,
                            raw_end: close + 1,
                        },
                    );
                    proof {
                        assert(ruby_at(s, i as int, display@.len() as int) == Some(
                            annotations@.last()@,
                        ));
                        assert(annotations_view(annotations@) =~= annotations_view(old_anns).push(
                            annotations@.last()@,
                        ));
                        lemma_kanji_run_start(s, (close + 1) as int);
                        assert(kanji_run_start(s, (close + 1) as int) == close + 1);
                        assert forall|k: int| 0 <= k < annotations@.len() implies {
                            let a = #[trigger] annotations@[k];
                            &&& a.display_start <= a.display_end <= display@.len()
                            &&& display@.subrange(a.display_start as int, a.display_end as int)
                                == a.surface@
                            &&& a.raw_start < a.raw_end <= close + 1
                            &&& s.subrange(a.raw_start as int, a.raw_start + a.surface@.len())
                                == a.surface@
                        } by {
                            if k < old_anns.len() {
                                assert(annotations@[k] == old_anns[k]);
                            }
                        }
                    }
                    i = close + 1;
                    continue;
                } else {
                    proof {
                        assert(!is_reading_range(s, (i + 1) as int, close as int));
                        assert(ruby_at(s, i as int, display@.len() as int) is None);
                    }
                }
            } else {
                proof {
                    assert(ruby_at(s, i as int, display@.len() as int) is None);
                }
            }
        } else {
            proof {
                assert(ruby_at(s, i as int, display@.len() as int) is None);
            }
        }
        push_char(&mut display, chars[i]);
        display_len += 1;
        i += 1;
        proof {
            lemma_kanji_run_start(s, i as int);
            assert forall|k: int| 0 <= k < annotations@.len() implies {
                let a = #[trigger] annotations@[k];
                display@.subrange(a.display_start as int, a.display_end as int) == a.surface@
            } by {
                let a = annotations@[k];
                assert(display@.subrange(a.display_start as int, a.display_end as int)
                    =~= old_display.subrange(a.display_start as int, a.display_end as int));
            }
            if spec_is_kanji(s[i - 1]) {
                assert(kanji_run_start(s, i as int) == kanji_run_start(s, i - 1));
                assert(display@.subrange(
                    display@.len() - (i - kanji_run_start(s, i as int)),
                    display@.len() as int,
                ) =~= s.subrange(kanji_run_start(s, i as int), i as int));
            } else {
                assert(kanji_run_start(s, i as int) == i);
            }
        }
    }
    let raw_text = string_of_range(&chars, 0, n);
    proof {
        assert(s.subrange(0, n as int) == s);
    }
    Ok(ParsedRubyText { raw_text, display_text: display, annotations })
}


/// `a - b`, or 0 when `b > a`.
pub open spec fn sat_sub(a: int, b: int) -> int {
    if a >= b {
        a - b
    } else {
        0
    }
}

/// The first annotation from `k` on whose raw range holds `pos`, unless an
/// annotation that starts after `pos` comes first.
pub open spec fn first_containing(anns: Seq<AnnotationModel>, k: int, pos: int) -> Option<int>
    decreases anns.len() - k,
{
    if k < 0 || k >= anns.len() {
        None
    } else if pos < anns[k].raw_start {
        None
    } else if pos < anns[k].raw_end {
        Some(k)
    } else {
        first_containing(anns, k + 1, pos)
    }
}

/// The markup chars (reading and parentheses) of the annotations from `k` on
/// that end at or before `pos`.
pub open spec fn removed_before(anns: Seq<AnnotationModel>, k: int, pos: int) -> int
    decreases anns.len() - k,
{
    if k < 0 || k >= anns.len() {
        0
    } else {
        (if anns[k].raw_end <= pos {
            sat_sub(sat_sub(anns[k].raw_end, anns[k].raw_start), anns[k].surface.len() as int)
        } else {
            0
        }) + removed_before(anns, k + 1, pos)
    }
}

/// The display offset of raw offset `pos`: inside an annotation, the matching
/// char of its surface (the last one for offsets in the reading); elsewhere
/// `pos` less the markup removed before it.
pub open spec fn spec_ruby_display_offset(anns: Seq<AnnotationModel>, pos: int) -> int {
    match first_containing(anns, 0, pos) {
        Some(k) => {
            let within = sat_sub(pos, anns[k].raw_start);
            let surface_len = anns[k].surface.len() as int;
            let step = if within <= surface_len {
                within
            } else {
                surface_len
            };
            if anns[k].display_start + step <= usize::MAX {
                anns[k].display_start + step
            } else {
                usize::MAX as int
            }
        },
        None => sat_sub(pos, removed_before(anns, 0, pos)),
    }
}

proof fn lemma_removed_before_nonneg(anns: Seq<AnnotationModel>, k: int, pos: int)
    ensures
        removed_before(anns, k, pos) >= 0,
    decreases anns.len() - k,
{
    if 0 <= k < anns.len() {
        lemma_removed_before_nonneg(anns, k + 1, pos);
    }
}

/// Maps a raw char offset (in text whose enhanced-LRC `<time>` tags are
/// already removed) to a display offset.
pub fn ruby_display_offset(parsed: &ParsedRubyText, raw_position: usize) -> (r: usize)
    requires
        removed_before(annotations_view(parsed.annotations@), 0, raw_position as int)
            <= usize::MAX,
    ensures
        r as int == spec_ruby_display_offset(
            annotations_view(parsed.annotations@),
            raw_position as int,
        ),
{
    let ghost anns = annotations_view(parsed.annotations@);
    let ghost pos = raw_position as int;
    let n = parsed.annotations.len();
    let mut k: usize = 0;
    while k < n && parsed.annotations[k].raw_start <= raw_position
        invariant
            n == anns.len(),
            anns == annotations_view(parsed.annotations@),
            pos == raw_position,
            k <= n,
            first_containing(anns, 0, pos) == first_containing(anns, k as int, pos),
        decreases n - k,
    {
        let annotation = &parsed.annotations[k];
        if raw_position < annotation.raw_end {
            let within_surface = raw_position - annotation.raw_start;
            let surface_len = annotation.surface.unicode_len();
            let step = if within_surface <= surface_len {
                within_surface
            } else {
                surface_len
            };
            return annotation.display_start.saturating_add(step);
        }
        k += 1;
    }
    let mut removed: usize = 0;
    let mut j: usize = 0;
    proof {
        lemma_removed_before_nonneg(anns, 0, pos);
    }
    while j < n
        invariant
            n == anns.len(),
            anns == annotations_view(parsed.annotations@),
            pos == raw_position,
            j <= n,
            removed + removed_before(anns, j as int, pos) == removed_before(anns, 0, pos),
            removed_before(anns, 0, pos) <= usize::MAX,
        decreases n - j,
    {
        let annotation = &parsed.annotations[j];
        proof {
            lemma_removed_before_nonneg(anns, j + 1, pos);
        }
        if annotation.raw_end <= raw_position {
            let span = annotation.raw_end.saturating_sub(annotation.raw_start);
            removed = removed + span.saturating_sub(annotation.surface.unicode_len());
        }
        j += 1;
    }
    raw_position.saturating_sub(removed)
}

/// How a span's reading was obtained: exact (kana text, ruby or user
/// override), from the dictionary, or unknown.
#[derive(Debug, Clone, Copy, PartialEq, Eq, Structural)]
pub enum ReadingConfidence {
    Exact,
    Dictionary,
    Unknown,
}

/// A span of the source text with its reading. Spans come in text order and
/// their char ranges cover the whole text (kana and other fragments alike).
/// `mora_start..mora_end` indexes the moras of the whole line.
#[derive(Debug, Clone)]
pub struct ReadingSpan {
    pub surface: String,
    pub reading: String,
    pub pronunciation: String,
    pub char_start: usize,
    pub char_end: usize,
    pub display_start: usize,
    pub display_end: usize,
    pub mora_start: usize,
    pub mora_end: usize,
    pub confidence: ReadingConfidence,
}

/// The model of a reading span.
pub struct ReadingSpanModel {
    pub surface: Seq<char>,
    pub reading: Seq<char>,
    pub pronunciation: Seq<char>,
    pub char_start: int,
    pub char_end: int,
    pub display_start: int,
    pub display_end: int,
    pub mora_start: int,
    pub mora_end: int,
    pub confidence: ReadingConfidence,
}

impl View for ReadingSpan {
    type V = ReadingSpanModel;

    open spec fn view(&self) -> ReadingSpanModel {
        ReadingSpanModel {
            surface: self.surface@,
            reading: self.reading@,
            pronunciation: self.pronunciation@,
            char_start: self.char_start as int,
            char_end: self.char_end as int,
            display_start: self.display_start as int,
            display_end: self.display_end as int,
            mora_start: self.mora_start as int,
            mora_end: self.mora_end as int,
            confidence: self.confidence,
        }
    }
}

/// The models of a sequence of spans.
pub open spec fn spans_view(v: Seq<ReadingSpan>) -> Seq<ReadingSpanModel> {
    v.map_values(|s: ReadingSpan| s@)
}

/// Analyzes the reading of a lyric line. Implementations are shared across
/// threads.
pub trait JapaneseReadingProvider: Send + Sync {
    fn name(&self) -> &'static str;

    /// The reading spans of one lyric line, in text order, covering the whole
    /// line. A kana span reads as itself; a span whose reading is unknown has
    /// an empty reading.
    fn analyze(&self, text: &str) -> Result<Vec<ReadingSpan>, String>;
}

/// A song-specific reading (運命 → さだめ) for the chars
/// `char_start..char_end` of the source text.
#[derive(Debug, Clone)]
pub struct ReadingOverride {
    pub char_start: usize,
    pub char_end: usize,
    pub reading: String,
}

/// Kana text reads as itself; kanji and Latin fragments get no reading (the
/// caller falls back to duration priors for them).
pub struct KanaOnlyProvider;

/// Chars that belong to kana fragments: kana and ー.
pub open spec fn is_kana_class(c: char) -> bool {
    spec_is_kana_char(c) || c == '\u{30FC}'
}

/// The end of the run of same-class chars that starts at `i`.
pub open spec fn run_end(s: Seq<char>, i: int) -> int
    decreases s.len() - i,
{
    if 0 <= i && i + 1 < s.len() && is_kana_class(s[i + 1]) == is_kana_class(s[i]) {
        run_end(s, i + 1)
    } else {
        i + 1
    }
}

/// The maximal runs of kana-class and other chars of `s[i..]`.
pub open spec fn fragments_from(s: Seq<char>, i: int) -> Seq<(int, int)>
    decreases s.len() - i,
{
    if i < 0 || i >= s.len() {
        Seq::empty()
    } else {
        proof {
            lemma_run_end(s, i);
        }
        seq![(i, run_end(s, i))] + fragments_from(s, run_end(s, i))
    }
}

/// The number of moras of fragment `f` of `s` (0 for a non-kana fragment).
pub open spec fn fragment_moras(s: Seq<char>, f: (int, int)) -> int {
    if is_kana_class(s[f.0]) {
        mora_count(s.subrange(f.0, f.1)) as int
    } else {
        0
    }
}

/// The moras of the first `k` fragments.
pub open spec fn fragment_mora_prefix(s: Seq<char>, frags: Seq<(int, int)>, k: int) -> int
    decreases k,
{
    if k <= 0 || k > frags.len() {
        0
    } else {
        fragment_mora_prefix(s, frags, k - 1) + fragment_moras(s, frags[k - 1])
    }
}

/// The kana-only reading span of fragment `k` of `s`.
pub open spec fn kana_only_span(s: Seq<char>, k: int) -> ReadingSpanModel {
    let frags = fragments_from(s, 0);
    let f = frags[k];
    let surface = s.subrange(f.0, f.1);
    let kana = is_kana_class(s[f.0]);
    ReadingSpanModel {
        surface,
        reading: if kana {
            surface
        } else {
            Seq::empty()
        },
        pronunciation: if kana {
            surface
        } else {
            Seq::empty()
        },
        char_start: f.0,
        char_end: f.1,
        display_start: f.0,
        display_end: f.1,
        mora_start: fragment_mora_prefix(s, frags, k),
        mora_end: fragment_mora_prefix(s, frags, k + 1),
        confidence: if kana {
            ReadingConfidence::Exact
        } else {
            ReadingConfidence::Unknown
        },
    }
}

/// The kana-only reading spans of `s`: one per fragment, in order.
pub open spec fn kana_only_spans(s: Seq<char>) -> Seq<ReadingSpanModel> {
    Seq::new(fragments_from(s, 0).len(), |k: int| kana_only_span(s, k))
}

pub proof fn lemma_run_end(s: Seq<char>, i: int)
    requires
        0 <= i < s.len(),
    ensures
        i < run_end(s, i) <= s.len(),
        forall|k: int| i <= k < run_end(s, i) ==> is_kana_class(#[trigger] s[k]) == is_kana_class(s[i]),
        run_end(s, i) < s.len() ==> is_kana_class(s[run_end(s, i)]) != is_kana_class(s[i]),
    decreases s.len() - i,
{
    if i + 1 < s.len() && is_kana_class(s[i + 1]) == is_kana_class(s[i]) {
        lemma_run_end(s, i + 1);
    }
}

/// The fragments of `s[i..]` tile `i..s.len()`: each is non-empty and starts
/// where the one before it ends.
pub proof fn lemma_fragments_tile(s: Seq<char>, i: int)
    requires
        0 <= i <= s.len(),
    ensures
        ({
            let f = fragments_from(s, i);
            &&& (f.len() == 0 <==> i == s.len())
            &&& f.len() > 0 ==> f[0].0 == i && f[f.len() - 1].1 == s.len()
            &&& forall|k: int| 0 <= k < f.len() ==> i <= (#[trigger] f[k]).0 < f[k].1 <= s.len()
            &&& forall|k: int| 0 <= k < f.len() - 1 ==> (#[trigger] f[k]).1 == f[k + 1].0
        }),
    decreases s.len() - i,
{
    if i < s.len() {
        lemma_run_end(s, i);
        let e = run_end(s, i);
        lemma_fragments_tile(s, e);
        let rest = fragments_from(s, e);
        let f = fragments_from(s, i);
        assert(f == seq![(i, e)] + rest);
        assert forall|k: int| 0 <= k < f.len() implies i <= (#[trigger] f[k]).0 < f[k].1 <= s.len() by {
            if k > 0 {
                assert(f[k] == rest[k - 1]);
            }
        }
        assert forall|k: int| 0 <= k < f.len() - 1 implies (#[trigger] f[k]).1 == f[k + 1].0 by {
            assert(f[k + 1] == rest[k]);
            if k > 0 {
                assert(f[k] == rest[k - 1]);
            }
        }
    }
}

fn is_kana_class_char(c: char) -> (r: bool)
    ensures
        r == is_kana_class(c),
{
    is_kana_char(c) || c == '\u{30FC}'
}

impl JapaneseReadingProvider for KanaOnlyProvider {
    fn name(&self) -> (r: &'static str)
        ensures
            r@ == "kana-only"@,
    {
        "kana-only"
    }

    /// One span per maximal run of kana (with ー) or of other chars. A kana
    /// run reads as itself with exact confidence; any other run has no
    /// reading. Mora ranges number the moras of the kana runs in order.
    fn analyze(&self, text: &str) -> (r: Result<Vec<ReadingSpan>, String>)
        ensures
            r matches Ok(spans) && spans@.len() == fragments_from(text@, 0).len() && forall|k: int|
                0 <= k < spans@.len() ==> (#[trigger] spans@[k])@ == kana_only_span(text@, k),
    {
        let chars = chars_of(text);
        let ghost s = text@;
        let ghost frags = fragments_from(s, 0);
        let n = chars.len();
        let mut spans: Vec<ReadingSpan> = Vec::new();
        let mut mora_offset: usize = 0;
        let mut i: usize = 0;
        proof {
            lemma_fragments_tile(s, 0);
        }
        while i < n
            invariant
                chars@ == s,
                n == s.len(),
                frags == fragments_from(s, 0),
                i <= n,
                frags == spans@.map_values(|sp: ReadingSpan| (sp.char_start as int, sp.char_end as int))
                    + fragments_from(s, i as int),
                mora_offset == fragment_mora_prefix(s, frags, spans@.len() as int),
                mora_offset <= i,
                forall|k: int| 0 <= k < spans@.len() ==> (#[trigger] spans@[k])@ == kana_only_span(s, k),
            decreases n - i,
        {
            proof {
                lemma_run_end(s, i as int);
                lemma_fragments_tile(s, i as int);
            }
            let is_kana = is_kana_class_char(chars[i]);
            let mut j = i + 1;
            while j < n && is_kana_class_char(chars[j]) == is_kana
                invariant
                    chars@ == s,
                    n == s.len(),
                    i < j <= n,
                    is_kana == is_kana_class(s[i as int]),
                    forall|m: int| i <= m < j ==> is_kana_class(#[trigger] s[m]) == is_kana,
                    run_end(s, i as int) == run_end(s, (j - 1) as int),
                decreases n - j,
            {
                j += 1;
            }
            let ghost k = spans@.len() as int;
            let ghost old_spans = spans@;
            assert(fragments_from(s, i as int) == seq![(i as int, j as int)] + fragments_from(s, j as int));
            assert(frags[k] == (i as int, j as int)) by {
                assert(old_spans.map_values(|sp: ReadingSpan| (sp.char_start as int, sp.char_end as int)).len() == k);
            }
            let surface = string_of_range(&chars, i, j);
            let count = if is_kana {
                parse_kana_moras(surface.as_str()).len()
            } else {
                0
            };
            proof {
                lemma_mora_count_bound(s.subrange(i as int, j as int));
                assert(count == fragment_moras(s, frags[k]));
            }
            let mora_start = mora_offset;
            mora_offset = mora_offset + count;
            let (reading, pronunciation, confidence) = if is_kana {
                (surface.clone(), surface.clone(), ReadingConfidence::Exact)
            } else {
                (String::new(), String::new(), ReadingConfidence::Unknown)
            };
            spans.push(ReadingSpan {
                surface,
                reading,
                pronunciation,
                char_start: i,
                char_end: j,
                display_start: i,
                display_end: j,
                mora_start,
                mora_end: mora_offset,
                confidence,
            });
            proof {
                assert(spans@.map_values(|sp: ReadingSpan| (sp.char_start as int, sp.char_end as int))
                    =~= old_spans.map_values(|sp: ReadingSpan| (sp.char_start as int, sp.char_end as int))
                    + seq![(i as int, j as int)]);
                assert(spans@[k]@ == kana_only_span(s, k));
                assert forall|m: int| 0 <= m < spans@.len() implies (#[trigger] spans@[m])@ == kana_only_span(s, m) by {
                    if m < k {
                        assert(spans@[m] == old_spans[m]);
                    }
                }
            }
            i = j;
        }
        proof {
            assert(fragments_from(s, n as int) == Seq::<(int, int)>::empty());
            assert(spans@.map_values(|sp: ReadingSpan| (sp.char_start as int, sp.char_end as int)).len() == spans@.len());
        }
        Ok(spans)
    }
}

/// The model of an override: its char range and its reading.
pub open spec fn overrides_view(v: Seq<ReadingOverride>) -> Seq<(int, int, Seq<char>)> {
    v.map_values(|o: ReadingOverride| (o.char_start as int, o.char_end as int, o.reading@))
}

/// The override that a ruby annotation makes: its display range reads as
/// its reading.
pub open spec fn ruby_override(a: AnnotationModel) -> (int, int, Seq<char>) {
    (a.display_start, a.display_end, a.reading)
}

/// The reading overrides of a line's ruby annotations, in order. Ruby
/// readings take priority over the dictionary: they are applied to the
/// line's spans with `apply_reading_overrides`.
pub fn ruby_overrides(annotations: &[RubyAnnotation]) -> (r: Vec<ReadingOverride>)
    ensures
        overrides_view(r@) == annotations_view(annotations@).map_values(
            |a: AnnotationModel| ruby_override(a),
        ),
{
    let ghost target = annotations_view(annotations@).map_values(
        |a: AnnotationModel| ruby_override(a),
    );
    let mut out: Vec<ReadingOverride> = Vec::new();
    let mut k: usize = 0;
    while k < annotations.len()
        invariant
            k <= annotations@.len(),
            target == annotations_view(annotations@).map_values(
                |a: AnnotationModel| ruby_override(a),
            ),
            overrides_view(out@) == target.take(k as int),
        decreases annotations.len() - k,
    {
        let a = &annotations[k];
        let o = ReadingOverride {
            char_start: a.display_start,
            char_end: a.display_end,
            reading: a.reading.clone(),
        };
        let ghost before = overrides_view(out@);
        out.push(o);
        proof {
            assert(annotations_view(annotations@)[k as int] == a@);
            assert(overrides_view(out@) =~= before.push(target[k as int]));
            assert(target.take(k + 1) =~= target.take(k as int).push(target[k as int]));
        }
        k += 1;
    }
    proof {
        assert(target.take(annotations@.len() as int) =~= target);
    }
    out
}

/// The span's char range meets `cs..ce`.
pub open spec fn overlaps(cs: int, ce: int, sp: ReadingSpanModel) -> bool {
    cs < sp.char_end && sp.char_start < ce
}

/// The first span at or after `k` that meets `cs..ce`.
pub open spec fn first_overlap(spans: Seq<ReadingSpanModel>, cs: int, ce: int, k: int) -> Option<
    int,
>
    decreases spans.len() - k,
{
    if k < 0 || k >= spans.len() {
        None
    } else if overlaps(cs, ce, spans[k]) {
        Some(k)
    } else {
        first_overlap(spans, cs, ce, k + 1)
    }
}

/// The last span before `k` that meets `cs..ce`.
pub open spec fn last_overlap(spans: Seq<ReadingSpanModel>, cs: int, ce: int, k: int) -> Option<
    int,
>
    decreases k,
{
    if k <= 0 || k > spans.len() {
        None
    } else if overlaps(cs, ce, spans[k - 1]) {
        Some(k - 1)
    } else {
        last_overlap(spans, cs, ce, k - 1)
    }
}

/// `text.chars().skip(a).take(b - a)`: the chars `a..b` clipped to the text.
pub open spec fn char_slice(s: Seq<char>, a: int, b: int) -> Seq<char> {
    let lo = if a <= s.len() {
        a
    } else {
        s.len() as int
    };
    let hi = if lo + sat_sub(b, a) <= s.len() {
        lo + sat_sub(b, a)
    } else {
        s.len() as int
    };
    s.subrange(lo, hi)
}

/// One override: all spans that meet its range become one span of exact
/// confidence that reads as the override and whose display range covers theirs.
pub open spec fn apply_override(
    spans: Seq<ReadingSpanModel>,
    ov: (int, int, Seq<char>),
    text: Seq<char>,
) -> Seq<ReadingSpanModel> {
    let (cs, ce, reading) = ov;
    match first_overlap(spans, cs, ce, 0) {
        None => spans,
        Some(first) => {
            let last = match last_overlap(spans, cs, ce, spans.len() as int) {
                Some(l) => l,
                None => first,
            };
            let merged = ReadingSpanModel {
                surface: char_slice(text, cs, ce),
                reading,
                pronunciation: reading,
                char_start: cs,
                char_end: ce,
                display_start: if spans[first].display_start <= cs {
                    spans[first].display_start
                } else {
                    cs
                },
                display_end: if spans[last].display_end >= ce {
                    spans[last].display_end
                } else {
                    ce
                },
                mora_start: 0,
                mora_end: 0,
                confidence: ReadingConfidence::Exact,
            };
            spans.subrange(0, first) + seq![merged] + spans.subrange(last + 1, spans.len() as int)
        },
    }
}

/// The overrides from `k` on, applied in order.
pub open spec fn apply_overrides_from(
    spans: Seq<ReadingSpanModel>,
    ovs: Seq<(int, int, Seq<char>)>,
    k: int,
    text: Seq<char>,
) -> Seq<ReadingSpanModel>
    decreases ovs.len() - k,
{
    if k < 0 || k >= ovs.len() {
        spans
    } else {
        apply_overrides_from(apply_override(spans, ovs[k], text), ovs, k + 1, text)
    }
}

/// The moras of a span's reading.
pub open spec fn span_moras(sp: ReadingSpanModel) -> int {
    if sp.reading.len() > 0 {
        mora_count(sp.reading) as int
    } else {
        0
    }
}

/// The moras of all spans.
pub open spec fn spans_mora_total(spans: Seq<ReadingSpanModel>) -> int
    decreases spans.len(),
{
    if spans.len() == 0 {
        0
    } else {
        span_moras(spans[0]) + spans_mora_total(spans.drop_first())
    }
}

/// Mora ranges renumbered from `offset`: each span takes the moras of its
/// reading, in order.
pub open spec fn renumber_moras(spans: Seq<ReadingSpanModel>, offset: int) -> Seq<
    ReadingSpanModel,
>
    decreases spans.len(),
{
    if spans.len() == 0 {
        Seq::empty()
    } else {
        let h = spans[0];
        let n = span_moras(h);
        seq![ReadingSpanModel { mora_start: offset, mora_end: offset + n, ..h }] + renumber_moras(
            spans.drop_first(),
            offset + n,
        )
    }
}

proof fn lemma_span_moras_nonneg(spans: Seq<ReadingSpanModel>)
    ensures
        spans_mora_total(spans) >= 0,
        forall|k: int| 0 <= k < spans.len() ==> span_moras(#[trigger] spans[k]) >= 0,
    decreases spans.len(),
{
    if spans.len() > 0 {
        lemma_span_moras_nonneg(spans.drop_first());
        assert forall|k: int| 0 <= k < spans.len() implies span_moras(#[trigger] spans[k]) >= 0 by {
            if k > 0 {
                assert(spans[k] == spans.drop_first()[k - 1]);
            }
        }
    }
}

proof fn lemma_first_overlap(spans: Seq<ReadingSpanModel>, cs: int, ce: int, k: int)
    requires
        0 <= k,
    ensures
        first_overlap(spans, cs, ce, k) matches Some(f) ==> k <= f < spans.len() && overlaps(
            cs,
            ce,
            spans[f],
        ),
        first_overlap(spans, cs, ce, k) is None ==> forall|m: int|
            k <= m < spans.len() ==> !overlaps(cs, ce, #[trigger] spans[m]),
    decreases spans.len() - k,
{
    if k < spans.len() && !overlaps(cs, ce, spans[k]) {
        lemma_first_overlap(spans, cs, ce, k + 1);
    }
}

proof fn lemma_last_overlap(spans: Seq<ReadingSpanModel>, cs: int, ce: int, k: int)
    requires
        k <= spans.len(),
    ensures
        last_overlap(spans, cs, ce, k) matches Some(l) ==> 0 <= l < k && overlaps(
            cs,
            ce,
            spans[l],
        ) && forall|m: int| l < m < k ==> !overlaps(cs, ce, #[trigger] spans[m]),
        last_overlap(spans, cs, ce, k) is None ==> forall|m: int|
            0 <= m < k ==> !overlaps(cs, ce, #[trigger] spans[m]),
    decreases k,
{
    if k > 0 && !overlaps(cs, ce, spans[k - 1]) {
        lemma_last_overlap(spans, cs, ce, k - 1);
    }
}

/// `text.chars().skip(start).take(end - start)` as a string.
fn char_slice_string(chars: &Vec<char>, start: usize, end: usize) -> (r: String)
    ensures
        r@ == char_slice(chars@, start as int, end as int),
{
    let n = chars.len();
    let lo = if start <= n {
        start
    } else {
        n
    };
    let width = end.saturating_sub(start);
    let hi = if width <= n - lo {
        lo + width
    } else {
        n
    };
    string_of_range(chars, lo, hi)
}

/// Applies song-specific readings. Every span that meets an override's range
/// is replaced by one span that reads as the override (so a ruby reading never
/// repeats on each glyph of a multi-glyph word); then the mora ranges of all
/// spans are renumbered, since an override can change the mora count.
pub fn apply_reading_overrides(
    spans: &mut Vec<ReadingSpan>,
    overrides: &[ReadingOverride],
    text: &str,
)
    requires
        spans_mora_total(
            apply_overrides_from(spans_view(old(spans)@), overrides_view(overrides@), 0, text@),
        ) <= usize::MAX,
    ensures
        spans_view(final(spans)@) == renumber_moras(
            apply_overrides_from(spans_view(old(spans)@), overrides_view(overrides@), 0, text@),
            0,
        ),
{
    let chars = chars_of(text);
    let ghost ovs = overrides_view(overrides@);
    let ghost target = apply_overrides_from(spans_view(spans@), ovs, 0, text@);
    let mut oi: usize = 0;
    while oi < overrides.len()
        invariant
            chars@ == text@,
            ovs == overrides_view(overrides@),
            oi <= overrides@.len(),
            target == apply_overrides_from(spans_view(spans@), ovs, oi as int, text@),
        decreases overrides@.len() - oi,
    {
        let ov = &overrides[oi];
        let ghost before = spans_view(spans@);
        assert(ovs[oi as int] == (ov.char_start as int, ov.char_end as int, ov.reading@));
        let mut first: usize = 0;
        while first < spans.len() && !(ov.char_start < spans[first].char_end
            && spans[first].char_start < ov.char_end)
            invariant
                before == spans_view(spans@),
                first <= spans@.len(),
                first_overlap(before, ov.char_start as int, ov.char_end as int, 0)
                    == first_overlap(before, ov.char_start as int, ov.char_end as int, first as int),
            decreases spans@.len() - first,
        {
            first += 1;
        }
        if first < spans.len() {
            assert(first_overlap(before, ov.char_start as int, ov.char_end as int, 0) == Some(
                first as int,
            ));
            let mut last = spans.len();
            while last > 0 && !(ov.char_start < spans[last - 1].char_end && spans[last
                - 1].char_start < ov.char_end)
                invariant
                    before == spans_view(spans@),
                    first < last <= spans@.len(),
                    overlaps(ov.char_start as int, ov.char_end as int, before[first as int]),
                    last_overlap(before, ov.char_start as int, ov.char_end as int, spans@.len() as int)
                        == last_overlap(before, ov.char_start as int, ov.char_end as int, last as int),
                decreases last,
            {
                last -= 1;
            }
            let last = last - 1;
            assert(last_overlap(before, ov.char_start as int, ov.char_end as int, spans@.len() as int) == Some(last as int));
            assert(first <= last);
            let surface = char_slice_string(&chars, ov.char_start, ov.char_end);
            let display_start = if spans[first].display_start <= ov.char_start {
                spans[first].display_start
            } else {
                ov.char_start
            };
            let display_end = if spans[last].display_end >= ov.char_end {
                spans[last].display_end
            } else {
                ov.char_end
            };
            let mut removed: usize = 0;
            let total = spans.len();
            while removed <= last - first
                invariant
                    first <= last < before.len(),
                    removed <= last - first + 1,
                    spans@.len() == before.len() - removed,
                    total == before.len(),
                    spans_view(spans@) == before.subrange(0, first as int) + before.subrange(
                        first + removed,
                        before.len() as int,
                    ),
                decreases last - first + 1 - removed,
            {
                let ghost cur = spans_view(spans@);
                spans.remove(first);
                proof {
                    assert(spans_view(spans@) =~= cur.remove(first as int));
                    assert(spans_view(spans@) =~= before.subrange(0, first as int) + before.subrange(
                        first + removed + 1,
                        before.len() as int,
                    ));
                }
                removed += 1;
            }
            let ghost cut = spans_view(spans@);
            assert(cut =~= before.subrange(0, first as int) + before.subrange(last + 1, before.len() as int));
            spans.insert(
                first,
                ReadingSpan {
                    surface,
                    reading: ov.reading.clone(),
                    pronunciation: ov.reading.clone(),
                    char_start: ov.char_start,
                    char_end: ov.char_end,
                    display_start,
                    display_end,
                    mora_start: 0,
                    mora_end: 0,
                    confidence: ReadingConfidence::Exact,
                },
            );
            proof {
                assert(spans_view(spans@) =~= cut.insert(first as int, spans@[first as int]@));
                assert(spans_view(spans@) =~= apply_override(before, ovs[oi as int], text@));
            }
        } else {
            proof {
                assert(apply_override(before, ovs[oi as int], text@) == before);
            }
        }
        oi += 1;
    }
    // Renumber the mora ranges in text order.
    let ghost applied = spans_view(spans@);
    let mut pending: Vec<ReadingSpan> = Vec::new();
    std::mem::swap(spans, &mut pending);
    let mut offset: usize = 0;
    let ghost mut done: int = 0;
    proof {
        lemma_span_moras_nonneg(applied);
    }
    while pending.len() > 0
        invariant
            0 <= done <= applied.len(),
            spans_view(pending@) == applied.subrange(done, applied.len() as int),
            renumber_moras(applied, 0) == spans_view(spans@) + renumber_moras(
                spans_view(pending@),
                offset as int,
            ),
            offset + spans_mora_total(spans_view(pending@)) == spans_mora_total(applied),
            spans_mora_total(applied) <= usize::MAX,
        decreases pending@.len(),
    {
        let ghost rest = spans_view(pending@);
        let mut sp = pending.remove(0);
        proof {
            assert(rest[0] == sp@);
            assert(rest.drop_first() =~= spans_view(pending@));
            lemma_span_moras_nonneg(rest.drop_first());
        }
        let count = if sp.reading.unicode_len() > 0 {
            parse_kana_moras(sp.reading.as_str()).len()
        } else {
            0
        };
        assert(count == span_moras(sp@));
        sp.mora_start = offset;
        offset = offset + count;
        sp.mora_end = offset;
        let ghost prev = spans_view(spans@);
        spans.push(sp);
        proof {
            assert(spans_view(spans@) =~= prev.push(spans@.last()@));
            assert(renumber_moras(rest, (offset - count) as int) =~= seq![spans@.last()@]
                + renumber_moras(spans_view(pending@), offset as int));
            done = done + 1;
            assert(spans_view(pending@) =~= applied.subrange(done, applied.len() as int));
        }
    }
    proof {
        assert(renumber_moras(spans_view(pending@), offset as int) =~= Seq::<ReadingSpanModel>::empty());
    }
}


proof fn lemma_first_overlap_before(spans: Seq<ReadingSpanModel>, cs: int, ce: int, k: int)
    requires
        0 <= k,
    ensures
        first_overlap(spans, cs, ce, k) matches Some(f) ==> forall|m: int|
            k <= m < f ==> !overlaps(cs, ce, #[trigger] spans[m]),
    decreases spans.len() - k,
{
    if k < spans.len() && !overlaps(cs, ce, spans[k]) {
        lemma_first_overlap_before(spans, cs, ce, k + 1);
    }
}

/// The last span that meets `cs..ce`, or `first` when none does.
pub open spec fn last_overlap_or(spans: Seq<ReadingSpanModel>, cs: int, ce: int, first: int) -> int {
    match last_overlap(spans, cs, ce, spans.len() as int) {
        Some(l) => l,
        None => first,
    }
}

/// An override that meets some span replaces the spans from the first to
/// the last that meet its range by one span, and keeps the spans before and
/// after as they were. The new span covers exactly the override's range, its
/// surface is the text there, it reads (and is pronounced) as the override
/// with exact confidence, and its display range runs from the smaller of the
/// first span's display start and the override's start to the larger of the
/// last span's display end and the override's end. After it no other span
/// meets the override's range (so a ruby reading is never repeated on each
/// glyph of a multi-glyph word).
pub proof fn lemma_override_leaves_one_span(
    spans: Seq<ReadingSpanModel>,
    ov: (int, int, Seq<char>),
    text: Seq<char>,
)
    requires
        first_overlap(spans, ov.0, ov.1, 0) is Some,
    ensures
        ({
            let r = apply_override(spans, ov, text);
            let f = first_overlap(spans, ov.0, ov.1, 0)->0;
            let l = last_overlap_or(spans, ov.0, ov.1, f);
            &&& 0 <= f <= l < spans.len()
            &&& overlaps(ov.0, ov.1, spans[f]) && overlaps(ov.0, ov.1, spans[l])
            &&& forall|k: int| 0 <= k < f ==> !overlaps(ov.0, ov.1, #[trigger] spans[k])
            &&& forall|k: int| l < k < spans.len() ==> !overlaps(ov.0, ov.1, #[trigger] spans[k])
            &&& r.len() == spans.len() - (l - f)
            &&& forall|k: int| 0 <= k < f ==> #[trigger] r[k] == spans[k]
            &&& forall|k: int| f < k < r.len() ==> #[trigger] r[k] == spans[k + (l - f)]
            &&& r[f].reading == ov.2
            &&& r[f].pronunciation == ov.2
            &&& r[f].char_start == ov.0
            &&& r[f].char_end == ov.1
            &&& r[f].surface == char_slice(text, ov.0, ov.1)
            &&& r[f].confidence == ReadingConfidence::Exact
            &&& r[f].display_start == (if spans[f].display_start <= ov.0 {
                spans[f].display_start
            } else {
                ov.0
            })
            &&& r[f].display_end == (if spans[l].display_end >= ov.1 {
                spans[l].display_end
            } else {
                ov.1
            })
            &&& forall|k: int| 0 <= k < r.len() && k != f ==> !overlaps(ov.0, ov.1, #[trigger] r[k])
        }),
{
    let (cs, ce, reading) = ov;
    let f = first_overlap(spans, cs, ce, 0)->0;
    lemma_first_overlap(spans, cs, ce, 0);
    lemma_first_overlap_before(spans, cs, ce, 0);
    lemma_last_overlap(spans, cs, ce, spans.len() as int);
    let l = last_overlap_or(spans, cs, ce, f);
    assert(f <= l);
    let r = apply_override(spans, ov, text);
    assert forall|k: int| 0 <= k < f implies #[trigger] r[k] == spans[k] by {}
    assert forall|k: int| f < k < r.len() implies #[trigger] r[k] == spans[k + (l - f)] by {}
    assert forall|k: int| 0 <= k < r.len() && k != f implies !overlaps(cs, ce, #[trigger] r[k]) by {
        if k < f {
            assert(r[k] == spans[k]);
        } else {
            assert(r[k] == spans[k - f + l]);
        }
    }
}

/// Renumbered mora ranges follow one another from `offset`, each span
/// taking as many moras as its reading has.
#[verifier::spinoff_prover]
#[verifier::rlimit(50)]
pub proof fn lemma_renumber_moras_contiguous(spans: Seq<ReadingSpanModel>, offset: int)
    ensures
        renumber_moras(spans, offset).len() == spans.len(),
        forall|k: int|
            0 <= k < spans.len() ==> (#[trigger] renumber_moras(spans, offset)[k]).mora_end
                - renumber_moras(spans, offset)[k].mora_start == span_moras(spans[k]),
        spans.len() > 0 ==> renumber_moras(spans, offset)[0].mora_start == offset,
        forall|k: int|
            0 <= k < spans.len() - 1 ==> (#[trigger] renumber_moras(spans, offset)[k]).mora_end
                == renumber_moras(spans, offset)[k + 1].mora_start,
        forall|k: int|
            0 <= k < spans.len() ==> {
                let a = #[trigger] renumber_moras(spans, offset)[k];
                &&& a.surface == spans[k].surface
                &&& a.reading == spans[k].reading
                &&& a.char_start == spans[k].char_start
                &&& a.char_end == spans[k].char_end
            },
    decreases spans.len(),
{
    if spans.len() > 0 {
        let rest = spans.drop_first();
        let n = span_moras(spans[0]);
        lemma_renumber_moras_contiguous(rest, offset + n);
        let r = renumber_moras(spans, offset);
        let rr = renumber_moras(rest, offset + n);
        assert(r == seq![ReadingSpanModel { mora_start: offset, mora_end: offset + n, ..spans[0] }] + rr);
        assert forall|k: int| 0 <= k < spans.len() implies (#[trigger] r[k]).mora_end - r[k].mora_start
            == span_moras(spans[k]) by {
            if k > 0 {
                assert(r[k] == rr[k - 1]);
                assert(spans[k] == rest[k - 1]);
            }
        }
        assert forall|k: int| 0 <= k < spans.len() - 1 implies (#[trigger] r[k]).mora_end == r[k
            + 1].mora_start by {
            assert(r[k + 1] == rr[k]);
            if k > 0 {
                assert(r[k] == rr[k - 1]);
            }
        }
        assert forall|k: int| 0 <= k < spans.len() implies {
            let a = #[trigger] r[k];
            &&& a.surface == spans[k].surface
            &&& a.reading == spans[k].reading
            &&& a.char_start == spans[k].char_start
            &&& a.char_end == spans[k].char_end
        } by {
            if k > 0 {
                assert(r[k] == rr[k - 1]);
                assert(spans[k] == rest[k - 1]);
            }
        }
    }
}

/// Renumbering spans that are already numbered from the same offset leaves
/// them as they are.
proof fn lemma_renumber_moras_settled(spans: Seq<ReadingSpanModel>, offset: int)
    ensures
        renumber_moras(renumber_moras(spans, offset), offset) == renumber_moras(spans, offset),
    decreases spans.len(),
{
    if spans.len() > 0 {
        let h = spans[0];
        let n = span_moras(h);
        let once = renumber_moras(spans, offset);
        let h1 = ReadingSpanModel { mora_start: offset, mora_end: offset + n, ..h };
        lemma_renumber_moras_settled(spans.drop_first(), offset + n);
        assert(once == seq![h1] + renumber_moras(spans.drop_first(), offset + n));
        assert(once[0] == h1);
        assert(once.drop_first() =~= renumber_moras(spans.drop_first(), offset + n));
        assert(span_moras(h1) == n);
        assert(ReadingSpanModel { mora_start: offset, mora_end: offset + n, ..h1 } == h1);
        assert(renumber_moras(once, offset) =~= seq![h1] + renumber_moras(once.drop_first(), offset + n));
    }
}

/// The spans that `apply_reading_overrides` leaves have mora ranges that
/// follow one another from 0, each as long as its reading's moras (none for
/// an empty reading); and a second call with no overrides leaves them as
/// they are.
pub proof fn lemma_overrides_settle(
    spans: Seq<ReadingSpanModel>,
    ovs: Seq<(int, int, Seq<char>)>,
    text: Seq<char>,
)
    ensures
        ({
            let applied = apply_overrides_from(spans, ovs, 0, text);
            let once = renumber_moras(applied, 0);
            &&& once.len() == applied.len()
            &&& once.len() > 0 ==> once[0].mora_start == 0
            &&& forall|k: int|
                0 <= k < once.len() - 1 ==> (#[trigger] once[k]).mora_end == once[k + 1].mora_start
            &&& forall|k: int|
                0 <= k < once.len() ==> (#[trigger] once[k]).mora_end - once[k].mora_start
                    == span_moras(applied[k]) && once[k].reading == applied[k].reading
            &&& renumber_moras(apply_overrides_from(once, Seq::empty(), 0, text), 0) == once
        }),
{
    let applied = apply_overrides_from(spans, ovs, 0, text);
    lemma_renumber_moras_contiguous(applied, 0);
    assert(apply_overrides_from(renumber_moras(applied, 0), Seq::empty(), 0, text) == renumber_moras(
        applied,
        0,
    ));
    lemma_renumber_moras_settled(applied, 0);
}

/// The surfaces of the fragments of `s[i..]`, concatenated, are `s[i..]`;
/// each fragment ends where its run of same-class chars ends.
proof fn lemma_fragment_surfaces(s: Seq<char>, i: int)
    requires
        0 <= i <= s.len(),
    ensures
        fragments_from(s, i).map_values(|f: (int, int)| s.subrange(f.0, f.1)).flatten()
            == s.subrange(i, s.len() as int),
        forall|k: int|
            0 <= k < fragments_from(s, i).len() ==> (#[trigger] fragments_from(s, i)[k]).1
                == run_end(s, fragments_from(s, i)[k].0),
    decreases s.len() - i,
{
    let f = fragments_from(s, i);
    let m = f.map_values(|f: (int, int)| s.subrange(f.0, f.1));
    if i < s.len() {
        lemma_run_end(s, i);
        let e = run_end(s, i);
        lemma_fragment_surfaces(s, e);
        let rest = fragments_from(s, e);
        assert(f == seq![(i, e)] + rest);
        assert(m.first() == s.subrange(i, e));
        assert(m.drop_first() =~= rest.map_values(|f: (int, int)| s.subrange(f.0, f.1)));
        assert(s.subrange(i, e) + s.subrange(e, s.len() as int) =~= s.subrange(i, s.len() as int));
        assert forall|k: int| 0 <= k < f.len() implies (#[trigger] f[k]).1 == run_end(s, f[k].0) by {
            if k > 0 {
                assert(f[k] == rest[k - 1]);
            }
        }
    } else {
        assert(m =~= Seq::<Seq<char>>::empty());
        assert(s.subrange(i, s.len() as int) =~= Seq::<char>::empty());
    }
}

/// Kana-only spans cut the text into maximal runs: their surfaces,
/// concatenated, are the text, and each span is kana (with ー) exactly when
/// the next one is not.
pub proof fn lemma_kana_only_spans_cover(s: Seq<char>)
    ensures
        kana_only_spans(s).map_values(|sp: ReadingSpanModel| sp.surface).flatten() == s,
        forall|k: int|
            0 <= k < kana_only_spans(s).len() - 1 ==> is_kana_class(
                (#[trigger] kana_only_spans(s)[k]).surface[0],
            ) != is_kana_class(kana_only_spans(s)[k + 1].surface[0]),
{
    let f = fragments_from(s, 0);
    let sp = kana_only_spans(s);
    lemma_fragment_surfaces(s, 0);
    lemma_fragments_tile(s, 0);
    assert(sp.map_values(|sp: ReadingSpanModel| sp.surface) =~= f.map_values(
        |f: (int, int)| s.subrange(f.0, f.1),
    ));
    assert(s.subrange(0, s.len() as int) =~= s);
    assert forall|k: int| 0 <= k < sp.len() - 1 implies is_kana_class(
        (#[trigger] sp[k]).surface[0],
    ) != is_kana_class(sp[k + 1].surface[0]) by {
        assert(f[k].1 == run_end(s, f[k].0));
        assert(f[k].1 == f[k + 1].0);
        lemma_run_end(s, f[k].0);
        assert(sp[k].surface[0] == s[f[k].0]);
        assert(sp[k + 1].surface[0] == s[f[k + 1].0]);
    }
}

/// Kana-only spans tile the text: the first starts at 0, each starts where
/// the one before ends and the last ends at the text's end (no span for an
/// empty text); each display range is its char range. A kana span (kana and
/// ー) reads and is pronounced as its surface with exact confidence and
/// takes its surface's moras; any other span has no reading, unknown
/// confidence and no mora. Mora ranges follow one another from 0.
pub proof fn lemma_kana_only_spans_shape(s: Seq<char>)
    ensures
        ({
            let sp = kana_only_spans(s);
            &&& (sp.len() == 0 <==> s.len() == 0)
            &&& sp.len() > 0 ==> sp[0].char_start == 0 && sp[0].mora_start == 0 && sp[sp.len()
                - 1].char_end == s.len()
            &&& forall|k: int|
                0 <= k < sp.len() - 1 ==> (#[trigger] sp[k]).char_end == sp[k + 1].char_start
                    && sp[k].mora_end == sp[k + 1].mora_start
            &&& forall|k: int| 0 <= k < sp.len() ==> kana_only_span_shaped(s, #[trigger] sp[k])
        }),
{
    let sp = kana_only_spans(s);
    lemma_fragment_count(s);
    assert forall|k: int| 0 <= k < sp.len() - 1 implies (#[trigger] sp[k]).char_end == sp[k
        + 1].char_start && sp[k].mora_end == sp[k + 1].mora_start by {
        lemma_kana_only_span_at(s, k);
        lemma_kana_only_span_at(s, k + 1);
    }
    assert forall|k: int| 0 <= k < sp.len() implies kana_only_span_shaped(s, #[trigger] sp[k]) by {
        lemma_kana_only_span_at(s, k);
    }
    if sp.len() > 0 {
        lemma_kana_only_span_at(s, 0);
        lemma_kana_only_span_at(s, sp.len() - 1);
    }
}

proof fn lemma_fragment_count(s: Seq<char>)
    ensures
        kana_only_spans(s).len() == fragments_from(s, 0).len(),
        fragments_from(s, 0).len() == 0 <==> s.len() == 0,
{
    lemma_fragments_tile(s, 0);
}

/// The shape of one kana-only span of `s`.
pub open spec fn kana_only_span_shaped(s: Seq<char>, x: ReadingSpanModel) -> bool {
    &&& 0 <= x.char_start < x.char_end <= s.len()
    &&& x.surface == s.subrange(x.char_start, x.char_end)
    &&& x.display_start == x.char_start && x.display_end == x.char_end
    &&& is_kana_class(x.surface[0]) ==> x.reading == x.surface && x.pronunciation == x.surface
        && x.confidence == ReadingConfidence::Exact && x.mora_end - x.mora_start == mora_count(
        x.surface,
    )
    &&& !is_kana_class(x.surface[0]) ==> x.reading.len() == 0 && x.pronunciation.len() == 0
        && x.confidence == ReadingConfidence::Unknown && x.mora_end == x.mora_start
}

#[verifier::spinoff_prover]
proof fn lemma_kana_only_span_at(s: Seq<char>, k: int)
    requires
        0 <= k < fragments_from(s, 0).len(),
    ensures
        kana_only_spans(s)[k] == kana_only_span(s, k),
        kana_only_span_shaped(s, kana_only_span(s, k)),
        kana_only_span(s, k).char_start == fragments_from(s, 0)[k].0,
        kana_only_span(s, k).char_end == fragments_from(s, 0)[k].1,
        kana_only_span(s, k).mora_start == fragment_mora_prefix(s, fragments_from(s, 0), k),
        kana_only_span(s, k).mora_end == fragment_mora_prefix(s, fragments_from(s, 0), k + 1),
        k == 0 ==> kana_only_span(s, k).mora_start == 0 && kana_only_span(s, k).char_start == 0,
        k == fragments_from(s, 0).len() - 1 ==> kana_only_span(s, k).char_end == s.len(),
        k + 1 < fragments_from(s, 0).len() ==> fragments_from(s, 0)[k].1 == fragments_from(
            s,
            0,
        )[k + 1].0,
{
    let f = fragments_from(s, 0);
    lemma_fragments_tile(s, 0);
    let x = kana_only_span(s, k);
    assert(x.surface[0] == s[f[k].0]);
    assert(fragment_mora_prefix(s, f, k + 1) == fragment_mora_prefix(s, f, k) + fragment_moras(
        s,
        f[k],
    ));
}

/// A well-formed annotation of `s`: a non-empty run of kanji, `(`, a
/// non-empty reading and `)`, found in `s` at `raw_start..raw_end`.
pub open spec fn annotation_well_formed(s: Seq<char>, a: AnnotationModel) -> bool {
    &&& 0 <= a.raw_start < a.raw_end <= s.len()
    &&& a.surface.len() > 0
    &&& a.reading.len() > 0
    &&& forall|k: int| 0 <= k < a.surface.len() ==> spec_is_kanji(#[trigger] a.surface[k])
    &&& forall|k: int|
        0 <= k < a.reading.len() ==> spec_is_ruby_reading_char(#[trigger] a.reading[k])
    &&& s.subrange(a.raw_start, a.raw_end) == a.surface + seq!['('] + a.reading + seq![')']
}

/// Well-formed annotations that end by `i`, in order, with disjoint raw
/// ranges.
pub open spec fn annotations_in_order(s: Seq<char>, anns: Seq<AnnotationModel>, i: int) -> bool {
    &&& forall|k: int|
        0 <= k < anns.len() ==> annotation_well_formed(s, #[trigger] anns[k]) && anns[k].raw_end
            <= i
    &&& forall|k: int| 0 <= k < anns.len() - 1 ==> (#[trigger] anns[k]).raw_end <= anns[k + 1].raw_start
}

/// The raw end of the last annotation, or 0.
pub open spec fn last_raw_end(anns: Seq<AnnotationModel>) -> int {
    if anns.len() > 0 {
        anns.last().raw_end
    } else {
        0
    }
}

proof fn lemma_ruby_at_in_order(s: Seq<char>, i: int, display_len: int, anns: Seq<AnnotationModel>)
    requires
        0 <= i <= s.len(),
        annotations_in_order(s, anns, i),
        ruby_at(s, i, display_len) is Some,
    ensures
        ({
            let a = ruby_at(s, i, display_len)->0;
            &&& annotations_in_order(s, anns.push(a), a.raw_end)
            &&& last_raw_end(anns) <= a.raw_start
            &&& a.raw_start + a.surface.len() == i
            &&& i < a.raw_end <= s.len()
        }),
{
    let a = ruby_at(s, i, display_len)->0;
    let close = find_close(s, i + 1);
    let start = kanji_run_start(s, i);
    lemma_find_close(s, i + 1);
    lemma_kanji_run_start(s, i);
    lemma_kanji_run_start(s, i - 1);
    assert(start == kanji_run_start(s, i - 1));
    assert(a.raw_start == start && a.raw_end == close + 1);
    assert forall|k: int| 0 <= k < a.surface.len() implies spec_is_kanji(
        #[trigger] a.surface[k],
    ) by {
        assert(a.surface[k] == s[start + k]);
    }
    assert forall|k: int| 0 <= k < a.reading.len() implies spec_is_ruby_reading_char(
        #[trigger] a.reading[k],
    ) by {
        assert(a.reading[k] == s[i + 1 + k]);
    }
    assert(s.subrange(a.raw_start, a.raw_end) =~= a.surface + seq!['('] + a.reading + seq![')']);
    let next = anns.push(a);
    if anns.len() > 0 {
        let prev = anns[anns.len() - 1];
        assert(annotation_well_formed(s, prev));
        assert(prev.raw_end <= i);
        if start < prev.raw_end {
            let w = prev.surface + seq!['('] + prev.reading;
            let full = w + seq![')'];
            assert(full[w.len() as int] == ')');
            assert(s.subrange(prev.raw_start, prev.raw_end) == full);
            assert(s.subrange(prev.raw_start, prev.raw_end).len() == prev.raw_end
                - prev.raw_start);
            assert(full.len() == w.len() + 1);
            assert(prev.raw_end - prev.raw_start == w.len() + 1);
            assert(s.subrange(prev.raw_start, prev.raw_end)[w.len() as int] == s[prev.raw_end
                - 1]);
            assert(s[prev.raw_end - 1] == ')');
            assert(spec_is_kanji(s[prev.raw_end - 1]));
        }
    }
    assert forall|k: int| 0 <= k < next.len() implies annotation_well_formed(
        s,
        #[trigger] next[k],
    ) && next[k].raw_end <= close + 1 by {
        if k < anns.len() {
            assert(next[k] == anns[k]);
        }
    }
    assert forall|k: int| 0 <= k < next.len() - 1 implies (#[trigger] next[k]).raw_end
        <= next[k + 1].raw_start by {
        assert(next[k] == anns[k]);
        if k + 1 < anns.len() {
            assert(next[k + 1] == anns[k + 1]);
        }
    }
}

proof fn lemma_ruby_scan_in_order(
    s: Seq<char>,
    i: int,
    display: Seq<char>,
    anns: Seq<AnnotationModel>,
)
    requires
        0 <= i <= s.len(),
        annotations_in_order(s, anns, i),
    ensures
        annotations_in_order(s, ruby_scan(s, i, display, anns).1, s.len() as int),
    decreases s.len() - i,
{
    if i >= s.len() {
    } else if s[i] == '\\' && i + 1 < s.len() && (s[i + 1] == '(' || s[i + 1] == ')') {
        lemma_ruby_scan_in_order(s, i + 2, display.push(s[i + 1]), anns);
    } else if let Some(a) = ruby_at(s, i, display.len() as int) {
        lemma_ruby_at_in_order(s, i, display.len() as int, anns);
        lemma_ruby_scan_in_order(s, a.raw_end, display, anns.push(a));
    } else {
        lemma_ruby_scan_in_order(s, i + 1, display.push(s[i]), anns);
    }
}

proof fn lemma_ruby_scan_plain(s: Seq<char>, i: int)
    requires
        0 <= i <= s.len(),
        forall|k: int| 0 <= k < s.len() ==> #[trigger] s[k] != '(' && s[k] != '\\',
    ensures
        ruby_scan(s, i, s.subrange(0, i), Seq::empty()) == (s, Seq::<AnnotationModel>::empty()),
    decreases s.len() - i,
{
    if i < s.len() {
        assert(s[i] != '(' && s[i] != '\\');
        assert(ruby_at(s, i, i).is_none());
        assert(s.subrange(0, i).push(s[i]) =~= s.subrange(0, i + 1));
        lemma_ruby_scan_plain(s, i + 1);
    } else {
        assert(s.subrange(0, i) =~= s);
    }
}

/// Ruby annotations are well formed and in order: each surface is a
/// non-empty run of kanji and each reading non-empty kana (ー and ・ allowed);
/// the raw text at `raw_start..raw_end` is `surface(reading)`; annotations
/// come in text order and their raw ranges do not overlap. Text with no `(`
/// and no backslash has no annotation and shows as written.
pub proof fn lemma_ruby_annotations_well_formed(s: Seq<char>)
    ensures
        annotations_in_order(s, ruby_parse(s).1, s.len() as int),
        (forall|k: int| 0 <= k < s.len() ==> #[trigger] s[k] != '(' && s[k] != '\\') ==> ruby_parse(s)
            == (s, Seq::<AnnotationModel>::empty()),
{
    lemma_ruby_scan_in_order(s, 0, Seq::empty(), Seq::empty());
    if forall|k: int| 0 <= k < s.len() ==> #[trigger] s[k] != '(' && s[k] != '\\' {
        assert(s.subrange(0, 0) =~= Seq::<char>::empty());
        lemma_ruby_scan_plain(s, 0);
    }
}

/// The markup chars of an annotation: its reading and parentheses.
pub open spec fn markup_len(a: AnnotationModel) -> int {
    sat_sub(sat_sub(a.raw_end, a.raw_start), a.surface.len() as int)
}

/// The markup chars of the annotations `anns[a..b]`.
pub open spec fn markup_between(anns: Seq<AnnotationModel>, a: int, b: int) -> int
    decreases b - a,
{
    if a < 0 || a >= b || b > anns.len() {
        0
    } else {
        markup_len(anns[a]) + markup_between(anns, a + 1, b)
    }
}

/// Each annotation's display range starts at its raw start less the markup
/// of the annotations before it, and is as long as its surface.
pub open spec fn display_coordinates(anns: Seq<AnnotationModel>) -> bool {
    forall|k: int|
        0 <= k < anns.len() ==> {
            &&& (#[trigger] anns[k]).display_start == anns[k].raw_start - markup_between(anns, 0, k)
            &&& anns[k].display_end == anns[k].display_start + anns[k].surface.len()
        }
}

proof fn lemma_markup_between_nonneg(anns: Seq<AnnotationModel>, a: int, b: int)
    ensures
        markup_between(anns, a, b) >= 0,
    decreases b - a,
{
    if !(a < 0 || a >= b || b > anns.len()) {
        lemma_markup_between_nonneg(anns, a + 1, b);
    }
}

proof fn lemma_markup_between_extend(anns: Seq<AnnotationModel>, a: int, b: int)
    requires
        0 <= a <= b < anns.len(),
    ensures
        markup_between(anns, a, b + 1) == markup_between(anns, a, b) + markup_len(anns[b]),
    decreases b - a,
{
    if a < b {
        lemma_markup_between_extend(anns, a + 1, b);
        assert(markup_between(anns, a, b) == markup_len(anns[a]) + markup_between(anns, a + 1, b));
        assert(markup_between(anns, a, b + 1) == markup_len(anns[a]) + markup_between(
            anns,
            a + 1,
            b + 1,
        ));
    } else {
        assert(markup_between(anns, b + 1, b + 1) == 0);
        assert(markup_between(anns, b, b) == 0);
        assert(markup_between(anns, b, b + 1) == markup_len(anns[b]) + markup_between(
            anns,
            b + 1,
            b + 1,
        ));
    }
}

proof fn lemma_markup_between_prefix(
    anns: Seq<AnnotationModel>,
    other: Seq<AnnotationModel>,
    a: int,
    b: int,
)
    requires
        0 <= a <= b <= anns.len(),
        b <= other.len(),
        forall|j: int| a <= j < b ==> anns[j] == other[j],
    ensures
        markup_between(anns, a, b) == markup_between(other, a, b),
    decreases b - a,
{
    if a < b {
        lemma_markup_between_prefix(anns, other, a + 1, b);
    }
}

proof fn lemma_ruby_scan_display(
    s: Seq<char>,
    i: int,
    display: Seq<char>,
    anns: Seq<AnnotationModel>,
)
    requires
        forall|k: int| 0 <= k < s.len() ==> #[trigger] s[k] != '\\',
        0 <= i <= s.len(),
        annotations_in_order(s, anns, i),
        display.len() == i - markup_between(anns, 0, anns.len() as int),
        markup_between(anns, 0, anns.len() as int) <= last_raw_end(anns),
        display_coordinates(anns),
    ensures
        display_coordinates(ruby_scan(s, i, display, anns).1),
        ruby_scan(s, i, display, anns).0.len() == s.len() - markup_between(
            ruby_scan(s, i, display, anns).1,
            0,
            ruby_scan(s, i, display, anns).1.len() as int,
        ),
    decreases s.len() - i,
{
    let n = anns.len() as int;
    let mt = markup_between(anns, 0, n);
    if i >= s.len() {
    } else if s[i] == '\\' && i + 1 < s.len() && (s[i + 1] == '(' || s[i + 1] == ')') {
    } else if let Some(a) = ruby_at(s, i, display.len() as int) {
        lemma_ruby_at_in_order(s, i, display.len() as int, anns);
        if n > 0 {
            assert(annotation_well_formed(s, anns[n - 1]));
        }
        let next = anns.push(a);
        assert(annotation_well_formed(s, next[n]));
        lemma_markup_between_prefix(anns, next, 0, n);
        lemma_markup_between_extend(next, 0, n);
        lemma_markup_between_nonneg(anns, 0, n);
        assert(a.display_start == a.raw_start - mt);
        assert(markup_len(a) == a.raw_end - i);
        assert forall|k: int| 0 <= k < next.len() implies {
            &&& (#[trigger] next[k]).display_start == next[k].raw_start - markup_between(next, 0, k)
            &&& next[k].display_end == next[k].display_start + next[k].surface.len()
        } by {
            if k < n {
                assert(next[k] == anns[k]);
                lemma_markup_between_prefix(anns, next, 0, k);
            }
        }
        assert(last_raw_end(next) == a.raw_end);
        lemma_ruby_scan_display(s, a.raw_end, display, next);
    } else {
        assert(annotations_in_order(s, anns, i + 1));
        lemma_ruby_scan_display(s, i + 1, display.push(s[i]), anns);
    }
}

proof fn lemma_sorted_far(s: Seq<char>, anns: Seq<AnnotationModel>, k: int, j: int)
    requires
        annotations_in_order(s, anns, s.len() as int),
        0 <= k < j < anns.len(),
    ensures
        anns[k].raw_end <= anns[j].raw_start,
    decreases j - k,
{
    if k + 1 < j {
        lemma_sorted_far(s, anns, k + 1, j);
        assert(annotation_well_formed(s, anns[k + 1]));
    }
}

proof fn lemma_first_containing_some(
    s: Seq<char>,
    anns: Seq<AnnotationModel>,
    k: int,
    j: int,
    x: int,
)
    requires
        annotations_in_order(s, anns, s.len() as int),
        0 <= k <= j < anns.len(),
        anns[j].raw_start <= x < anns[j].raw_end,
    ensures
        first_containing(anns, k, x) == Some(j),
    decreases j - k,
{
    if k < j {
        lemma_sorted_far(s, anns, k, j);
        assert(annotation_well_formed(s, anns[k]));
        lemma_first_containing_some(s, anns, k + 1, j, x);
    }
}

proof fn lemma_first_containing_holds(anns: Seq<AnnotationModel>, k: int, x: int)
    requires
        0 <= k,
        first_containing(anns, k, x) is Some,
    ensures
        ({
            let j = first_containing(anns, k, x)->0;
            k <= j < anns.len() && anns[j].raw_start <= x < anns[j].raw_end
        }),
    decreases anns.len() - k,
{
    if k < anns.len() && !(x < anns[k].raw_start) && !(x < anns[k].raw_end) {
        lemma_first_containing_holds(anns, k + 1, x);
    }
}

/// The markup of the annotations from `k` on that end exactly at `p`.
pub open spec fn markup_ending_at(anns: Seq<AnnotationModel>, k: int, p: int) -> int
    decreases anns.len() - k,
{
    if k < 0 || k >= anns.len() {
        0
    } else {
        (if anns[k].raw_end == p {
            markup_len(anns[k])
        } else {
            0
        }) + markup_ending_at(anns, k + 1, p)
    }
}

proof fn lemma_removed_before_step(anns: Seq<AnnotationModel>, k: int, x: int)
    ensures
        removed_before(anns, k, x + 1) == removed_before(anns, k, x) + markup_ending_at(anns, k, x + 1),
    decreases anns.len() - k,
{
    if 0 <= k < anns.len() {
        lemma_removed_before_step(anns, k + 1, x);
    }
}

proof fn lemma_markup_ending_none(anns: Seq<AnnotationModel>, k: int, p: int)
    requires
        forall|j: int| k <= j < anns.len() ==> (#[trigger] anns[j]).raw_end != p,
    ensures
        markup_ending_at(anns, k, p) == 0,
    decreases anns.len() - k,
{
    if 0 <= k < anns.len() {
        lemma_markup_ending_none(anns, k + 1, p);
    }
}

proof fn lemma_removed_before_prefix(
    anns: Seq<AnnotationModel>,
    a: int,
    k: int,
    x: int,
)
    requires
        0 <= a <= k <= anns.len(),
        forall|j: int| a <= j < k ==> (#[trigger] anns[j]).raw_end <= x,
        forall|j: int| k <= j < anns.len() ==> (#[trigger] anns[j]).raw_end > x,
    ensures
        removed_before(anns, a, x) == markup_between(anns, a, k),
    decreases anns.len() - a,
{
    if a < anns.len() {
        lemma_removed_before_prefix(anns, a + 1, if a < k { k } else { a + 1 }, x);
        if a == k {
            assert(markup_between(anns, a + 1, a + 1) == 0);
        }
    }
}

/// The display offset from the annotations and their display coordinates,
/// one raw position to the next.
proof fn lemma_display_offset_step(s: Seq<char>, anns: Seq<AnnotationModel>, x: int)
    requires
        annotations_in_order(s, anns, s.len() as int),
        display_coordinates(anns),
        forall|k: int| 0 <= k < anns.len() ==> (#[trigger] anns[k]).display_start >= 0,
        0 <= x,
        x + 1 <= usize::MAX,
    ensures
        spec_ruby_display_offset(anns, x) <= spec_ruby_display_offset(anns, x + 1),
        spec_ruby_display_offset(anns, x) <= x,
        spec_ruby_display_offset(anns, x + 1) <= x + 1,
{
    lemma_removed_before_nonneg(anns, 0, x);
    lemma_removed_before_nonneg(anns, 0, x + 1);
    let fx = first_containing(anns, 0, x);
    let fy = first_containing(anns, 0, x + 1);
    if fx is Some {
        lemma_first_containing_holds(anns, 0, x);
    }
    if fy is Some {
        lemma_first_containing_holds(anns, 0, x + 1);
    }
    if let Some(j) = fx {
        let aj = anns[j];
        assert(annotation_well_formed(s, aj));
        lemma_markup_between_nonneg(anns, 0, j);
        assert(s.subrange(aj.raw_start, aj.raw_end).len() == aj.raw_end - aj.raw_start);
        assert((aj.surface + seq!['('] + aj.reading + seq![')']).len() == aj.surface.len()
            + aj.reading.len() + 2);
        if x + 1 < aj.raw_end {
            lemma_first_containing_some(s, anns, 0, j, x + 1);
        } else {
            // x + 1 ends annotation j.
            lemma_markup_between_extend(anns, 0, j);
            if let Some(j2) = fy {
                assert(j2 != j);
                if j2 < j {
                    lemma_sorted_far(s, anns, j2, j);
                }
                if j2 > j + 1 {
                    lemma_sorted_far(s, anns, j + 1, j2);
                    assert(annotation_well_formed(s, anns[j + 1]));
                }
                assert(j2 == j + 1);
                assert(anns[j2].raw_start == x + 1) by {
                    lemma_sorted_far(s, anns, j, j2);
                }
            } else {
                assert forall|i: int| 0 <= i <= j implies (#[trigger] anns[i]).raw_end <= x + 1 by {
                    if i < j {
                        lemma_sorted_far(s, anns, i, j);
                    }
                }
                assert forall|i: int| j + 1 <= i < anns.len() implies (#[trigger] anns[i]).raw_end
                    > x + 1 by {
                    lemma_sorted_far(s, anns, j, i);
                    assert(annotation_well_formed(s, anns[i]));
                }
                lemma_removed_before_prefix(anns, 0, j + 1, x + 1);
            }
        }
    } else {
        // x lies in no annotation: none ends at x + 1.
        assert forall|i: int| 0 <= i < anns.len() implies (#[trigger] anns[i]).raw_end != x + 1 by {
            if anns[i].raw_end == x + 1 {
                assert(annotation_well_formed(s, anns[i]));
                lemma_first_containing_some(s, anns, 0, i, x);
            }
        }
        lemma_markup_ending_none(anns, 0, x + 1);
        lemma_removed_before_step(anns, 0, x);
        if let Some(j) = fy {
            lemma_markup_between_nonneg(anns, 0, j);
            if anns[j].raw_start <= x {
                lemma_first_containing_some(s, anns, 0, j, x);
            }
            assert forall|i: int| 0 <= i < j implies (#[trigger] anns[i]).raw_end <= x by {
                lemma_sorted_far(s, anns, i, j);
            }
            assert forall|i: int| j <= i < anns.len() implies (#[trigger] anns[i]).raw_end > x by {
                if i > j {
                    lemma_sorted_far(s, anns, j, i);
                }
                assert(annotation_well_formed(s, anns[i]));
            }
            lemma_removed_before_prefix(anns, 0, j, x);
        }
    }
}

/// Raw to display offsets keep their order: for text without backslashes,
/// `ruby_display_offset` never decreases as the raw position grows and never
/// exceeds it; an annotation's raw start maps to its display start.
pub proof fn lemma_ruby_display_offset_monotone(s: Seq<char>, x: int, y: int)
    requires
        forall|k: int| 0 <= k < s.len() ==> #[trigger] s[k] != '\\',
        0 <= x <= y <= usize::MAX,
    ensures
        spec_ruby_display_offset(ruby_parse(s).1, x) <= spec_ruby_display_offset(ruby_parse(s).1, y),
        spec_ruby_display_offset(ruby_parse(s).1, x) <= x,
        forall|k: int|
            0 <= k < ruby_parse(s).1.len() && (#[trigger] ruby_parse(s).1[k]).raw_start
                <= usize::MAX ==> spec_ruby_display_offset(ruby_parse(s).1, ruby_parse(s).1[k].raw_start)
                == ruby_parse(s).1[k].display_start,
    decreases y - x,
{
    let anns = ruby_parse(s).1;
    let e = Seq::<AnnotationModel>::empty();
    assert(markup_between(e, 0, 0) == 0);
    lemma_ruby_scan_in_order(s, 0, Seq::empty(), e);
    lemma_ruby_scan_display(s, 0, Seq::empty(), e);
    lemma_ruby_annotations_nonneg(s);
    assert forall|k: int|
        0 <= k < anns.len() && (#[trigger] anns[k]).raw_start <= usize::MAX implies spec_ruby_display_offset(
        anns,
        anns[k].raw_start,
    ) == anns[k].display_start by {
        assert(annotation_well_formed(s, anns[k]));
        lemma_first_containing_some(s, anns, 0, k, anns[k].raw_start);
        lemma_markup_between_nonneg(anns, 0, k);
    }
    if x < y {
        lemma_ruby_display_offset_monotone(s, x + 1, y);
        lemma_display_offset_step(s, anns, x);
    } else {
        if x + 1 <= usize::MAX {
            lemma_display_offset_step(s, anns, x);
        } else if x > 0 {
            lemma_display_offset_step(s, anns, x - 1);
        } else {
            lemma_removed_before_nonneg(anns, 0, x);
            if first_containing(anns, 0, x) is Some {
                lemma_first_containing_holds(anns, 0, x);
            }
        }
    }
}

proof fn lemma_ruby_annotations_nonneg(s: Seq<char>)
    ensures
        forall|k: int|
            0 <= k < ruby_parse(s).1.len() ==> (#[trigger] ruby_parse(s).1[k]).display_start >= 0,
{
    lemma_ruby_scan_nonneg(s, 0, Seq::empty(), Seq::empty());
}

proof fn lemma_ruby_scan_nonneg(s: Seq<char>, i: int, display: Seq<char>, anns: Seq<AnnotationModel>)
    requires
        forall|k: int| 0 <= k < anns.len() ==> (#[trigger] anns[k]).display_start >= 0,
    ensures
        forall|k: int|
            0 <= k < ruby_scan(s, i, display, anns).1.len() ==> (#[trigger] ruby_scan(
                s,
                i,
                display,
                anns,
            ).1[k]).display_start >= 0,
    decreases s.len() - i,
{
    if i < 0 || i >= s.len() {
    } else if s[i] == '\\' && i + 1 < s.len() && (s[i + 1] == '(' || s[i + 1] == ')') {
        lemma_ruby_scan_nonneg(s, i + 2, display.push(s[i + 1]), anns);
        assert(ruby_scan(s, i, display, anns) == ruby_scan(s, i + 2, display.push(s[i + 1]), anns));
    } else if let Some(a) = ruby_at(s, i, display.len() as int) {
        let next = anns.push(a);
        assert(ruby_scan(s, i, display, anns) == ruby_scan(s, a.raw_end, display, next));
        assert forall|k: int| 0 <= k < next.len() implies (#[trigger] next[k]).display_start >= 0 by {
            if k < anns.len() {
                assert(next[k] == anns[k]);
            }
        }
        lemma_ruby_scan_nonneg(s, a.raw_end, display, next);
    } else {
        lemma_ruby_scan_nonneg(s, i + 1, display.push(s[i]), anns);
        assert(ruby_scan(s, i, display, anns) == ruby_scan(s, i + 1, display.push(s[i]), anns));
    }
}

proof fn lemma_offset_at_raw_end(s: Seq<char>, anns: Seq<AnnotationModel>, k: int)
    requires
        annotations_in_order(s, anns, s.len() as int),
        display_coordinates(anns),
        forall|j: int| 0 <= j < anns.len() ==> (#[trigger] anns[j]).display_start >= 0,
        0 <= k < anns.len(),
        anns[k].raw_end <= usize::MAX,
    ensures
        spec_ruby_display_offset(anns, anns[k].raw_end) == anns[k].display_end,
{
    let x = anns[k].raw_end;
    let ak = anns[k];
    assert(annotation_well_formed(s, ak));
    assert(s.subrange(ak.raw_start, ak.raw_end).len() == ak.raw_end - ak.raw_start);
    assert((ak.surface + seq!['('] + ak.reading + seq![')']).len() == ak.surface.len()
        + ak.reading.len() + 2);
    lemma_markup_between_extend(anns, 0, k);
    lemma_markup_between_nonneg(anns, 0, k);
    let fy = first_containing(anns, 0, x);
    if let Some(j2) = fy {
        lemma_first_containing_holds(anns, 0, x);
        if j2 <= k {
            if j2 < k {
                lemma_sorted_far(s, anns, j2, k);
            }
        }
        if j2 > k + 1 {
            lemma_sorted_far(s, anns, k + 1, j2);
            assert(annotation_well_formed(s, anns[k + 1]));
        }
        assert(j2 == k + 1);
        assert(anns[j2].raw_start == x) by {
            lemma_sorted_far(s, anns, k, j2);
        }
    } else {
        assert forall|i: int| 0 <= i <= k implies (#[trigger] anns[i]).raw_end <= x by {
            if i < k {
                lemma_sorted_far(s, anns, i, k);
            }
        }
        assert forall|i: int| k + 1 <= i < anns.len() implies (#[trigger] anns[i]).raw_end > x by {
            lemma_sorted_far(s, anns, k, i);
            assert(annotation_well_formed(s, anns[i]));
        }
        lemma_removed_before_prefix(anns, 0, k + 1, x);
    }
}

/// The ends of ruby display offsets, for text without backslashes: an
/// annotation's raw end maps to its display end, the end of the raw text
/// maps to the length of the display text, and without annotations every
/// position maps to itself.
pub proof fn lemma_ruby_display_offset_ends(s: Seq<char>)
    requires
        forall|k: int| 0 <= k < s.len() ==> #[trigger] s[k] != '\\',
        s.len() <= usize::MAX,
    ensures
        forall|k: int|
            0 <= k < ruby_parse(s).1.len() ==> spec_ruby_display_offset(
                ruby_parse(s).1,
                (#[trigger] ruby_parse(s).1[k]).raw_end,
            ) == ruby_parse(s).1[k].display_end,
        spec_ruby_display_offset(ruby_parse(s).1, s.len() as int) == ruby_parse(s).0.len(),
        ruby_parse(s).1.len() == 0 ==> forall|x: int|
            0 <= x <= usize::MAX ==> #[trigger] spec_ruby_display_offset(ruby_parse(s).1, x) == x,
{
    let anns = ruby_parse(s).1;
    let e = Seq::<AnnotationModel>::empty();
    assert(markup_between(e, 0, 0) == 0);
    lemma_ruby_scan_in_order(s, 0, Seq::empty(), e);
    lemma_ruby_scan_display(s, 0, Seq::empty(), e);
    lemma_ruby_annotations_nonneg(s);
    assert forall|k: int| 0 <= k < anns.len() implies spec_ruby_display_offset(
        anns,
        (#[trigger] anns[k]).raw_end,
    ) == anns[k].display_end by {
        assert(annotation_well_formed(s, anns[k]));
        lemma_offset_at_raw_end(s, anns, k);
    }
    let n = s.len() as int;
    if first_containing(anns, 0, n) is Some {
        lemma_first_containing_holds(anns, 0, n);
        let j = first_containing(anns, 0, n)->0;
        assert(annotation_well_formed(s, anns[j]));
    }
    assert forall|i: int| 0 <= i < anns.len() implies (#[trigger] anns[i]).raw_end <= n by {
        assert(annotation_well_formed(s, anns[i]));
    }
    lemma_removed_before_prefix(anns, 0, anns.len() as int, n);
    if anns.len() == 0 {
        assert forall|x: int| 0 <= x <= usize::MAX implies #[trigger] spec_ruby_display_offset(
            anns,
            x,
        ) == x by {
            assert(first_containing(anns, 0, x) is None);
            assert(removed_before(anns, 0, x) == 0);
        }
    }
}

/// The chars of all spans' readings.
pub open spec fn readings_len(spans: Seq<ReadingSpanModel>) -> int
    decreases spans.len(),
{
    if spans.len() == 0 {
        0
    } else {
        spans[0].reading.len() + readings_len(spans.drop_first())
    }
}

/// The chars of the readings of the overrides from `k` on.
pub open spec fn override_readings_len(ovs: Seq<(int, int, Seq<char>)>, k: int) -> int
    decreases ovs.len() - k,
{
    if k < 0 || k >= ovs.len() {
        0
    } else {
        ovs[k].2.len() + override_readings_len(ovs, k + 1)
    }
}

/// Reading lengths are not negative.
pub proof fn lemma_readings_len_nonneg(spans: Seq<ReadingSpanModel>)
    ensures
        readings_len(spans) >= 0,
    decreases spans.len(),
{
    if spans.len() > 0 {
        lemma_readings_len_nonneg(spans.drop_first());
    }
}

/// Override reading lengths are not negative.
pub proof fn lemma_override_readings_len_nonneg(ovs: Seq<(int, int, Seq<char>)>, k: int)
    ensures
        override_readings_len(ovs, k) >= 0,
    decreases ovs.len() - k,
{
    if 0 <= k < ovs.len() {
        lemma_override_readings_len_nonneg(ovs, k + 1);
    }
}

proof fn lemma_readings_len_add(a: Seq<ReadingSpanModel>, b: Seq<ReadingSpanModel>)
    ensures
        readings_len(a + b) == readings_len(a) + readings_len(b),
    decreases a.len(),
{
    if a.len() == 0 {
        assert(a + b =~= b);
    } else {
        lemma_readings_len_add(a.drop_first(), b);
        assert((a + b).drop_first() =~= a.drop_first() + b);
        assert((a + b)[0] == a[0]);
    }
}

/// Each mora takes a char of a reading: the spans' moras are at most their
/// readings' chars.
pub proof fn lemma_moras_within_readings(spans: Seq<ReadingSpanModel>)
    ensures
        spans_mora_total(spans) <= readings_len(spans),
    decreases spans.len(),
{
    if spans.len() > 0 {
        lemma_moras_within_readings(spans.drop_first());
        lemma_mora_count_bound(spans[0].reading);
    }
}

proof fn lemma_override_readings_bound(
    spans: Seq<ReadingSpanModel>,
    ov: (int, int, Seq<char>),
    text: Seq<char>,
)
    ensures
        readings_len(apply_override(spans, ov, text)) <= readings_len(spans) + ov.2.len(),
{
    if first_overlap(spans, ov.0, ov.1, 0) is Some {
        lemma_override_leaves_one_span(spans, ov, text);
        let r = apply_override(spans, ov, text);
        let f = first_overlap(spans, ov.0, ov.1, 0)->0;
        let l = last_overlap_or(spans, ov.0, ov.1, f);
        let a = spans.subrange(0, f);
        let m = spans.subrange(f, l + 1);
        let b = spans.subrange(l + 1, spans.len() as int);
        assert(spans =~= a + m + b);
        lemma_readings_len_add(a + m, b);
        lemma_readings_len_add(a, m);
        lemma_readings_len_nonneg(m);
        let merged = r[f];
        assert(r =~= a + seq![merged] + b);
        lemma_readings_len_add(a + seq![merged], b);
        lemma_readings_len_add(a, seq![merged]);
        let one = seq![merged];
        assert(one.drop_first() =~= Seq::<ReadingSpanModel>::empty());
        assert(readings_len(Seq::<ReadingSpanModel>::empty()) == 0);
        assert(one[0] == merged);
        assert(merged.reading == ov.2);
        assert(readings_len(one) == one[0].reading.len() + readings_len(one.drop_first()));
        assert(readings_len(one) == ov.2.len());
    }
}

/// Overrides add at most their readings' chars to the spans' readings.
pub proof fn lemma_overrides_readings_bound(
    spans: Seq<ReadingSpanModel>,
    ovs: Seq<(int, int, Seq<char>)>,
    k: int,
    text: Seq<char>,
)
    requires
        0 <= k,
    ensures
        readings_len(apply_overrides_from(spans, ovs, k, text)) <= readings_len(spans)
            + override_readings_len(ovs, k),
    decreases ovs.len() - k,
{
    lemma_override_readings_len_nonneg(ovs, k);
    if k < ovs.len() {
        let next = apply_override(spans, ovs[k], text);
        lemma_override_readings_bound(spans, ovs[k], text);
        lemma_overrides_readings_bound(next, ovs, k + 1, text);
    }
}

} // verus!
