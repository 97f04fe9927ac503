//! LRC lyrics: line time tags `[mm:ss.xx]`, enhanced per-word tags
//! `<mm:ss.xx>`, bilingual merging and line end times. Times are in
//! milliseconds.

use vstd::prelude::*;
use crate::lyrics::{is_white_space, white_space};
use crate::japanese::reading::{
    annotations_view, parse_ruby_text, ruby_parse, AnnotationModel, RubyAnnotation,
};

verus! {

/// `\d` of the tag patterns of the regex crate: a Unicode decimal digit
/// (general category Nd).
pub uninterp spec fn decimal_digit(c: char) -> bool;

/// `Regex::is_match` of the regex crate with the pattern `^\d$` on the one
/// char `c`: whether `c` is a Unicode decimal digit. The pattern is a valid
/// constant, so compiling it does not fail.
#[verifier::external_body]
fn is_decimal_digit(c: char) -> (r: bool)
    ensures
        r == decimal_digit(c),
{
    let mut buf = [0u8; 4];
    match regex::Regex::new(r"^\d$") {
        Ok(re) => re.is_match(c.encode_utf8(&mut buf)),
        Err(_) => false,
    }
}

/// The ASCII digits 0-9.
pub open spec fn is_ascii_digit(c: char) -> bool {
    '0' <= c && c <= '9'
}

/// A digit of a time tag: an ASCII digit, or another Unicode decimal digit.
pub open spec fn tag_digit(c: char) -> bool {
    if (c as u32) < 0x80 {
        is_ascii_digit(c)
    } else {
        decimal_digit(c)
    }
}

fn is_tag_digit(c: char) -> (r: bool)
    ensures
        r == tag_digit(c),
{
    if (c as u32) < 0x80 {
        '0' <= c && c <= '9'
    } else {
        is_decimal_digit(c)
    }
}

/// The end of the run of tag digits that starts at `i`.
pub open spec fn digits_end(s: Seq<char>, i: int) -> int
    decreases s.len() - i,
{
    if 0 <= i < s.len() && tag_digit(s[i]) {
        digits_end(s, i + 1)
    } else {
        i
    }
}

/// The decimal value of a string of ASCII digits.
pub open spec fn decimal_value(d: Seq<char>) -> int
    decreases d.len(),
{
    if d.len() == 0 {
        0
    } else {
        decimal_value(d.drop_last()) * 10 + (d.last() as int - '0' as int)
    }
}

/// The value of the digits `s[a..b]`: their decimal value when they are all
/// ASCII digits; 0 otherwise (other decimal digits do not parse as a number).
pub open spec fn digits_value(s: Seq<char>, a: int, b: int) -> int {
    if forall|k: int| a <= k < b ==> is_ascii_digit(#[trigger] s[k]) {
        decimal_value(s.subrange(a, b))
    } else {
        0
    }
}

/// The milliseconds of the fraction digits `s[a..b]` (one to three digits:
/// tenths, hundredths or thousandths of a second).
pub open spec fn fraction_ms(s: Seq<char>, a: int, b: int) -> int {
    let v = digits_value(s, a, b);
    if b - a == 1 {
        v * 100
    } else if b - a == 2 {
        v * 10
    } else {
        v
    }
}

/// The time tag that starts at `p`, as (end, milliseconds): `open`, `lo_m`
/// to `hi_m` minute digits, `:`, `lo_s` to `hi_s` second digits, optionally
/// `.` and one to three fraction digits, then `close`.
pub open spec fn tag_at(
    s: Seq<char>,
    p: int,
    open: char,
    close: char,
    lo_m: int,
    hi_m: int,
    lo_s: int,
    hi_s: int,
) -> Option<(int, int)> {
    if !(0 <= p < s.len() && s[p] == open) {
        None
    } else {
        let m_end = digits_end(s, p + 1);
        if !(lo_m <= m_end - (p + 1) <= hi_m && m_end < s.len() && s[m_end] == ':') {
            None
        } else {
            let s_end = digits_end(s, m_end + 1);
            if !(lo_s <= s_end - (m_end + 1) <= hi_s && s_end < s.len()) {
                None
            } else {
                let base = digits_value(s, p + 1, m_end) * 60000 + digits_value(s, m_end + 1, s_end)
                    * 1000;
                if s[s_end] == close {
                    Some((s_end + 1, base))
                } else if s[s_end] == '.' {
                    let f_end = digits_end(s, s_end + 1);
                    if 1 <= f_end - (s_end + 1) <= 3 && f_end < s.len() && s[f_end] == close {
                        Some((f_end + 1, base + fraction_ms(s, s_end + 1, f_end)))
                    } else {
                        None
                    }
                } else {
                    None
                }
            }
        }
    }
}

/// A line time tag `[m:s]`, `[m:s.f]`: one or two minute digits, one or two
/// second digits, up to three fraction digits.
pub open spec fn line_tag_at(s: Seq<char>, p: int) -> Option<(int, int)> {
    tag_at(s, p, '[', ']', 1, 2, 1, 2)
}

/// An enhanced word tag `<m:ss>`, `<m:ss.f>`: one to three minute digits,
/// two second digits, up to three fraction digits.
pub open spec fn word_tag_at(s: Seq<char>, p: int) -> Option<(int, int)> {
    tag_at(s, p, '<', '>', 1, 3, 2, 2)
}

/// A line tag (`word` false) or a word tag (`word` true) at `p`.
pub open spec fn any_tag_at(s: Seq<char>, p: int, word: bool) -> Option<(int, int)> {
    if word {
        word_tag_at(s, p)
    } else {
        line_tag_at(s, p)
    }
}

pub proof fn lemma_digits_end(s: Seq<char>, i: int)
    requires
        0 <= i <= s.len(),
    ensures
        i <= digits_end(s, i) <= s.len(),
        forall|k: int| i <= k < digits_end(s, i) ==> tag_digit(#[trigger] s[k]),
        digits_end(s, i) < s.len() ==> !tag_digit(s[digits_end(s, i)]),
    decreases s.len() - i,
{
    if i < s.len() && tag_digit(s[i]) {
        lemma_digits_end(s, i + 1);
    }
}

pub proof fn lemma_tag_end(s: Seq<char>, p: int, word: bool)
    requires
        any_tag_at(s, p, word) is Some,
    ensures
        any_tag_at(s, p, word) matches Some((e, ms)) && p < e <= s.len() && 0 <= ms,
{
    let m_end = digits_end(s, p + 1);
    lemma_digits_end(s, p + 1);
    lemma_digits_end(s, m_end + 1);
    let s_end = digits_end(s, m_end + 1);
    if s_end < s.len() && s[s_end] == '.' {
        lemma_digits_end(s, s_end + 1);
    }
    lemma_digits_value_nonneg(s, p + 1, m_end);
    lemma_digits_value_nonneg(s, m_end + 1, s_end);
    if s_end < s.len() && s[s_end] == '.' {
        lemma_digits_value_nonneg(s, s_end + 1, digits_end(s, s_end + 1));
    }
}

pub proof fn lemma_decimal_value_nonneg(d: Seq<char>)
    requires
        forall|k: int| 0 <= k < d.len() ==> is_ascii_digit(#[trigger] d[k]),
    ensures
        0 <= decimal_value(d),
    decreases d.len(),
{
    if d.len() > 0 {
        let e = d.drop_last();
        assert forall|k: int| 0 <= k < e.len() implies is_ascii_digit(#[trigger] e[k]) by {
            assert(e[k] == d[k]);
        }
        lemma_decimal_value_nonneg(e);
        assert(is_ascii_digit(d[d.len() - 1]));
    }
}

proof fn lemma_digits_value_nonneg(s: Seq<char>, a: int, b: int)
    requires
        0 <= a <= b <= s.len(),
    ensures
        0 <= digits_value(s, a, b),
{
    if forall|k: int| a <= k < b ==> is_ascii_digit(#[trigger] s[k]) {
        let d = s.subrange(a, b);
        assert forall|k: int| 0 <= k < d.len() implies is_ascii_digit(#[trigger] d[k]) by {
            assert(d[k] == s[a + k]);
        }
        lemma_decimal_value_nonneg(d);
    }
}

/// The tags of `s[p..]`, found left to right without overlap, as
/// (milliseconds, start, end).
pub open spec fn tags_from(s: Seq<char>, p: int, word: bool) -> Seq<(int, int, int)>
    decreases s.len() - p,
{
    if p < 0 || p >= s.len() {
        Seq::empty()
    } else {
        match any_tag_at(s, p, word) {
            Some((e, ms)) => {
                proof {
                    lemma_tag_end(s, p, word);
                }
                seq![(ms, p, e)] + tags_from(s, e, word)
            },
            None => tags_from(s, p + 1, word),
        }
    }
}

/// `s[p..]` with its tags taken out.
pub open spec fn strip_tags_from(s: Seq<char>, p: int, word: bool) -> Seq<char>
    decreases s.len() - p,
{
    if p < 0 || p >= s.len() {
        Seq::empty()
    } else {
        match any_tag_at(s, p, word) {
            Some((e, ms)) => {
                proof {
                    lemma_tag_end(s, p, word);
                }
                strip_tags_from(s, e, word)
            },
            None => seq![s[p]] + strip_tags_from(s, p + 1, word),
        }
    }
}

/// The first index from `i` on that holds no white space (`s.len()` if none).
pub open spec fn trim_start_from(s: Seq<char>, i: int) -> int
    decreases s.len() - i,
{
    if 0 <= i < s.len() && white_space(s[i]) {
        trim_start_from(s, i + 1)
    } else {
        i
    }
}

/// The end of `s[..j]` once its trailing white space is taken off.
pub open spec fn trim_end_from(s: Seq<char>, j: int) -> int
    decreases j,
{
    if 0 < j <= s.len() && white_space(s[j - 1]) {
        trim_end_from(s, j - 1)
    } else {
        j
    }
}

/// `s` without its leading and trailing white space.
pub open spec fn trim(s: Seq<char>) -> Seq<char> {
    let a = trim_start_from(s, 0);
    if a >= s.len() {
        Seq::empty()
    } else {
        s.subrange(a, trim_end_from(s, s.len() as int))
    }
}

/// `chars[lo..hi]` without its leading and trailing white space, as a range.
fn trim_range(chars: &[char], lo: usize, hi: usize) -> (r: (usize, usize))
    requires
        lo <= hi <= chars@.len(),
    ensures
        lo <= r.0 <= r.1 <= hi,
        chars@.subrange(r.0 as int, r.1 as int) == trim(chars@.subrange(lo as int, hi as int)),
{
    let ghost s = chars@.subrange(lo as int, hi as int);
    let mut a = lo;
    while a < hi && is_white_space(chars[a])
        invariant
            lo <= a <= hi <= chars@.len(),
            s == chars@.subrange(lo as int, hi as int),
            trim_start_from(s, (a - lo) as int) == trim_start_from(s, 0),
        decreases hi - a,
    {
        assert(s[(a - lo) as int] == chars@[a as int]);
        a += 1;
    }
    proof {
        if a < hi {
            assert(s[(a - lo) as int] == chars@[a as int]);
        }
    }
    if a == hi {
        return (hi, hi);
    }
    let mut b = hi;
    while b > a && is_white_space(chars[b - 1])
        invariant
            lo <= a < hi <= chars@.len(),
            a < b <= hi,
            s == chars@.subrange(lo as int, hi as int),
            trim_end_from(s, (b - lo) as int) == trim_end_from(s, s.len() as int),
            !white_space(chars@[a as int]),
        decreases b,
    {
        assert(s[(b - lo) - 1] == chars@[b - 1]);
        b -= 1;
    }
    proof {
        assert(s[(a - lo) as int] == chars@[a as int]);
        assert(s[(b - lo) - 1] == chars@[b - 1]);
        assert(chars@.subrange(a as int, b as int) == s.subrange((a - lo) as int, (b - lo) as int));
    }
    (a, b)
}


fn digits_end_of(chars: &[char], i: usize) -> (r: usize)
    requires
        i <= chars@.len(),
    ensures
        r == digits_end(chars@, i as int),
{
    proof {
        lemma_digits_end(chars@, i as int);
    }
    let mut j = i;
    while j < chars.len() && is_tag_digit(chars[j])
        invariant
            i <= j <= chars@.len(),
            digits_end(chars@, j as int) == digits_end(chars@, i as int),
        decreases chars.len() - j,
    {
        j += 1;
    }
    j
}

/// The value of the digits `chars[a..b]` (at most three of them).
fn digits_value_of(chars: &[char], a: usize, b: usize) -> (r: u64)
    requires
        a <= b <= chars@.len(),
        b - a <= 3,
    ensures
        r == digits_value(chars@, a as int, b as int),
        r <= 999,
{
    let ghost s = chars@;
    let mut k = a;
    while k < b
        invariant
            a <= k <= b <= s.len(),
            chars@ == s,
            forall|m: int| a <= m < k ==> is_ascii_digit(#[trigger] s[m]),
        decreases b - k,
    {
        if !('0' <= chars[k] && chars[k] <= '9') {
            assert(!is_ascii_digit(s[k as int]));
            return 0;
        }
        k += 1;
    }
    let ghost d = s.subrange(a as int, b as int);
    let mut v: u64 = 0;
    let mut i = a;
    while i < b
        invariant
            a <= i <= b <= s.len(),
            b - a <= 3,
            chars@ == s,
            d == s.subrange(a as int, b as int),
            forall|m: int| a <= m < b ==> is_ascii_digit(#[trigger] s[m]),
            v == decimal_value(d.take(i - a)),
            v <= (if i - a == 0 {
                0int
            } else if i - a == 1 {
                9int
            } else if i - a == 2 {
                99int
            } else {
                999int
            }),
        decreases b - i,
    {
        let c = chars[i];
        assert(is_ascii_digit(s[i as int]));
        let digit = (c as u32 - '0' as u32) as u64;
        proof {
            assert(d.take(i - a + 1).drop_last() == d.take(i - a));
            assert(d.take(i - a + 1).last() == c);
        }
        v = v * 10 + digit;
        i += 1;
    }
    proof {
        assert(d.take(b - a) == d);
    }
    v
}

/// The model of a found tag: (end, milliseconds).
pub open spec fn found_tag_view(r: Option<(usize, u64)>) -> Option<(int, int)> {
    match r {
        Some((e, ms)) => Some((e as int, ms as int)),
        None => None,
    }
}

/// The tag at `p`, if one starts there: a word tag when `word`, else a line
/// tag.
fn tag_at_of(chars: &[char], p: usize, word: bool) -> (r: Option<(usize, u64)>)
    requires
        p < chars@.len(),
    ensures
        found_tag_view(r) == any_tag_at(chars@, p as int, word),
{
    let ghost s = chars@;
    let n = chars.len();
    let (open, close, lo_m, hi_m, lo_s, hi_s) = if word {
        ('<', '>', 1usize, 3usize, 2usize, 2usize)
    } else {
        ('[', ']', 1usize, 2usize, 1usize, 2usize)
    };
    if chars[p] != open {
        return None;
    }
    proof {
        lemma_digits_end(s, p + 1);
    }
    let m_end = digits_end_of(chars, p + 1);
    if !(lo_m <= m_end - (p + 1) && m_end - (p + 1) <= hi_m && m_end < n && chars[m_end] == ':') {
        return None;
    }
    proof {
        lemma_digits_end(s, m_end + 1);
    }
    let s_end = digits_end_of(chars, m_end + 1);
    if !(lo_s <= s_end - (m_end + 1) && s_end - (m_end + 1) <= hi_s && s_end < n) {
        return None;
    }
    let mins = digits_value_of(chars, p + 1, m_end);
    let secs = digits_value_of(chars, m_end + 1, s_end);
    let base = mins * 60000 + secs * 1000;
    if chars[s_end] == close {
        Some((s_end + 1, base))
    } else if chars[s_end] == '.' {
        proof {
            lemma_digits_end(s, s_end + 1);
        }
        let f_end = digits_end_of(chars, s_end + 1);
        if 1 <= f_end - (s_end + 1) && f_end - (s_end + 1) <= 3 && f_end < n && chars[f_end] == close {
            let f = digits_value_of(chars, s_end + 1, f_end);
            let frac = if f_end - (s_end + 1) == 1 {
                f * 100
            } else if f_end - (s_end + 1) == 2 {
                f * 10
            } else {
                f
            };
            Some((f_end + 1, base + frac))
        } else {
            None
        }
    } else {
        None
    }
}

/// The models of found tags: (milliseconds, start, end).
pub open spec fn tags_view(v: Seq<(u64, usize, usize)>) -> Seq<(int, int, int)> {
    v.map_values(|t: (u64, usize, usize)| (t.0 as int, t.1 as int, t.2 as int))
}

/// The tags of `chars` (word tags when `word`, else line tags) and `chars`
/// with the tags taken out.
fn scan_tags(chars: &[char], word: bool) -> (r: (Vec<(u64, usize, usize)>, Vec<char>))
    ensures
        tags_view(r.0@) == tags_from(chars@, 0, word),
        r.1@ == strip_tags_from(chars@, 0, word),
{
    let ghost s = chars@;
    let n = chars.len();
    let mut tags: Vec<(u64, usize, usize)> = Vec::new();
    let mut rest: Vec<char> = Vec::new();
    let mut p: usize = 0;
    while p < n
        invariant
            chars@ == s,
            n == s.len(),
            p <= n,
            tags_from(s, 0, word) == tags_view(tags@) + tags_from(s, p as int, word),
            strip_tags_from(s, 0, word) == rest@ + strip_tags_from(s, p as int, word),
        decreases n - p,
    {
        match tag_at_of(chars, p, word) {
            Some((e, ms)) => {
                proof {
                    lemma_tag_end(s, p as int, word);
                    assert(tags_view(tags@.push((ms, p, e))) == tags_view(tags@).push(
                        (ms as int, p as int, e as int),
                    ));
                }
                tags.push((ms, p, e));
                p = e;
            },
            None => {
                proof {
                    assert(rest@.push(chars@[p as int]) + strip_tags_from(s, p + 1, word) == rest@
                        + strip_tags_from(s, p as int, word));
                }
                rest.push(chars[p]);
                p += 1;
            },
        }
    }
    (tags, rest)
}


/// The tags of `s[p..]` lie in `p..s.len()`, each non-empty; the first one
/// ends before any other starts.
pub proof fn lemma_tags_bounds(s: Seq<char>, p: int, word: bool)
    requires
        0 <= p <= s.len(),
    ensures
        forall|k: int|
            0 <= k < tags_from(s, p, word).len() ==> p <= (#[trigger] tags_from(s, p, word)[k]).1
                < tags_from(s, p, word)[k].2 <= s.len(),
        forall|k: int|
            0 < k < tags_from(s, p, word).len() ==> tags_from(s, p, word)[0].2 <= (
            #[trigger] tags_from(s, p, word)[k]).1,
    decreases s.len() - p,
{
    if p < s.len() {
        match any_tag_at(s, p, word) {
            Some((e, ms)) => {
                lemma_tag_end(s, p, word);
                lemma_tags_bounds(s, e, word);
                let r = tags_from(s, p, word);
                let rest = tags_from(s, e, word);
                assert(r == seq![(ms, p, e)] + rest);
                assert forall|k: int| 0 <= k < r.len() implies p <= (#[trigger] r[k]).1 < r[k].2
                    <= s.len() by {
                    if k > 0 {
                        assert(r[k] == rest[k - 1]);
                    }
                }
                assert forall|k: int| 0 < k < r.len() implies r[0].2 <= (#[trigger] r[k]).1 by {
                    assert(r[k] == rest[k - 1]);
                }
            },
            None => {
                lemma_tags_bounds(s, p + 1, word);
                assert(tags_from(s, p, word) == tags_from(s, p + 1, word));
            },
        }
    }
}

/// The lines of `s[i..]`, split at `\n` (a `\r` before it is white space,
/// which the parser trims).
pub open spec fn newline_from(s: Seq<char>, i: int) -> int
    decreases s.len() - i,
{
    if 0 <= i < s.len() && s[i] != '\n' {
        newline_from(s, i + 1)
    } else {
        i
    }
}

pub proof fn lemma_newline_from(s: Seq<char>, i: int)
    requires
        0 <= i <= s.len(),
    ensures
        i <= newline_from(s, i) <= s.len(),
        newline_from(s, i) < s.len() ==> s[newline_from(s, i)] == '\n',
        forall|k: int| i <= k < newline_from(s, i) ==> #[trigger] s[k] != '\n',
    decreases s.len() - i,
{
    if i < s.len() && s[i] != '\n' {
        lemma_newline_from(s, i + 1);
    }
}

/// The lines of `s[i..]`: the text is split at each `\n`; a final `\n`
/// ends the last line and starts none.
pub open spec fn lines_from(s: Seq<char>, i: int) -> Seq<Seq<char>>
    decreases s.len() + 1 - i,
{
    if i < 0 || i >= s.len() {
        Seq::empty()
    } else {
        proof {
            lemma_newline_from(s, i);
        }
        seq![s.subrange(i, newline_from(s, i))] + lines_from(s, newline_from(s, i) + 1)
    }
}

/// An LRC entry: start, end given by the line itself, text, and the word
/// anchors (char position in the tagged text, milliseconds).
pub type EntryModel = (int, Option<int>, Seq<char>, Seq<(int, int)>);

/// The word anchors of a line's text: each word tag gives the position of
/// the char after it (counted in the text with its tags) and its time.
pub open spec fn anchors_of(raw: Seq<char>) -> Seq<(int, int)> {
    tags_from(raw, 0, true).map_values(|t: (int, int, int)| (t.2, t.0))
}

/// Whether text stands between the first and the last line tag
/// (`[start]text[end]`) rather than all tags leading the line
/// (`[t1][t2]text`).
pub open spec fn has_text_between(t: Seq<char>, tags: Seq<(int, int, int)>) -> bool {
    tags.len() >= 2 && trim(strip_tags_from(t.subrange(tags[0].2, tags.last().1), 0, false)).len()
        > 0
}

/// The entries of one line of an LRC file. A line without a line tag, or
/// whose text is empty once its tags are out, gives none. `[start]text[end]`
/// gives one entry that ends at `end`; `[t1][t2]text` gives one entry per
/// tag. The text of an entry is the line without its line and word tags,
/// trimmed; its anchors come from the word tags.
pub open spec fn line_entries(line: Seq<char>) -> Seq<EntryModel> {
    let t = trim(line);
    let tags = tags_from(t, 0, false);
    let raw = trim(strip_tags_from(t, 0, false));
    let clean = trim(strip_tags_from(raw, 0, true));
    if tags.len() == 0 || raw.len() == 0 || clean.len() == 0 {
        Seq::empty()
    } else if has_text_between(t, tags) {
        seq![(tags[0].0, Some(tags.last().0), clean, anchors_of(raw))]
    } else {
        tags.map_values(|g: (int, int, int)| (g.0, None::<int>, clean, anchors_of(raw)))
    }
}

/// One entry of the file, in file order.
#[derive(Debug, Clone)]
pub struct LrcEntry {
    pub start_ms: u64,
    pub end_ms: Option<u64>,
    pub text: String,
    pub anchors: Vec<(usize, u64)>,
}

/// The model of a list of anchors.
pub open spec fn anchors_view(v: Seq<(usize, u64)>) -> Seq<(int, int)> {
    v.map_values(|a: (usize, u64)| (a.0 as int, a.1 as int))
}

/// The model of an optional time.
pub open spec fn opt_ms(o: Option<u64>) -> Option<int> {
    match o {
        Some(v) => Some(v as int),
        None => None,
    }
}

impl View for LrcEntry {
    type V = EntryModel;

    open spec fn view(&self) -> EntryModel {
        (self.start_ms as int, opt_ms(self.end_ms), self.text@, anchors_view(self.anchors@))
    }
}

/// The models of a list of entries.
pub open spec fn entries_view(v: Seq<LrcEntry>) -> Seq<EntryModel> {
    v.map_values(|e: LrcEntry| e@)
}

/// `chars[a..b]` as a vector.
fn sub_vec(chars: &[char], a: usize, b: usize) -> (r: Vec<char>)
    requires
        a <= b <= chars@.len(),
    ensures
        r@ == chars@.subrange(a as int, b as int),
{
    let mut r: Vec<char> = Vec::new();
    let mut i = a;
    while i < b
        invariant
            a <= i <= b <= chars@.len(),
            r@ == chars@.subrange(a as int, i as int),
        decreases b - i,
    {
        r.push(chars[i]);
        i += 1;
    }
    r
}

fn copy_anchors(v: &Vec<(usize, u64)>) -> (r: Vec<(usize, u64)>)
    ensures
        r@ == v@,
{
    let mut r: Vec<(usize, u64)> = Vec::new();
    let mut i: usize = 0;
    while i < v.len()
        invariant
            i <= v@.len(),
            r@ == v@.take(i as int),
        decreases v.len() - i,
    {
        r.push(v[i]);
        assert(r@ =~= v@.take(i + 1));
        i += 1;
    }
    assert(v@.take(i as int) == v@);
    r
}

fn line_entries_of(line: &[char]) -> (r: Vec<LrcEntry>)
    ensures
        entries_view(r@) == line_entries(line@),
{
    let (ta, tb) = trim_range(line, 0, line.len());
    let t = sub_vec(line, ta, tb);
    assert(line@.subrange(0, line@.len() as int) == line@);
    let (tags, stripped) = scan_tags(t.as_slice(), false);
    let ghost gtags = tags_from(t@, 0, false);
    if tags.len() == 0 {
        return Vec::new();
    }
    let (ra, rb) = trim_range(stripped.as_slice(), 0, stripped.len());
    assert(stripped@.subrange(0, stripped@.len() as int) == stripped@);
    if ra == rb {
        return Vec::new();
    }
    let raw = sub_vec(stripped.as_slice(), ra, rb);
    let (wtags, wstripped) = scan_tags(raw.as_slice(), true);
    let (ca, cb) = trim_range(wstripped.as_slice(), 0, wstripped.len());
    assert(wstripped@.subrange(0, wstripped@.len() as int) == wstripped@);
    if ca == cb {
        return Vec::new();
    }
    let text = crate::text::string_of_range(wstripped.as_slice(), ca, cb);
    let ghost am = tags_view(wtags@).map_values(|t: (int, int, int)| (t.2, t.0));
    let mut anchors: Vec<(usize, u64)> = Vec::new();
    let mut k: usize = 0;
    while k < wtags.len()
        invariant
            k <= wtags@.len(),
            am == tags_view(wtags@).map_values(|t: (int, int, int)| (t.2, t.0)),
            anchors_view(anchors@) == am.take(k as int),
        decreases wtags.len() - k,
    {
        let (ms, _, e) = wtags[k];
        assert(am[k as int] == (e as int, ms as int));
        let ghost before = anchors_view(anchors@);
        anchors.push((e, ms));
        assert(anchors_view(anchors@) =~= before.push((e as int, ms as int)));
        assert(am.take(k + 1) =~= am.take(k as int).push(am[k as int]));
        k += 1;
    }
    assert(am.take(k as int) == am);
    let n = tags.len();
    let between = if n >= 2 {
        proof {
            lemma_tags_bounds(t@, 0, false);
            assert(gtags[0] == tags_view(tags@)[0]);
            assert(gtags.last() == tags_view(tags@)[n - 1]);
        }
        let mid = sub_vec(t.as_slice(), tags[0].2, tags[n - 1].1);
        let (_, mid_stripped) = scan_tags(mid.as_slice(), false);
        let (xa, xb) = trim_range(mid_stripped.as_slice(), 0, mid_stripped.len());
        assert(mid_stripped@.subrange(0, mid_stripped@.len() as int) == mid_stripped@);
        xa < xb
    } else {
        false
    };
    assert(between == has_text_between(t@, gtags));
    let mut entries: Vec<LrcEntry> = Vec::new();
    if between {
        entries.push(
            LrcEntry { start_ms: tags[0].0, end_ms: Some(tags[n - 1].0), text, anchors },
        );
        proof {
            assert(gtags[0] == tags_view(tags@)[0]);
            assert(gtags.last() == tags_view(tags@)[n - 1]);
            assert(entries_view(entries@) =~= line_entries(line@));
        }
        entries
    } else {
        let ghost model = gtags.map_values(
            |g: (int, int, int)| (g.0, None::<int>, text@, anchors_view(anchors@)),
        );
        let mut i: usize = 0;
        while i < n
            invariant
                n == tags@.len(),
                gtags == tags_view(tags@),
                i <= n,
                model == gtags.map_values(
                    |g: (int, int, int)| (g.0, None::<int>, text@, anchors_view(anchors@)),
                ),
                entries_view(entries@) == model.take(i as int),
            decreases n - i,
        {
            let e = LrcEntry {
                start_ms: tags[i].0,
                end_ms: None,
                text: text.clone(),
                anchors: copy_anchors(&anchors),
            };
            let ghost before = entries_view(entries@);
            entries.push(e);
            assert(entries_view(entries@) == before.push(e@));
            proof {
                assert(entries_view(entries@) =~= model.take(i + 1));
            }
            i += 1;
        }
        proof {
            assert(model.take(n as int) == model);
        }
        entries
    }
}


/// The entries of the lines `ls`, line by line.
pub open spec fn entries_of_lines(ls: Seq<Seq<char>>) -> Seq<EntryModel>
    decreases ls.len(),
{
    if ls.len() == 0 {
        Seq::empty()
    } else {
        entries_of_lines(ls.drop_last()) + line_entries(ls.last())
    }
}

/// The entries of an LRC file, in file order.
pub open spec fn file_entries(text: Seq<char>) -> Seq<EntryModel> {
    entries_of_lines(lines_from(text, 0))
}

/// The first index from `i` on whose entry starts after `t` (`s.len()` if
/// none does).
pub open spec fn first_later_from(s: Seq<EntryModel>, t: int, i: int) -> int
    decreases s.len() - i,
{
    if i < 0 || i >= s.len() || s[i].0 > t {
        i
    } else {
        first_later_from(s, t, i + 1)
    }
}

/// The entries sorted by start time; entries that start together keep their
/// file order (each entry goes in after every entry that starts no later).
pub open spec fn sorted_entries(es: Seq<EntryModel>) -> Seq<EntryModel>
    decreases es.len(),
{
    if es.len() == 0 {
        Seq::empty()
    } else {
        let s = sorted_entries(es.drop_last());
        s.insert(first_later_from(s, es.last().0, 0), es.last())
    }
}

/// A line of the file once merged with its translations: start, end given
/// by the file (if any), text, translations, word anchors.
pub type MergedModel = (int, Option<int>, Seq<char>, Seq<Seq<char>>, Seq<(int, int)>);

/// The later of two optional end times; the first wins a tie, and a time
/// wins over none.
pub open spec fn later_end(a: Option<int>, b: Option<int>) -> Option<int> {
    match b {
        Some(e) => match a {
            Some(le) => if e > le {
                b
            } else {
                a
            },
            None => b,
        },
        None => a,
    }
}

/// Two start times less than 50 ms apart: a line and its translation.
pub open spec fn close_starts(a: int, b: int) -> bool {
    a - b < 50 && b - a < 50
}

/// Bilingual merging of sorted entries: an entry that starts within 50 ms of
/// the line before it is a translation of that line (the line keeps the
/// later of the two end times); any other entry starts a line.
pub open spec fn merge_entries(es: Seq<EntryModel>) -> Seq<MergedModel>
    decreases es.len(),
{
    if es.len() == 0 {
        Seq::empty()
    } else {
        let acc = merge_entries(es.drop_last());
        let e = es.last();
        if acc.len() > 0 && close_starts(acc.last().0, e.0) {
            let l = acc.last();
            acc.drop_last().push((l.0, later_end(l.1, e.1), l.2, l.3.push(e.2), l.4))
        } else {
            acc.push((e.0, e.1, e.2, Seq::empty(), e.3))
        }
    }
}

/// The end of a line that starts at `start`: its own end, if after its
/// start, cut at the next line's start when that comes between; else the
/// next line's start, if after its start; else the end of the audio (`None`).
pub open spec fn line_end(start: int, end: Option<int>, next: Option<int>) -> Option<int> {
    if end is Some && end->0 > start {
        if next is Some && next->0 > start && next->0 < end->0 {
            next
        } else {
            end
        }
    } else if next is Some && next->0 > start {
        next
    } else {
        None
    }
}

/// The line model: start, end, text, translations, word anchors.
pub type LineModel = (int, int, Seq<char>, Seq<Seq<char>>, Seq<(int, int)>);

/// `start + 100`, saturated at `u64::MAX`.
pub open spec fn start_plus_100(start: int) -> int {
    if start + 100 > u64::MAX {
        u64::MAX as int
    } else {
        start + 100
    }
}

/// The end time of line `i` of the merged lines `m`: see `line_end`; when
/// neither its own end nor the next line's start comes after its start, the
/// end of the audio, or 100 ms after its start when that is unknown.
pub open spec fn end_of_line(m: Seq<MergedModel>, i: int, audio: Option<int>) -> int {
    match line_end(m[i].0, m[i].1, if i + 1 < m.len() {
        Some(m[i + 1].0)
    } else {
        None
    }) {
        Some(e) => e,
        None => match audio {
            Some(a) => a,
            None => start_plus_100(m[i].0),
        },
    }
}

/// The lines with their end times; `audio` is the length of the audio.
pub open spec fn timed_lines(m: Seq<MergedModel>, audio: Option<int>) -> Seq<LineModel> {
    Seq::new(m.len(), |i: int| (m[i].0, end_of_line(m, i, audio), m[i].2, m[i].3, m[i].4))
}

/// The lines of an LRC file: its entries, sorted by start time, merged
/// into bilingual lines, with end times.
pub open spec fn lrc_lines(text: Seq<char>, audio: Option<int>) -> Seq<LineModel> {
    timed_lines(merge_entries(sorted_entries(file_entries(text))), audio)
}

/// The merged lines of an LRC file.
pub open spec fn merged_lines(text: Seq<char>) -> Seq<MergedModel> {
    merge_entries(sorted_entries(file_entries(text)))
}

/// A timed line of an LRC file before its ruby markup is read: start and
/// end in milliseconds, its raw text, its translations and its enhanced word
/// anchors.
#[derive(Debug, Clone)]
pub struct TimedLine {
    pub start_ms: u64,
    pub end_ms: u64,
    pub text: String,
    pub translations: Vec<String>,
    pub anchors: Vec<(usize, u64)>,
}

impl View for TimedLine {
    type V = LineModel;

    open spec fn view(&self) -> LineModel {
        (
            self.start_ms as int,
            self.end_ms as int,
            self.text@,
            crate::text::strings_view(self.translations@),
            anchors_view(self.anchors@),
        )
    }
}

/// The models of a list of timed lines.
pub open spec fn timed_view(v: Seq<TimedLine>) -> Seq<LineModel> {
    v.map_values(|l: TimedLine| l@)
}

/// A line of an LRC file: start and end in milliseconds, its display text
/// (ruby markup taken out), its translations, its enhanced word anchors and
/// the ruby annotations of its display text.
#[derive(Debug, Clone)]
pub struct LrcLine {
    pub start_ms: u64,
    pub end_ms: u64,
    pub text: String,
    pub translations: Vec<String>,
    pub anchors: Vec<(usize, u64)>,
    pub ruby: Vec<RubyAnnotation>,
}

/// The model of an LRC line.
pub struct LrcLineModel {
    pub start_ms: int,
    pub end_ms: int,
    pub text: Seq<char>,
    pub translations: Seq<Seq<char>>,
    pub anchors: Seq<(int, int)>,
    pub ruby: Seq<AnnotationModel>,
}

impl View for LrcLine {
    type V = LrcLineModel;

    open spec fn view(&self) -> LrcLineModel {
        LrcLineModel {
            start_ms: self.start_ms as int,
            end_ms: self.end_ms as int,
            text: self.text@,
            translations: crate::text::strings_view(self.translations@),
            anchors: anchors_view(self.anchors@),
            ruby: annotations_view(self.ruby@),
        }
    }
}

/// The models of a list of lines.
pub open spec fn lines_view(v: Seq<LrcLine>) -> Seq<LrcLineModel> {
    v.map_values(|l: LrcLine| l@)
}

/// A timed line with its ruby markup read: the display text and the
/// annotations of `ruby_parse` of its raw text.
pub open spec fn ruby_line(m: LineModel) -> LrcLineModel {
    LrcLineModel {
        start_ms: m.0,
        end_ms: m.1,
        text: ruby_parse(m.2).0,
        translations: m.3,
        anchors: m.4,
        ruby: ruby_parse(m.2).1,
    }
}

/// The lines of an LRC file, ruby read.
pub open spec fn lrc_file_lines(text: Seq<char>, audio: Option<int>) -> Seq<LrcLineModel> {
    lrc_lines(text, audio).map_values(|m: LineModel| ruby_line(m))
}

/// A line of the file merged with its translations; its end is the one the
/// file gives, if any.
#[derive(Debug, Clone)]
pub struct MergedLine {
    pub start_ms: u64,
    pub end_ms: Option<u64>,
    pub text: String,
    pub translations: Vec<String>,
    pub anchors: Vec<(usize, u64)>,
}

impl View for MergedLine {
    type V = MergedModel;

    open spec fn view(&self) -> MergedModel {
        (
            self.start_ms as int,
            opt_ms(self.end_ms),
            self.text@,
            crate::text::strings_view(self.translations@),
            anchors_view(self.anchors@),
        )
    }
}

/// The models of a list of lines.
pub open spec fn merged_view(v: Seq<MergedLine>) -> Seq<MergedModel> {
    v.map_values(|l: MergedLine| l@)
}

fn file_entries_of(text: &str) -> (r: Vec<LrcEntry>)
    ensures
        entries_view(r@) == file_entries(text@),
{
    let chars = crate::text::chars_of(text);
    let ghost s = text@;
    let n = chars.len();
    let mut entries: Vec<LrcEntry> = Vec::new();
    let ghost mut done: Seq<Seq<char>> = Seq::empty();
    let mut i: usize = 0;
    while i < n
        invariant
            chars@ == s,
            n == s.len(),
            i <= n,
            lines_from(s, 0) == done + lines_from(s, i as int),
            entries_view(entries@) == entries_of_lines(done),
        decreases n - i,
    {
        proof {
            lemma_newline_from(s, i as int);
        }
        let mut e = i;
        while e < n && chars[e] != '\n'
            invariant
                chars@ == s,
                n == s.len(),
                i <= e <= n,
                newline_from(s, e as int) == newline_from(s, i as int),
            decreases n - e,
        {
            e += 1;
        }
        let line = sub_vec(chars.as_slice(), i, e);
        let mut got = line_entries_of(line.as_slice());
        let ghost before = entries@;
        entries.append(&mut got);
        proof {
            let l = s.subrange(i as int, e as int);
            assert(lines_from(s, i as int) == seq![l] + lines_from(s, e + 1));
            assert(done.push(l).drop_last() == done);
            assert(entries_view(entries@) =~= entries_view(before) + line_entries(l));
            assert(done + lines_from(s, i as int) == done.push(l) + lines_from(s, e + 1));
            done = done.push(l);
        }
        i = if e < n {
            e + 1
        } else {
            n
        };
    }
    proof {
        assert(done + lines_from(s, i as int) == done);
    }
    entries
}

fn sort_entries(entries: Vec<LrcEntry>) -> (r: Vec<LrcEntry>)
    ensures
        entries_view(r@) == sorted_entries(entries_view(entries@)),
{
    let ghost es = entries_view(entries@);
    let n = entries.len();
    let mut rest = entries;
    let mut sorted: Vec<LrcEntry> = Vec::new();
    let mut k: usize = 0;
    while k < n
        invariant
            n == es.len(),
            k <= n,
            rest@.len() == n - k,
            entries_view(rest@) == es.skip(k as int),
            entries_view(sorted@) == sorted_entries(es.take(k as int)),
        decreases n - k,
    {
        let ghost rest0 = rest@;
        let e = rest.remove(0);
        proof {
            assert(e@ == es[k as int]) by {
                assert(entries_view(rest0)[0] == e@);
            }
            assert(entries_view(rest@) =~= es.skip(k + 1)) by {
                assert forall|m: int| 0 <= m < rest@.len() implies (#[trigger] entries_view(rest@)[m])
                    == es.skip(k + 1)[m] by {
                    assert(rest@[m] == rest0[m + 1]);
                    assert(entries_view(rest0)[m + 1] == es.skip(k as int)[m + 1]);
                }
            }
        }
        let ghost sv = entries_view(sorted@);
        let mut j: usize = 0;
        while j < sorted.len() && sorted[j].start_ms <= e.start_ms
            invariant
                j <= sorted@.len(),
                sv == entries_view(sorted@),
                first_later_from(sv, e.start_ms as int, j as int) == first_later_from(
                    sv,
                    e.start_ms as int,
                    0,
                ),
            decreases sorted.len() - j,
        {
            assert(sv[j as int] == sorted@[j as int]@);
            j += 1;
        }
        proof {
            if j < sorted@.len() {
                assert(sv[j as int] == sorted@[j as int]@);
            }
        }
        let ghost e_model = e@;
        sorted.insert(j, e);
        proof {
            assert(es.take(k + 1).drop_last() == es.take(k as int));
            assert(es.take(k + 1).last() == e_model);
            assert(entries_view(sorted@) =~= sv.insert(j as int, e_model));
        }
        k += 1;
    }
    proof {
        assert(es.take(n as int) == es);
    }
    sorted
}


fn later_end_of(a: Option<u64>, b: Option<u64>) -> (r: Option<u64>)
    ensures
        opt_ms(r) == later_end(opt_ms(a), opt_ms(b)),
{
    match b {
        Some(e) => match a {
            Some(le) => if e > le {
                b
            } else {
                a
            },
            None => b,
        },
        None => a,
    }
}

fn merge_sorted_entries(sorted: Vec<LrcEntry>) -> (r: Vec<MergedLine>)
    ensures
        merged_view(r@) == merge_entries(entries_view(sorted@)),
{
    let ghost es = entries_view(sorted@);
    let n = sorted.len();
    let mut rest = sorted;
    let mut merged: Vec<MergedLine> = Vec::new();
    let mut k: usize = 0;
    while k < n
        invariant
            n == es.len(),
            k <= n,
            rest@.len() == n - k,
            entries_view(rest@) == es.skip(k as int),
            merged_view(merged@) == merge_entries(es.take(k as int)),
        decreases n - k,
    {
        let ghost rest0 = rest@;
        let e = rest.remove(0);
        proof {
            assert(e@ == es[k as int]) by {
                assert(entries_view(rest0)[0] == e@);
            }
            assert(entries_view(rest@) =~= es.skip(k + 1)) by {
                assert forall|m: int| 0 <= m < rest@.len() implies (#[trigger] entries_view(rest@)[m])
                    == es.skip(k + 1)[m] by {
                    assert(rest@[m] == rest0[m + 1]);
                    assert(entries_view(rest0)[m + 1] == es.skip(k as int)[m + 1]);
                }
            }
            assert(es.take(k + 1).drop_last() == es.take(k as int));
            assert(es.take(k + 1).last() == e@);
        }
        let ghost acc = merged_view(merged@);
        let close = if merged.len() > 0 {
            let last_start = merged[merged.len() - 1].start_ms;
            proof {
                assert(acc.last() == merged@[merged@.len() - 1]@);
            }
            (last_start <= e.start_ms && e.start_ms - last_start < 50) || (e.start_ms < last_start
                && last_start - e.start_ms < 50)
        } else {
            false
        };
        if close {
            let ghost m0 = merged@;
            let last = merged.pop().unwrap();
            proof {
                assert(last@ == acc.last());
                assert(merged_view(merged@) =~= acc.drop_last());
            }
            let mut translations = last.translations;
            let ghost tr0 = translations@;
            translations.push(e.text);
            let line = MergedLine {
                start_ms: last.start_ms,
                end_ms: later_end_of(last.end_ms, e.end_ms),
                text: last.text,
                translations,
                anchors: last.anchors,
            };
            proof {
                assert(crate::text::strings_view(translations@) =~= crate::text::strings_view(tr0).push(
                    e@.2,
                ));
            }
            let ghost before = merged_view(merged@);
            merged.push(line);
            proof {
                assert(merged_view(merged@) =~= before.push(line@));
            }
        } else {
            let line = MergedLine {
                start_ms: e.start_ms,
                end_ms: e.end_ms,
                text: e.text,
                translations: Vec::new(),
                anchors: e.anchors,
            };
            proof {
                assert(crate::text::strings_view(line.translations@) =~= Seq::<Seq<char>>::empty());
            }
            let ghost before = merged_view(merged@);
            merged.push(line);
            proof {
                assert(merged_view(merged@) =~= before.push(line@));
            }
        }
        k += 1;
    }
    proof {
        assert(es.take(n as int) == es);
    }
    merged
}

fn line_end_of(start: u64, end: Option<u64>, next: Option<u64>) -> (r: Option<u64>)
    ensures
        opt_ms(r) == line_end(start as int, opt_ms(end), opt_ms(next)),
{
    match end {
        Some(e) if e > start => match next {
            Some(ns) if ns > start && ns < e => next,
            _ => end,
        },
        _ => match next {
            Some(nx) if nx > start => next,
            _ => None,
        },
    }
}

fn time_lines(merged: Vec<MergedLine>, audio_ms: Option<u64>) -> (r: Vec<TimedLine>)
    ensures
        timed_view(r@) == timed_lines(merged_view(merged@), opt_ms(audio_ms)),
{
    let ghost m = merged_view(merged@);
    let ghost t = timed_lines(m, opt_ms(audio_ms));
    let n = merged.len();
    let mut rest = merged;
    let mut out: Vec<TimedLine> = Vec::new();
    let mut k: usize = 0;
    while k < n
        invariant
            n == m.len(),
            k <= n,
            t == timed_lines(m, opt_ms(audio_ms)),
            rest@.len() == n - k,
            merged_view(rest@) == m.skip(k as int),
            timed_view(out@) == t.take(k as int),
        decreases n - k,
    {
        let ghost rest0 = rest@;
        let l = rest.remove(0);
        proof {
            assert(l@ == m[k as int]) by {
                assert(merged_view(rest0)[0] == l@);
            }
            assert(merged_view(rest@) =~= m.skip(k + 1)) by {
                assert forall|j: int| 0 <= j < rest@.len() implies (#[trigger] merged_view(rest@)[j])
                    == m.skip(k + 1)[j] by {
                    assert(rest@[j] == rest0[j + 1]);
                    assert(merged_view(rest0)[j + 1] == m.skip(k as int)[j + 1]);
                }
            }
        }
        let next = if rest.len() > 0 {
            proof {
                assert(merged_view(rest@)[0] == rest@[0]@);
            }
            Some(rest[0].start_ms)
        } else {
            None
        };
        let end = match line_end_of(l.start_ms, l.end_ms, next) {
            Some(e) => e,
            None => match audio_ms {
                Some(a) => a,
                None => l.start_ms.saturating_add(100),
            },
        };
        let line = TimedLine {
            start_ms: l.start_ms,
            end_ms: end,
            text: l.text,
            translations: l.translations,
            anchors: l.anchors,
        };
        let ghost before = timed_view(out@);
        out.push(line);
        proof {
            assert(line@ == t[k as int]);
            assert(timed_view(out@) =~= before.push(line@));
            assert(t.take(k + 1) =~= t.take(k as int).push(t[k as int]));
        }
        k += 1;
    }
    proof {
        assert(t.take(n as int) =~= t);
    }
    out
}

/// Parses an LRC file: `[mm:ss.xx]` line tags (one or two minute digits,
/// one or two second digits, up to three fraction digits), several tags
/// before a text for a repeated line, `[start]text[end]` for a line with its
/// own end, `<mm:ss.xx>` word tags as anchors, and translations as lines
/// that start within 50 ms of the line they translate. Lines without a tag
/// or without text are skipped. `audio_duration_ms` is the length of the
/// audio, which ends the last line when the file does not. Each line's
/// `漢字(かな)` ruby markup is read (`parse_ruby_text`): the line keeps the
/// display text, and the annotations as its readings.
pub fn parse_lrc_lines(text: &str, audio_duration_ms: Option<u64>) -> (lines: Vec<LrcLine>)
    ensures
        lines_view(lines@) == lrc_file_lines(text@, opt_ms(audio_duration_ms)),
{
    let entries = file_entries_of(text);
    let sorted = sort_entries(entries);
    let merged = merge_sorted_entries(sorted);
    let timed = time_lines(merged, audio_duration_ms);
    let ghost t = timed_view(timed@);
    let ghost target = lrc_file_lines(text@, opt_ms(audio_duration_ms));
    let n = timed.len();
    let mut rest = timed;
    let mut out: Vec<LrcLine> = Vec::new();
    let mut k: usize = 0;
    while k < n
        invariant
            n == t.len(),
            t == lrc_lines(text@, opt_ms(audio_duration_ms)),
            target == lrc_file_lines(text@, opt_ms(audio_duration_ms)),
            k <= n,
            rest@.len() == n - k,
            timed_view(rest@) == t.skip(k as int),
            lines_view(out@) == target.take(k as int),
        decreases n - k,
    {
        let ghost rest0 = rest@;
        let l = rest.remove(0);
        proof {
            assert(l@ == t[k as int]) by {
                assert(timed_view(rest0)[0] == l@);
            }
            assert(timed_view(rest@) =~= t.skip(k + 1)) by {
                assert forall|j: int| 0 <= j < rest@.len() implies (#[trigger] timed_view(rest@)[j])
                    == t.skip(k + 1)[j] by {
                    assert(rest@[j] == rest0[j + 1]);
                    assert(timed_view(rest0)[j + 1] == t.skip(k as int)[j + 1]);
                }
            }
        }
        let (display, ruby) = match parse_ruby_text(&l.text) {
            Ok(p) => (p.display_text, p.annotations),
            Err(_) => (String::new(), Vec::new()),
        };
        let line = LrcLine {
            start_ms: l.start_ms,
            end_ms: l.end_ms,
            text: display,
            translations: l.translations,
            anchors: l.anchors,
            ruby,
        };
        let ghost before = lines_view(out@);
        out.push(line);
        proof {
            assert(line@ == target[k as int]);
            assert(lines_view(out@) =~= before.push(line@));
            assert(target.take(k + 1) =~= target.take(k as int).push(target[k as int]));
        }
        k += 1;
    }
    proof {
        assert(target.take(n as int) =~= target);
    }
    out
}

/// Entries in order of their start times.
pub open spec fn starts_sorted(s: Seq<EntryModel>) -> bool {
    forall|i: int, j: int| 0 <= i <= j < s.len() ==> #[trigger] s[i].0 <= #[trigger] s[j].0
}

proof fn lemma_first_later(s: Seq<EntryModel>, t: int, i: int)
    requires
        0 <= i <= s.len(),
    ensures
        i <= first_later_from(s, t, i) <= s.len(),
        forall|k: int| i <= k < first_later_from(s, t, i) ==> #[trigger] s[k].0 <= t,
        first_later_from(s, t, i) < s.len() ==> s[first_later_from(s, t, i)].0 > t,
    decreases s.len() - i,
{
    if i < s.len() && s[i].0 <= t {
        lemma_first_later(s, t, i + 1);
    }
}

/// Sorting puts the entries in order of their start times and keeps them all.
pub proof fn lemma_sorted_entries(es: Seq<EntryModel>)
    ensures
        starts_sorted(sorted_entries(es)),
        sorted_entries(es).len() == es.len(),
    decreases es.len(),
{
    if es.len() > 0 {
        let s = sorted_entries(es.drop_last());
        lemma_sorted_entries(es.drop_last());
        let x = es.last();
        let j = first_later_from(s, x.0, 0);
        lemma_first_later(s, x.0, 0);
        let r = s.insert(j, x);
        assert forall|a: int, b: int| 0 <= a <= b < r.len() implies #[trigger] r[a].0
            <= #[trigger] r[b].0 by {
            if a < j && b < j {
                assert(r[a] == s[a] && r[b] == s[b]);
            } else if a < j && b == j {
                assert(r[a] == s[a]);
            } else if a < j {
                assert(r[a] == s[a] && r[b] == s[b - 1]);
            } else if a == j && b == j {
            } else if a == j {
                assert(r[b] == s[b - 1]);
                assert(s[j].0 <= s[b - 1].0);
            } else {
                assert(r[a] == s[a - 1] && r[b] == s[b - 1]);
            }
        }
    }
}

/// Merging sorted entries gives lines at least 50 ms apart, none of which
/// starts after the last entry.
proof fn lemma_merge_entries(es: Seq<EntryModel>)
    requires
        starts_sorted(es),
    ensures
        es.len() > 0 ==> merge_entries(es).len() > 0 && merge_entries(es).last().0 <= es.last().0,
        forall|i: int|
            0 <= i < merge_entries(es).len() - 1 ==> #[trigger] merge_entries(es)[i].0 + 50
                <= merge_entries(es)[i + 1].0,
    decreases es.len(),
{
    if es.len() > 0 {
        let p = es.drop_last();
        assert(starts_sorted(p)) by {
            assert forall|i: int, j: int| 0 <= i <= j < p.len() implies #[trigger] p[i].0
                <= #[trigger] p[j].0 by {
                assert(p[i] == es[i] && p[j] == es[j]);
            }
        }
        lemma_merge_entries(p);
        let acc = merge_entries(p);
        let e = es.last();
        if p.len() > 0 {
            assert(p.last() == es[es.len() - 2]);
            assert(es[es.len() - 2].0 <= es[es.len() - 1].0);
        }
        let m = merge_entries(es);
        if acc.len() > 0 && close_starts(acc.last().0, e.0) {
            let l = acc.last();
            assert(m == acc.drop_last().push((l.0, later_end(l.1, e.1), l.2, l.3.push(e.2), l.4)));
            assert forall|i: int| 0 <= i < m.len() - 1 implies #[trigger] m[i].0 + 50 <= m[i + 1].0 by {
                assert(m[i].0 == acc[i].0);
                assert(m[i + 1].0 == acc[i + 1].0);
            }
        } else {
            assert(m == acc.push((e.0, e.1, e.2, Seq::<Seq<char>>::empty(), e.3)));
            assert forall|i: int| 0 <= i < m.len() - 1 implies #[trigger] m[i].0 + 50 <= m[i + 1].0 by {
                assert(m[i] == acc[i]);
                if i + 1 < acc.len() {
                    assert(m[i + 1] == acc[i + 1]);
                }
            }
        }
    }
}

/// The lines of an LRC file come in time order, each starting at least 50 ms
/// after the one before it (an entry closer than that is a translation).
pub proof fn lemma_lrc_lines_ordered(text: Seq<char>, audio: Option<int>)
    ensures
        forall|i: int|
            0 <= i < lrc_lines(text, audio).len() - 1 ==> #[trigger] lrc_lines(text, audio)[i].0 + 50
                <= lrc_lines(text, audio)[i + 1].0,
{
    let es = sorted_entries(file_entries(text));
    lemma_sorted_entries(file_entries(text));
    lemma_merge_entries(es);
    let m = merge_entries(es);
    let t = lrc_lines(text, audio);
    assert forall|i: int| 0 <= i < t.len() - 1 implies #[trigger] t[i].0 + 50 <= t[i + 1].0 by {
        assert(t[i].0 == m[i].0);
        assert(t[i + 1].0 == m[i + 1].0);
    }
}

/// Every line of an LRC file but the last ends after it starts and no later
/// than the next line starts. The last line ends at its own end when that
/// comes after its start, else at the end of the audio (100 ms after its
/// start when the audio's length is unknown).
pub proof fn lemma_lrc_line_ends(text: Seq<char>, audio: Option<int>)
    ensures
        forall|i: int|
            0 <= i < lrc_lines(text, audio).len() - 1 ==> lrc_lines(text, audio)[i].0 < (
            #[trigger] lrc_lines(text, audio)[i]).1 <= lrc_lines(text, audio)[i + 1].0,
        lrc_lines(text, audio).len() > 0 ==> ({
            let m = merged_lines(text);
            let last = m.last();
            lrc_lines(text, audio).last().1 == if last.1 is Some && last.1->0 > last.0 {
                last.1->0
            } else {
                match audio {
                    Some(a) => a,
                    None => start_plus_100(last.0),
                }
            }
        }),
{
    let es = sorted_entries(file_entries(text));
    lemma_sorted_entries(file_entries(text));
    lemma_merge_entries(es);
    let m = merge_entries(es);
    let t = lrc_lines(text, audio);
    assert forall|i: int| 0 <= i < t.len() - 1 implies t[i].0 < (#[trigger] t[i]).1 <= t[i + 1].0 by {
        assert(m[i].0 + 50 <= m[i + 1].0);
        assert(t[i + 1].0 == m[i + 1].0);
    }
}


/// The display text of a line: its text, then ` | ` and its translations
/// joined by ` / ` when it has any.
pub open spec fn spec_display_text(primary: Seq<char>, translations: Seq<Seq<char>>) -> Seq<char> {
    if translations.len() == 0 {
        primary
    } else {
        primary + " | "@ + crate::text::joined(translations, " / "@)
    }
}

/// The display text of a line with its translations.
pub fn display_text(primary: &str, translations: &[String]) -> (r: String)
    ensures
        r@ == spec_display_text(primary@, crate::text::strings_view(translations@)),
{
    let mut r = String::new();
    crate::text::push_str(&mut r, primary);
    if translations.len() > 0 {
        crate::text::push_str(&mut r, " | ");
        let j = crate::text::join_strings(translations, " / ");
        crate::text::push_str(&mut r, j.as_str());
    }
    assert(r@ =~= spec_display_text(primary@, crate::text::strings_view(translations@)));
    r
}

/// The last anchor among the first `k` at or before char `c` (0 if none).
pub open spec fn last_anchor_at_or_before(pos: Seq<int>, c: int, k: int) -> int
    decreases k,
{
    if k <= 0 || k > pos.len() {
        0
    } else if pos[k - 1] <= c {
        k - 1
    } else {
        last_anchor_at_or_before(pos, c, k - 1)
    }
}

/// The anchor group of a token that starts at char `c`: 0 for the chars
/// before the first anchor, else one more than the last anchor at or before
/// it.
pub open spec fn anchor_group(pos: Seq<int>, c: int) -> int {
    if c < pos[0] {
        0
    } else {
        last_anchor_at_or_before(pos, c, pos.len() as int) + 1
    }
}

/// The models of a list of positions.
pub open spec fn positions_view(v: Seq<usize>) -> Seq<int> {
    v.map_values(|p: usize| p as int)
}

/// The anchor group of each token of a line with enhanced word anchors at
/// `anchor_positions` (chars of the tagged text), from the tokens' first
/// chars: group 0 holds the tokens before the first anchor, group `i + 1`
/// those from anchor `i` on.
pub fn anchor_groups(token_starts: &[usize], anchor_positions: &[usize]) -> (groups: Vec<usize>)
    requires
        anchor_positions@.len() >= 1,
    ensures
        groups@.len() == token_starts@.len(),
        forall|k: int|
            0 <= k < groups@.len() ==> #[trigger] groups@[k] as int == anchor_group(
                positions_view(anchor_positions@),
                token_starts@[k] as int,
            ),
{
    let ghost pos = positions_view(anchor_positions@);
    let mut groups: Vec<usize> = Vec::new();
    let mut k: usize = 0;
    while k < token_starts.len()
        invariant
            k <= token_starts@.len(),
            anchor_positions@.len() >= 1,
            pos == positions_view(anchor_positions@),
            groups@.len() == k,
            forall|m: int|
                0 <= m < k ==> #[trigger] groups@[m] as int == anchor_group(pos, token_starts@[m] as int),
        decreases token_starts.len() - k,
    {
        let c = token_starts[k];
        let g = if c < anchor_positions[0] {
            0
        } else {
            let mut best: usize = 0;
            let mut i: usize = 0;
            while i < anchor_positions.len()
                invariant
                    i <= anchor_positions@.len(),
                    pos == positions_view(anchor_positions@),
                    best as int == last_anchor_at_or_before(pos, c as int, i as int),
                    best < anchor_positions@.len(),
                decreases anchor_positions.len() - i,
            {
                if anchor_positions[i] <= c {
                    best = i;
                }
                i += 1;
            }
            best + 1
        };
        groups.push(g);
        k += 1;
    }
    groups
}


/// The trimmed lines among `ls` that are not blank, in order.
pub open spec fn nonblank_lines(ls: Seq<Seq<char>>) -> Seq<Seq<char>>
    decreases ls.len(),
{
    if ls.len() == 0 {
        Seq::empty()
    } else {
        let prev = nonblank_lines(ls.drop_last());
        if trim(ls.last()).len() > 0 {
            prev.push(trim(ls.last()))
        } else {
            prev
        }
    }
}

/// Every line of `text` that is not blank, trimmed.
fn plain_txt_lines(text: &str) -> (r: Vec<String>)
    ensures
        crate::text::strings_view(r@) == nonblank_lines(lines_from(text@, 0)),
{
    let chars = crate::text::chars_of(text);
    let ghost s = text@;
    let n = chars.len();
    let mut out: Vec<String> = Vec::new();
    let ghost mut done: Seq<Seq<char>> = Seq::empty();
    let mut i: usize = 0;
    while i < n
        invariant
            chars@ == s,
            n == s.len(),
            i <= n,
            lines_from(s, 0) == done + lines_from(s, i as int),
            crate::text::strings_view(out@) == nonblank_lines(done),
        decreases n - i,
    {
        proof {
            lemma_newline_from(s, i as int);
        }
        let mut e = i;
        while e < n && chars[e] != '\n'
            invariant
                chars@ == s,
                n == s.len(),
                i <= e <= n,
                newline_from(s, e as int) == newline_from(s, i as int),
            decreases n - e,
        {
            e += 1;
        }
        let (a, b) = trim_range(chars.as_slice(), i, e);
        let ghost l = s.subrange(i as int, e as int);
        proof {
            assert(lines_from(s, i as int) == seq![l] + lines_from(s, e + 1));
            assert(done.push(l).drop_last() == done);
            assert(done.push(l).last() == l);
            assert(done + lines_from(s, i as int) == done.push(l) + lines_from(s, e + 1));
        }
        if a < b {
            let t = crate::text::string_of_range(chars.as_slice(), a, b);
            let ghost before = crate::text::strings_view(out@);
            out.push(t);
            assert(crate::text::strings_view(out@) =~= before.push(trim(l)));
        }
        proof {
            done = done.push(l);
        }
        i = if e < n {
            e + 1
        } else {
            n
        };
    }
    proof {
        assert(done + lines_from(s, i as int) == done);
    }
    out
}

/// The lyrics of a plain-text file.
pub enum TxtLyrics {
    /// The file has lines with LRC time tags: it is read as an LRC file.
    Timed(Vec<LrcLine>),
    /// Every line that is not blank, trimmed.
    Plain(Vec<String>),
}

/// Reads a plain-text lyric file. A file with a line that carries an LRC
/// time tag and text is an LRC file that came with a `.txt` name: it is
/// parsed as LRC (metadata tags and translations do not become lines), with
/// no audio length known. Any other file gives its non-blank lines, trimmed.
pub fn txt_lines(text: &str) -> (r: TxtLyrics)
    ensures
        file_entries(text@).len() > 0 ==> (r matches TxtLyrics::Timed(lines) && lines_view(lines@)
            == lrc_file_lines(text@, None)),
        file_entries(text@).len() == 0 ==> (r matches TxtLyrics::Plain(v)
            && crate::text::strings_view(v@) == nonblank_lines(lines_from(text@, 0))),
{
    let entries = file_entries_of(text);
    if entries.len() > 0 {
        TxtLyrics::Timed(parse_lrc_lines(text, None))
    } else {
        TxtLyrics::Plain(plain_txt_lines(text))
    }
}

/// A line with no line tag, or with no text once its tags are taken out,
/// gives no entry.
pub proof fn lemma_untimed_line_gives_no_entry(line: Seq<char>)
    requires
        tags_from(trim(line), 0, false).len() == 0 || trim(
            strip_tags_from(trim(line), 0, false),
        ).len() == 0,
    ensures
        line_entries(line).len() == 0,
{
}

proof fn lemma_untimed_lines_give_no_entries(ls: Seq<Seq<char>>)
    requires
        forall|k: int| 0 <= k < ls.len() ==> tags_from(trim(#[trigger] ls[k]), 0, false).len() == 0,
    ensures
        entries_of_lines(ls).len() == 0,
    decreases ls.len(),
{
    if ls.len() > 0 {
        lemma_untimed_lines_give_no_entries(ls.drop_last());
        assert(ls.last() == ls[ls.len() - 1]);
    }
}

/// A file none of whose lines carries a line tag gives no LRC line, and is
/// read as plain text when it comes as a TXT file.
pub proof fn lemma_untimed_file_gives_no_lines(text: Seq<char>, audio: Option<int>)
    requires
        forall|k: int|
            0 <= k < lines_from(text, 0).len() ==> tags_from(
                trim(#[trigger] lines_from(text, 0)[k]),
                0,
                false,
            ).len() == 0,
    ensures
        file_entries(text).len() == 0,
        lrc_file_lines(text, audio).len() == 0,
{
    lemma_untimed_lines_give_no_entries(lines_from(text, 0));
    assert(sorted_entries(file_entries(text)) =~= Seq::<EntryModel>::empty());
    assert(merge_entries(Seq::<EntryModel>::empty()) =~= Seq::<MergedModel>::empty());
}

} // verus!
