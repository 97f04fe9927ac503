//! The Japanese layers of a lyric line: its reading spans, the moras read
//! from them, and the spans each display token overlaps.

use vstd::prelude::*;
use crate::japanese::mora::{lemma_mora_spans_bounds, mora_spans, parse_kana_moras};
use crate::japanese::phoneme::{mora_to_phonemes, spec_mora_to_phonemes};
use crate::japanese::reading::{
    annotations_view, apply_overrides_from, apply_reading_overrides, lemma_moras_within_readings, lemma_override_readings_len_nonneg,
    lemma_readings_len_nonneg,
    lemma_overrides_readings_bound, override_readings_len, overrides_view, readings_len,
    renumber_moras, ruby_override, ruby_overrides, AnnotationModel, ReadingOverride,
    RubyAnnotation, kana_only_spans, spans_view, JapaneseReadingProvider, KanaOnlyProvider, ReadingConfidence,
    ReadingSpan, ReadingSpanModel,
};
use crate::japanese::unidic::{unidic_segmentation, unidic_spans, LinderaUnidicProvider};
use crate::text::strings_view;

verus! {

broadcast use vstd::string::group_string_axioms;

/// One mora of a line. `char_start..char_end` is the display range it
/// covers: its own kana when the span reads as its surface, else the whole
/// span; `reading_offset_*` index the span's reading.
#[derive(Debug, Clone)]
pub struct MoraUnit {
    pub kana: String,
    pub phonemes: Vec<String>,
    pub reading_span_id: usize,
    pub char_start: usize,
    pub char_end: usize,
    pub reading_offset_start: usize,
    pub reading_offset_end: usize,
    pub display_start: usize,
    pub display_end: usize,
    pub confidence: ReadingConfidence,
}

/// The model of a mora unit.
pub struct MoraUnitModel {
    pub kana: Seq<char>,
    pub phonemes: Seq<Seq<char>>,
    pub reading_span_id: int,
    pub char_start: int,
    pub char_end: int,
    pub reading_offset_start: int,
    pub reading_offset_end: int,
    pub display_start: int,
    pub display_end: int,
    pub confidence: ReadingConfidence,
}

impl View for MoraUnit {
    type V = MoraUnitModel;

    open spec fn view(&self) -> MoraUnitModel {
        MoraUnitModel {
            kana: self.kana@,
            phonemes: strings_view(self.phonemes@),
            reading_span_id: self.reading_span_id as int,
            char_start: self.char_start as int,
            char_end: self.char_end as int,
            reading_offset_start: self.reading_offset_start as int,
            reading_offset_end: self.reading_offset_end as int,
            display_start: self.display_start as int,
            display_end: self.display_end as int,
            confidence: self.confidence,
        }
    }
}

/// The models of a list of mora units.
pub open spec fn mora_units_view(v: Seq<MoraUnit>) -> Seq<MoraUnitModel> {
    v.map_values(|m: MoraUnit| m@)
}

/// What a span is read as: its pronunciation, else its reading.
pub open spec fn phonetic_of(sp: ReadingSpanModel) -> Seq<char> {
    if sp.pronunciation.len() > 0 {
        sp.pronunciation
    } else {
        sp.reading
    }
}

/// The mora units of span `si`: one per mora of what it is read as (none
/// when its reading is unknown).
pub open spec fn span_mora_units(sp: ReadingSpanModel, si: int) -> Seq<MoraUnitModel> {
    let ph = phonetic_of(sp);
    let exact = ph == sp.surface;
    let ms = mora_spans(ph);
    Seq::new(
        ms.len(),
        |k: int|
            MoraUnitModel {
                kana: ph.subrange(ms[k].0, ms[k].1),
                phonemes: spec_mora_to_phonemes(ph.subrange(ms[k].0, ms[k].1)),
                reading_span_id: si,
                char_start: if exact {
                    sp.char_start + ms[k].0
                } else {
                    sp.char_start
                },
                char_end: if exact {
                    sp.char_start + ms[k].1
                } else {
                    sp.char_end
                },
                reading_offset_start: ms[k].0,
                reading_offset_end: ms[k].1,
                display_start: sp.display_start,
                display_end: sp.display_end,
                confidence: sp.confidence,
            },
    )
}

/// The mora units of spans `0..k`, span by span.
pub open spec fn mora_units_upto(spans: Seq<ReadingSpanModel>, k: int) -> Seq<MoraUnitModel>
    decreases k,
{
    if k <= 0 || k > spans.len() {
        Seq::empty()
    } else {
        mora_units_upto(spans, k - 1) + span_mora_units(spans[k - 1], k - 1)
    }
}

/// The mora units of a line with reading spans `spans`.
pub open spec fn spec_mora_units(spans: Seq<ReadingSpanModel>) -> Seq<MoraUnitModel> {
    mora_units_upto(spans, spans.len() as int)
}

/// The moras of a line, read from its reading spans: for each span with a
/// known reading (pronunciation first), one unit per mora of that reading.
pub fn mora_units(spans: &[ReadingSpan]) -> (units: Vec<MoraUnit>)
    requires
        forall|i: int|
            0 <= i < spans@.len() ==> #[trigger] spans@[i].char_start + spans@[i].surface@.len()
                <= usize::MAX,
    ensures
        mora_units_view(units@) == spec_mora_units(spans_view(spans@)),
{
    let ghost sv = spans_view(spans@);
    let mut units: Vec<MoraUnit> = Vec::new();
    let mut si: usize = 0;
    while si < spans.len()
        invariant
            si <= spans@.len(),
            sv == spans_view(spans@),
            forall|i: int|
                0 <= i < spans@.len() ==> #[trigger] spans@[i].char_start + spans@[i].surface@.len()
                    <= usize::MAX,
            mora_units_view(units@) == mora_units_upto(sv, si as int),
        decreases spans.len() - si,
    {
        let span = &spans[si];
        assert(sv[si as int] == span@);
        let phonetic = if span.pronunciation.unicode_len() > 0 {
            span.pronunciation.clone()
        } else {
            span.reading.clone()
        };
        assert(phonetic@ == phonetic_of(span@));
        let exact = phonetic == span.surface;
        let parsed = parse_kana_moras(phonetic.as_str());
        let ghost ms = mora_spans(phonetic@);
        let ghost target = span_mora_units(span@, si as int);
        proof {
            lemma_mora_spans_bounds(phonetic@, 0);
        }
        let ghost base = mora_units_view(units@);
        let mut k: usize = 0;
        while k < parsed.len()
            invariant
                k <= parsed@.len(),
                parsed@.len() == ms.len(),
                ms == mora_spans(phonetic@),
                crate::japanese::mora::moras_of(parsed@, phonetic@),
                target == span_mora_units(span@, si as int),
                exact == (phonetic@ == span.surface@),
                phonetic@ == phonetic_of(span@),
                span.char_start + span.surface@.len() <= usize::MAX,
                forall|j: int|
                    0 <= j < ms.len() ==> 0 <= (#[trigger] ms[j]).0 < ms[j].1 <= phonetic@.len(),
                mora_units_view(units@) == base + target.take(k as int),
            decreases parsed.len() - k,
        {
            let pm = &parsed[k];
            assert(pm.char_start == ms[k as int].0 && pm.char_end == ms[k as int].1);
            let phonemes = mora_to_phonemes(pm.kana.as_str());
            let (cs, ce) = if exact {
                (span.char_start + pm.char_start, span.char_start + pm.char_end)
            } else {
                (span.char_start, span.char_end)
            };
            let u = MoraUnit {
                kana: pm.kana.clone(),
                phonemes,
                reading_span_id: si,
                char_start: cs,
                char_end: ce,
                reading_offset_start: pm.char_start,
                reading_offset_end: pm.char_end,
                display_start: span.display_start,
                display_end: span.display_end,
                confidence: span.confidence,
            };
            let ghost before = mora_units_view(units@);
            units.push(u);
            proof {
                assert(u@ == target[k as int]);
                assert(mora_units_view(units@) =~= before.push(u@));
                assert(target.take(k + 1) =~= target.take(k as int).push(target[k as int]));
            }
            k += 1;
        }
        proof {
            assert(target.take(k as int) =~= target);
        }
        si += 1;
    }
    units
}

/// Whether the char ranges `a` and `b` overlap.
pub open spec fn ranges_overlap(a: (int, int), b: (int, int)) -> bool {
    a.0 < b.1 && b.0 < a.1
}

/// The spans among `0..k` that overlap the range `r`, in order.
pub open spec fn overlapping_spans(spans: Seq<ReadingSpanModel>, r: (int, int), k: int) -> Seq<int>
    decreases k,
{
    if k <= 0 || k > spans.len() {
        Seq::empty()
    } else {
        let prev = overlapping_spans(spans, r, k - 1);
        if ranges_overlap(r, (spans[k - 1].char_start, spans[k - 1].char_end)) {
            prev.push(k - 1)
        } else {
            prev
        }
    }
}

/// The reading spans that a display token of chars `char_start..char_end`
/// overlaps, in order.
pub fn token_reading_span_ids(char_start: usize, char_end: usize, spans: &[ReadingSpan]) -> (ids: Vec<
    usize,
>)
    ensures
        ids@.map_values(|i: usize| i as int) == overlapping_spans(
            spans_view(spans@),
            (char_start as int, char_end as int),
            spans@.len() as int,
        ),
{
    let ghost sv = spans_view(spans@);
    let ghost r = (char_start as int, char_end as int);
    let mut ids: Vec<usize> = Vec::new();
    let mut k: usize = 0;
    while k < spans.len()
        invariant
            k <= spans@.len(),
            sv == spans_view(spans@),
            r == (char_start as int, char_end as int),
            ids@.map_values(|i: usize| i as int) == overlapping_spans(sv, r, k as int),
        decreases spans.len() - k,
    {
        assert(sv[k as int] == spans@[k as int]@);
        if char_start < spans[k].char_end && spans[k].char_start < char_end {
            let ghost before = ids@;
            ids.push(k);
            assert(ids@.map_values(|i: usize| i as int) =~= before.map_values(|i: usize| i as int).push(
                k as int,
            ));
        }
        k += 1;
    }
    ids
}

/// The reading spans of a line given the dictionary's answer for it: the
/// dictionary's spans when it gave some, else the kana-only spans.
pub fn spans_or_kana_only(text: &str, dictionary: Result<Vec<ReadingSpan>, String>) -> (spans:
    Vec<ReadingSpan>)
    ensures
        dictionary matches Ok(d) ==> spans@ == d@,
        dictionary is Err ==> spans_view(spans@) == kana_only_spans(text@),
{
    match dictionary {
        Ok(spans) => spans,
        Err(_) => {
            let kana_only = KanaOnlyProvider;
            match kana_only.analyze(text) {
                Ok(spans) => {
                    assert(spans_view(spans@) =~= kana_only_spans(text@));
                    spans
                },
                Err(_) => Vec::new(),
            }
        },
    }
}

/// The reading spans of a line: the UniDic dictionary's when it segments the
/// line, else the kana-only spans (see `spans_or_kana_only`, which decides on
/// the dictionary's answer).
pub fn line_reading_spans(text: &str) -> (spans: Vec<ReadingSpan>)
    ensures
        spans_view(spans@) == unidic_spans(text@, unidic_segmentation(text@)) || spans_view(
            spans@,
        ) == kana_only_spans(text@),
{
    let unidic = LinderaUnidicProvider;
    spans_or_kana_only(text, unidic.analyze(text))
}

/// The reading spans of a line once its ruby readings are applied: the
/// spans as they are without ruby, else the spans with one override per
/// annotation, renumbered.
pub open spec fn ruby_read_spans(
    spans: Seq<ReadingSpanModel>,
    ruby: Seq<AnnotationModel>,
    text: Seq<char>,
) -> Seq<ReadingSpanModel> {
    if ruby.len() == 0 {
        spans
    } else {
        renumber_moras(
            apply_overrides_from(spans, ruby.map_values(|a: AnnotationModel| ruby_override(a)), 0, text),
            0,
        )
    }
}

/// Some span's char range runs past `usize::MAX`.
pub open spec fn span_range_too_long(spans: Seq<ReadingSpanModel>) -> bool {
    exists|i: int| 0 <= i < spans.len() && (#[trigger] spans[i]).char_start + spans[i].surface.len()
        > usize::MAX
}

/// The Japanese layers of a lyric line: its reading spans, its moras and,
/// for each display token, the spans it overlaps.
#[derive(Debug, Clone)]
pub struct LineLayers {
    pub spans: Vec<ReadingSpan>,
    pub moras: Vec<MoraUnit>,
    pub token_span_ids: Vec<Vec<usize>>,
}

fn checked_readings_len(spans: &[ReadingSpan]) -> (r: Option<usize>)
    ensures
        r matches Some(n) ==> n == readings_len(spans_view(spans@)),
        r is None ==> readings_len(spans_view(spans@)) > usize::MAX,
{
    let ghost sv = spans_view(spans@);
    let mut acc: usize = 0;
    let mut k: usize = 0;
    assert(sv.skip(0) =~= sv);
    while k < spans.len()
        invariant
            k <= spans@.len(),
            sv == spans_view(spans@),
            acc + readings_len(sv.skip(k as int)) == readings_len(sv),
        decreases spans.len() - k,
    {
        proof {
            assert(sv.skip(k as int).drop_first() =~= sv.skip(k + 1));
            assert(sv.skip(k as int)[0] == spans@[k as int]@);
            lemma_readings_len_nonneg(sv.skip(k + 1));
        }
        let n = spans[k].reading.unicode_len();
        if acc > usize::MAX - n {
            return None;
        }
        acc = acc + n;
        k += 1;
    }
    proof {
        assert(sv.skip(k as int) =~= Seq::<ReadingSpanModel>::empty());
    }
    Some(acc)
}



fn checked_override_readings_len(ovs: &[ReadingOverride]) -> (r: Option<usize>)
    ensures
        r matches Some(n) ==> n == override_readings_len(overrides_view(ovs@), 0),
        r is None ==> override_readings_len(overrides_view(ovs@), 0) > usize::MAX,
{
    let ghost ov = overrides_view(ovs@);
    let mut acc: usize = 0;
    let mut k: usize = 0;
    while k < ovs.len()
        invariant
            k <= ovs@.len(),
            ov == overrides_view(ovs@),
            acc + override_readings_len(ov, k as int) == override_readings_len(ov, 0),
        decreases ovs.len() - k,
    {
        proof {
            lemma_override_readings_len_nonneg(ov, k + 1);
        }
        let n = ovs[k].reading.unicode_len();
        if acc > usize::MAX - n {
            return None;
        }
        acc = acc + n;
        k += 1;
    }
    Some(acc)
}

/// The layers of a lyric line from its reading spans `spans` (the
/// dictionary's or the kana-only ones), its ruby annotations `ruby` and the
/// char ranges of its display tokens. Ruby readings override the spans
/// (`apply_reading_overrides`); then the moras come from the spans
/// (`mora_units`) and each token gets the spans it overlaps. Gives `None`
/// when a count would not fit in `usize`: the readings' chars (which bound
/// the moras) with ruby to apply, or a span's char range.
pub fn line_layers(
    spans: Vec<ReadingSpan>,
    ruby: &[RubyAnnotation],
    text: &str,
    token_ranges: &[(usize, usize)],
) -> (r: Option<LineLayers>)
    ensures
        ({
            let ovs = annotations_view(ruby@).map_values(|a: AnnotationModel| ruby_override(a));
            let sp = ruby_read_spans(spans_view(spans@), annotations_view(ruby@), text@);
            &&& r is None <==> ((ruby@.len() > 0 && readings_len(spans_view(spans@))
                + override_readings_len(ovs, 0) > usize::MAX) || span_range_too_long(sp))
            &&& r matches Some(l) ==> {
                &&& spans_view(l.spans@) == sp
                &&& mora_units_view(l.moras@) == spec_mora_units(sp)
                &&& l.token_span_ids@.len() == token_ranges@.len()
                &&& forall|t: int|
                    0 <= t < token_ranges@.len() ==> (#[trigger] l.token_span_ids@[t])@.map_values(
                        |i: usize| i as int,
                    ) == overlapping_spans(
                        sp,
                        (token_ranges@[t].0 as int, token_ranges@[t].1 as int),
                        sp.len() as int,
                    )
            }
        }),
{
    let ghost ovs = annotations_view(ruby@).map_values(|a: AnnotationModel| ruby_override(a));
    let ghost sp = ruby_read_spans(spans_view(spans@), annotations_view(ruby@), text@);
    let mut spans = spans;
    if ruby.len() > 0 {
        let overrides = ruby_overrides(ruby);
        let a = checked_readings_len(spans.as_slice());
        let b = checked_override_readings_len(overrides.as_slice());
        proof {
            lemma_readings_len_nonneg(spans_view(spans@));
            lemma_override_readings_len_nonneg(ovs, 0);
        }
        let x = match a {
            Some(x) => x,
            None => {
                return None;
            },
        };
        let y = match b {
            Some(y) => y,
            None => {
                return None;
            },
        };
        if x > usize::MAX - y {
            return None;
        }
        proof {
            let applied = apply_overrides_from(spans_view(spans@), ovs, 0, text@);
            lemma_overrides_readings_bound(spans_view(spans@), ovs, 0, text@);
            lemma_moras_within_readings(applied);
        }
        apply_reading_overrides(&mut spans, overrides.as_slice(), text);
    }
    assert(spans_view(spans@) == sp);
    let mut i: usize = 0;
    let mut too_long = false;
    while i < spans.len()
        invariant
            i <= spans@.len(),
            spans_view(spans@) == sp,
            too_long ==> span_range_too_long(sp),
            !too_long ==> forall|j: int| 0 <= j < i ==> #[trigger] spans@[j].char_start
                + spans@[j].surface@.len() <= usize::MAX,
        decreases spans.len() - i,
    {
        let n = spans[i].surface.unicode_len();
        assert(sp[i as int] == spans@[i as int]@);
        if spans[i].char_start > usize::MAX - n {
            assert(sp[i as int].char_start + sp[i as int].surface.len() > usize::MAX);
            too_long = true;
        }
        i += 1;
    }
    if too_long {
        return None;
    }
    proof {
        assert forall|j: int| 0 <= j < sp.len() implies !(#[trigger] sp[j].char_start
            + sp[j].surface.len() > usize::MAX) by {
            assert(sp[j] == spans@[j]@);
        }
    }
    let moras = mora_units(spans.as_slice());
    let mut ids: Vec<Vec<usize>> = Vec::new();
    let mut t: usize = 0;
    while t < token_ranges.len()
        invariant
            t <= token_ranges@.len(),
            spans_view(spans@) == sp,
            ids@.len() == t,
            forall|u: int|
                0 <= u < t ==> (#[trigger] ids@[u])@.map_values(|i: usize| i as int)
                    == overlapping_spans(
                    sp,
                    (token_ranges@[u].0 as int, token_ranges@[u].1 as int),
                    sp.len() as int,
                ),
        decreases token_ranges.len() - t,
    {
        let (a, b) = token_ranges[t];
        let row = token_reading_span_ids(a, b, spans.as_slice());
        ids.push(row);
        t += 1;
    }
    Some(LineLayers { spans, moras, token_span_ids: ids })
}

} // verus!
