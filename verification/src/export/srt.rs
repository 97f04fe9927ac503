//! SRT subtitle text: times and cues.

use vstd::prelude::*;
use crate::text::{decimal_text, push_char, push_decimal, push_str, zero_padded};

verus! {

broadcast use vstd::string::group_string_axioms;

/// An SRT time `HH:MM:SS,mmm` of `ms` milliseconds (hours take more digits
/// when needed).
pub open spec fn spec_srt_time(ms: nat) -> Seq<char> {
    zero_padded(decimal_text(ms / 3600000), 2) + seq![':'] + zero_padded(
        decimal_text((ms % 3600000) / 60000),
        2,
    ) + seq![':'] + zero_padded(decimal_text((ms % 60000) / 1000), 2) + seq![','] + zero_padded(
        decimal_text(ms % 1000),
        3,
    )
}

/// Appends the SRT time of `ms` milliseconds.
pub fn push_srt_time(s: &mut String, ms: u64)
    ensures
        final(s)@ == old(s)@ + spec_srt_time(ms as nat),
{
    let ghost s0 = s@;
    push_decimal(s, ms / 3600000, 2);
    push_char(s, ':');
    push_decimal(s, (ms % 3600000) / 60000, 2);
    push_char(s, ':');
    push_decimal(s, (ms % 60000) / 1000, 2);
    push_char(s, ',');
    push_decimal(s, ms % 1000, 3);
    assert(s@ =~= s0 + spec_srt_time(ms as nat));
}

/// The SRT time `HH:MM:SS,mmm` of `ms` milliseconds.
pub fn srt_time_text(ms: u64) -> (r: String)
    ensures
        r@ == spec_srt_time(ms as nat),
{
    let mut r = String::new();
    push_srt_time(&mut r, ms);
    assert(r@ =~= spec_srt_time(ms as nat));
    r
}

/// The fields of an SRT time give back its milliseconds: hours, minutes
/// below 60, seconds below 60 and milliseconds below 1000.
pub proof fn lemma_srt_time_fields(ms: nat)
    ensures
        (ms % 3600000) / 60000 < 60,
        (ms % 60000) / 1000 < 60,
        ms % 1000 < 1000,
        (ms / 3600000) * 3600000 + ((ms % 3600000) / 60000) * 60000 + ((ms % 60000) / 1000) * 1000
            + ms % 1000 == ms,
{
    assert((ms % 3600000) / 60000 < 60) by (nonlinear_arith);
    assert((ms % 60000) / 1000 < 60) by (nonlinear_arith);
    assert((ms / 3600000) * 3600000 + ((ms % 3600000) / 60000) * 60000 + ((ms % 60000) / 1000)
        * 1000 + ms % 1000 == ms) by (nonlinear_arith);
}

/// An SRT cue: its number, `start --> end`, its text and a blank line.
pub open spec fn spec_srt_cue(index: nat, start_ms: nat, end_ms: nat, text: Seq<char>) -> Seq<char> {
    decimal_text(index) + seq!['\n'] + spec_srt_time(start_ms) + " --> "@ + spec_srt_time(end_ms)
        + seq!['\n'] + text + seq!['\n', '\n']
}

/// The SRT cue number `index` showing `text` from `start_ms` to `end_ms`.
pub fn srt_cue(index: u64, start_ms: u64, end_ms: u64, text: &str) -> (r: String)
    ensures
        r@ == spec_srt_cue(index as nat, start_ms as nat, end_ms as nat, text@),
{
    let mut r = String::new();
    push_decimal(&mut r, index, 0);
    push_char(&mut r, '\n');
    push_srt_time(&mut r, start_ms);
    push_str(&mut r, " --> ");
    push_srt_time(&mut r, end_ms);
    push_char(&mut r, '\n');
    push_str(&mut r, text);
    push_char(&mut r, '\n');
    push_char(&mut r, '\n');
    proof {
        assert(zero_padded(decimal_text(index as nat), 0) == decimal_text(index as nat));
        assert(r@ =~= spec_srt_cue(index as nat, start_ms as nat, end_ms as nat, text@));
    }
    r
}

/// One timed piece of a lyric line as the SRT shows it: its visible text
/// and its note chain, if it has one.
#[derive(Debug, Clone)]
pub struct SrtSegment {
    pub text: String,
    pub note: Option<String>,
}

impl View for SrtSegment {
    type V = (Seq<char>, Option<Seq<char>>);

    open spec fn view(&self) -> (Seq<char>, Option<Seq<char>>) {
        (
            self.text@,
            match self.note {
                Some(n) => Some(n@),
                None => None,
            },
        )
    }
}

/// A lyric line for the SRT: its time range in milliseconds and its timed
/// segments.
#[derive(Debug, Clone)]
pub struct SrtLine {
    pub start_ms: u64,
    pub end_ms: u64,
    pub segments: Vec<SrtSegment>,
}

/// The model of an SRT line: start, end and the models of its segments.
pub type SrtLineModel = (int, int, Seq<(Seq<char>, Option<Seq<char>>)>);

impl View for SrtLine {
    type V = SrtLineModel;

    open spec fn view(&self) -> SrtLineModel {
        (
            self.start_ms as int,
            self.end_ms as int,
            self.segments@.map_values(|g: SrtSegment| g@),
        )
    }
}

/// The models of a list of SRT lines.
pub open spec fn srt_lines_view(v: Seq<SrtLine>) -> Seq<SrtLineModel> {
    v.map_values(|l: SrtLine| l@)
}

/// A segment with its note: `text [note]`, or the text alone.
pub open spec fn srt_piece(g: (Seq<char>, Option<Seq<char>>)) -> Seq<char> {
    match g.1 {
        Some(n) => g.0 + " ["@ + n + seq![']'],
        None => g.0,
    }
}

/// The annotated row of a line: its pieces, separated by a space.
pub open spec fn srt_row(gs: Seq<(Seq<char>, Option<Seq<char>>)>) -> Seq<char>
    decreases gs.len(),
{
    if gs.len() == 0 {
        Seq::empty()
    } else if gs.len() == 1 {
        srt_piece(gs[0])
    } else {
        srt_row(gs.drop_last()) + seq![' '] + srt_piece(gs.last())
    }
}

/// The annotated row of a line, `Hello [C4] world [D4]`: each segment's text
/// followed by its note in brackets, separated by spaces.
pub fn srt_annotated_row(segments: &[SrtSegment]) -> (r: String)
    ensures
        r@ == srt_row(segments@.map_values(|g: SrtSegment| g@)),
{
    let ghost gs = segments@.map_values(|g: SrtSegment| g@);
    let mut r = String::new();
    let mut k: usize = 0;
    while k < segments.len()
        invariant
            k <= segments@.len(),
            gs == segments@.map_values(|g: SrtSegment| g@),
            r@ == srt_row(gs.take(k as int)),
        decreases segments.len() - k,
    {
        let ghost r0 = r@;
        let g = &segments[k];
        assert(gs[k as int] == g@);
        if k > 0 {
            push_char(&mut r, ' ');
        }
        push_str(&mut r, g.text.as_str());
        match &g.note {
            Some(n) => {
                push_str(&mut r, " [");
                push_str(&mut r, n.as_str());
                push_char(&mut r, ']');
            },
            None => {},
        }
        proof {
            let t = gs.take(k + 1);
            assert(t.drop_last() =~= gs.take(k as int));
            assert(t.last() == g@);
            if k == 0 {
                assert(r@ =~= srt_piece(g@));
            } else {
                assert(r@ =~= r0 + seq![' '] + srt_piece(g@));
            }
        }
        k += 1;
    }
    proof {
        assert(gs.take(segments@.len() as int) =~= gs);
    }
    r
}

/// The SRT cues of lines `k..`, numbered from `index`: one cue per line
/// with timed segments, showing its annotated row; other lines are skipped.
pub open spec fn srt_cues_from(lines: Seq<SrtLineModel>, k: int, index: int) -> Seq<char>
    decreases lines.len() - k,
{
    if k < 0 || k >= lines.len() {
        Seq::empty()
    } else if lines[k].2.len() == 0 {
        srt_cues_from(lines, k + 1, index)
    } else {
        spec_srt_cue(index as nat, lines[k].0 as nat, lines[k].1 as nat, srt_row(lines[k].2))
            + srt_cues_from(lines, k + 1, index + 1)
    }
}

/// Some line has a timed segment.
pub open spec fn has_timed_line(lines: Seq<SrtLineModel>) -> bool {
    exists|k: int| 0 <= k < lines.len() && (#[trigger] lines[k]).2.len() > 0
}

/// Why lyrics give no SRT.
#[derive(Debug, Clone, Copy, PartialEq, Eq, Structural)]
pub enum SrtError {
    /// No line has timed tokens (plain-text lyrics before alignment).
    NoTimedLine,
}

/// The SRT of timed lyric lines: one cue per line that has timed segments,
/// numbered from 1, showing `text [note]` for each segment. Lyrics with no
/// timed line give `SrtError::NoTimedLine`.
pub fn srt_lyrics_text(lines: &[SrtLine]) -> (r: Result<String, SrtError>)
    ensures
        has_timed_line(srt_lines_view(lines@)) ==> (r matches Ok(t) && t@ == srt_cues_from(
            srt_lines_view(lines@),
            0,
            1,
        )),
        !has_timed_line(srt_lines_view(lines@)) ==> r == Err::<String, SrtError>(SrtError::NoTimedLine),
{
    let ghost ls = srt_lines_view(lines@);
    let mut out = String::new();
    let mut cues: usize = 0;
    let mut k: usize = 0;
    while k < lines.len()
        invariant
            k <= lines@.len(),
            ls == srt_lines_view(lines@),
            cues <= k,
            out@ + srt_cues_from(ls, k as int, cues + 1) == srt_cues_from(ls, 0, 1),
            (cues == 0) == !(exists|j: int| 0 <= j < k && (#[trigger] ls[j]).2.len() > 0),
        decreases lines.len() - k,
    {
        let line = &lines[k];
        assert(ls[k as int] == line@);
        if line.segments.len() > 0 {
            let ghost o0 = out@;
            let row = srt_annotated_row(line.segments.as_slice());
            let cue = srt_cue((cues + 1) as u64, line.start_ms, line.end_ms, row.as_str());
            push_str(&mut out, cue.as_str());
            proof {
                assert(out@ + srt_cues_from(ls, k + 1, cues + 2) =~= o0 + srt_cues_from(
                    ls,
                    k as int,
                    cues + 1,
                ));
            }
            cues += 1;
        } else {
            proof {
                assert(srt_cues_from(ls, k as int, cues + 1) == srt_cues_from(ls, k + 1, cues + 1));
            }
        }
        k += 1;
    }
    proof {
        assert(srt_cues_from(ls, k as int, cues + 1) == Seq::<char>::empty());
        assert(out@ =~= srt_cues_from(ls, 0, 1));
    }
    if cues == 0 {
        Err(SrtError::NoTimedLine)
    } else {
        Ok(out)
    }
}

/// The lines of `lines[k..]` that have timed segments, in order.
pub open spec fn timed_lines_from(lines: Seq<SrtLineModel>, k: int) -> Seq<SrtLineModel>
    decreases lines.len() - k,
{
    if k < 0 || k >= lines.len() {
        Seq::empty()
    } else if lines[k].2.len() == 0 {
        timed_lines_from(lines, k + 1)
    } else {
        seq![lines[k]] + timed_lines_from(lines, k + 1)
    }
}

/// The cue of each of the lines `t`, the `j`-th numbered `first + j`.
pub open spec fn numbered_cues(t: Seq<SrtLineModel>, first: int) -> Seq<Seq<char>> {
    Seq::new(
        t.len(),
        |j: int| spec_srt_cue((first + j) as nat, t[j].0 as nat, t[j].1 as nat, srt_row(t[j].2)),
    )
}

proof fn lemma_srt_cues_numbered_from(lines: Seq<SrtLineModel>, k: int, first: int)
    requires
        0 <= k <= lines.len(),
    ensures
        srt_cues_from(lines, k, first) == numbered_cues(timed_lines_from(lines, k), first).flatten(),
    decreases lines.len() - k,
{
    if k < lines.len() {
        if lines[k].2.len() == 0 {
            lemma_srt_cues_numbered_from(lines, k + 1, first);
        } else {
            lemma_srt_cues_numbered_from(lines, k + 1, first + 1);
            let t = timed_lines_from(lines, k);
            let rest = timed_lines_from(lines, k + 1);
            assert(t == seq![lines[k]] + rest);
            let c = numbered_cues(t, first);
            assert(c.drop_first() =~= numbered_cues(rest, first + 1));
            assert(c.first() == spec_srt_cue(
                first as nat,
                lines[k].0 as nat,
                lines[k].1 as nat,
                srt_row(lines[k].2),
            ));
        }
    } else {
        assert(numbered_cues(timed_lines_from(lines, k), first) =~= Seq::<Seq<char>>::empty());
    }
}

/// SRT cues are numbered 1, 2, 3, ... in order: the SRT of timed lyric
/// lines is the cues of the lines that have timed segments, the `j`-th of
/// them (from 0) numbered `j + 1`, one after another.
pub proof fn lemma_srt_cues_numbered(lines: Seq<SrtLineModel>)
    ensures
        srt_cues_from(lines, 0, 1) == numbered_cues(timed_lines_from(lines, 0), 1).flatten(),
        forall|j: int|
            0 <= j < timed_lines_from(lines, 0).len() ==> (#[trigger] numbered_cues(
                timed_lines_from(lines, 0),
                1,
            )[j]).subrange(0, decimal_text((j + 1) as nat).len() as int) == decimal_text(
                (j + 1) as nat,
            ),
{
    lemma_srt_cues_numbered_from(lines, 0, 1);
    let t = timed_lines_from(lines, 0);
    assert forall|j: int| 0 <= j < t.len() implies (#[trigger] numbered_cues(t, 1)[j]).subrange(
        0,
        decimal_text((j + 1) as nat).len() as int,
    ) == decimal_text((j + 1) as nat) by {
        let c = numbered_cues(t, 1)[j];
        let d = decimal_text((j + 1) as nat);
        assert(c == spec_srt_cue((1 + j) as nat, t[j].0 as nat, t[j].1 as nat, srt_row(t[j].2)));
        assert(c.subrange(0, d.len() as int) =~= d);
    }
}

} // verus!
