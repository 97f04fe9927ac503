//! ASS subtitle text: escaping, times, karaoke syllables and dialogue lines.

use vstd::prelude::*;
use crate::text::{
    chars_of, decimal_text, push_char, push_decimal, push_str, zero_padded,
};

verus! {

broadcast use vstd::string::group_string_axioms;

/// The escaped form of one char: `{`, `}` and `\` get a `\` in front.
pub open spec fn escape_char(c: char) -> Seq<char> {
    if c == '{' || c == '}' || c == '\\' {
        seq!['\\', c]
    } else {
        seq![c]
    }
}

/// `s` with the ASS special chars `{`, `}` and `\` escaped.
pub open spec fn spec_escape_ass(s: Seq<char>) -> Seq<char>
    decreases s.len(),
{
    if s.len() == 0 {
        Seq::empty()
    } else {
        spec_escape_ass(s.drop_last()) + escape_char(s.last())
    }
}

/// Escapes the ASS special chars `{`, `}` and `\` with a backslash.
pub fn escape_ass(text: &str) -> (r: String)
    ensures
        r@ == spec_escape_ass(text@),
{
    let chars = chars_of(text);
    let mut out = String::new();
    let mut i: usize = 0;
    while i < chars.len()
        invariant
            chars@ == text@,
            i <= chars@.len(),
            out@ == spec_escape_ass(text@.take(i as int)),
        decreases chars.len() - i,
    {
        let c = chars[i];
        proof {
            assert(text@.take(i + 1).drop_last() == text@.take(i as int));
            assert(text@.take(i + 1).last() == c);
        }
        let ghost before = out@;
        if c == '{' || c == '}' || c == '\\' {
            push_char(&mut out, '\\');
            push_char(&mut out, c);
            assert(out@ =~= before + seq!['\\', c]);
        } else {
            push_char(&mut out, c);
            assert(out@ =~= before + seq![c]);
        }
        i += 1;
    }
    proof {
        assert(text@.take(i as int) == text@);
    }
    out
}

/// An ASS time `H:MM:SS.cc` of `cs` centiseconds.
pub open spec fn spec_ass_time(cs: nat) -> Seq<char> {
    decimal_text(cs / 360000) + seq![':'] + zero_padded(decimal_text((cs % 360000) / 6000), 2)
        + seq![':'] + zero_padded(decimal_text((cs % 6000) / 100), 2) + seq!['.'] + zero_padded(
        decimal_text(cs % 100),
        2,
    )
}

/// Appends the ASS time of `cs` centiseconds.
pub fn push_ass_time(s: &mut String, cs: u64)
    ensures
        final(s)@ == old(s)@ + spec_ass_time(cs as nat),
{
    let ghost s0 = s@;
    push_decimal(s, cs / 360000, 0);
    push_char(s, ':');
    push_decimal(s, (cs % 360000) / 6000, 2);
    push_char(s, ':');
    push_decimal(s, (cs % 6000) / 100, 2);
    push_char(s, '.');
    push_decimal(s, cs % 100, 2);
    proof {
        assert(zero_padded(decimal_text((cs / 360000) as nat), 0) == decimal_text((cs / 360000) as nat));
        assert(s@ =~= s0 + spec_ass_time(cs as nat));
    }
}

/// The ASS time `H:MM:SS.cc` of `cs` centiseconds.
pub fn ass_time_text(cs: u64) -> (r: String)
    ensures
        r@ == spec_ass_time(cs as nat),
{
    let mut r = String::new();
    push_ass_time(&mut r, cs);
    assert(r@ =~= spec_ass_time(cs as nat));
    r
}

/// The fields of an ASS time give back its centiseconds: hours, minutes
/// below 60, seconds below 60 and centiseconds below 100.
pub proof fn lemma_ass_time_fields(cs: nat)
    ensures
        (cs % 360000) / 6000 < 60,
        (cs % 6000) / 100 < 60,
        cs % 100 < 100,
        (cs / 360000) * 360000 + ((cs % 360000) / 6000) * 6000 + ((cs % 6000) / 100) * 100 + cs
            % 100 == cs,
{
    assert((cs % 360000) / 6000 < 60) by (nonlinear_arith);
    assert((cs % 6000) / 100 < 60) by (nonlinear_arith);
    assert((cs / 360000) * 360000 + ((cs % 360000) / 6000) * 6000 + ((cs % 6000) / 100) * 100 + cs
        % 100 == cs) by (nonlinear_arith);
}

/// A karaoke syllable `{\k<cs>}text`: the text, escaped, lit `cs`
/// centiseconds after the syllable before it.
pub open spec fn spec_karaoke_syllable(cs: nat, text: Seq<char>) -> Seq<char> {
    "{\\k"@ + decimal_text(cs) + "}"@ + spec_escape_ass(text)
}

/// The karaoke syllable `{\k<cs>}text` with `text` escaped.
pub fn karaoke_syllable(cs: u64, text: &str) -> (r: String)
    ensures
        r@ == spec_karaoke_syllable(cs as nat, text@),
{
    let mut r = String::new();
    push_str(&mut r, "{\\k");
    push_decimal(&mut r, cs, 0);
    push_str(&mut r, "}");
    let e = escape_ass(text);
    push_str(&mut r, e.as_str());
    proof {
        assert(zero_padded(decimal_text(cs as nat), 0) == decimal_text(cs as nat));
        assert(r@ =~= spec_karaoke_syllable(cs as nat, text@));
    }
    r
}

/// An ASS event line `Dialogue: 0,<start>,<end>,<style>,,0,0,0,,<text>`.
pub open spec fn spec_ass_dialogue(
    start_cs: nat,
    end_cs: nat,
    style: Seq<char>,
    text: Seq<char>,
) -> Seq<char> {
    "Dialogue: 0,"@ + spec_ass_time(start_cs) + ","@ + spec_ass_time(end_cs) + ","@ + style
        + ",,0,0,0,,"@ + text
}

/// The ASS event line of `text` in `style` from `start_cs` to `end_cs`
/// centiseconds.
pub fn ass_dialogue(start_cs: u64, end_cs: u64, style: &str, text: &str) -> (r: String)
    ensures
        r@ == spec_ass_dialogue(start_cs as nat, end_cs as nat, style@, text@),
{
    let mut r = String::new();
    push_str(&mut r, "Dialogue: 0,");
    push_ass_time(&mut r, start_cs);
    push_str(&mut r, ",");
    push_ass_time(&mut r, end_cs);
    push_str(&mut r, ",");
    push_str(&mut r, style);
    push_str(&mut r, ",,0,0,0,,");
    push_str(&mut r, text);
    assert(r@ =~= spec_ass_dialogue(start_cs as nat, end_cs as nat, style@, text@));
    r
}

} // verus!
