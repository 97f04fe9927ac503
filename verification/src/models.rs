//! Note names of MIDI pitches.

use vstd::prelude::*;
use crate::text::{decimal_text, digit_char, push_signed, push_str, signed_text};

verus! {

/// The name of pitch class `k` (0 = C, ..., 11 = B), with sharps.
pub open spec fn pitch_class_name(k: int) -> Seq<char> {
    if k == 0 {
        "C"@
    } else if k == 1 {
        "C#"@
    } else if k == 2 {
        "D"@
    } else if k == 3 {
        "D#"@
    } else if k == 4 {
        "E"@
    } else if k == 5 {
        "F"@
    } else if k == 6 {
        "F#"@
    } else if k == 7 {
        "G"@
    } else if k == 8 {
        "G#"@
    } else if k == 9 {
        "A"@
    } else if k == 10 {
        "A#"@
    } else {
        "B"@
    }
}

/// The name of MIDI note `m`: its pitch class and its octave, where MIDI 60
/// is C4 (octave `m / 12 - 1`, rounded down).
pub open spec fn spec_note_name(m: int) -> Seq<char> {
    pitch_class_name(m % 12) + signed_text(m / 12 - 1)
}

fn pitch_class_str(k: u64) -> (r: &'static str)
    requires
        k < 12,
    ensures
        r@ == pitch_class_name(k as int),
{
    if k == 0 {
        "C"
    } else if k == 1 {
        "C#"
    } else if k == 2 {
        "D"
    } else if k == 3 {
        "D#"
    } else if k == 4 {
        "E"
    } else if k == 5 {
        "F"
    } else if k == 6 {
        "F#"
    } else if k == 7 {
        "G"
    } else if k == 8 {
        "G#"
    } else if k == 9 {
        "A"
    } else if k == 10 {
        "A#"
    } else {
        "B"
    }
}

/// The note name of the (rounded) MIDI pitch `midi`, such as `C4` for 60 or
/// `F#4` for 66.
pub fn note_name(midi: i32) -> (r: String)
    ensures
        r@ == spec_note_name(midi as int),
{
    let shifted: u64 = (midi as i64 + 2400000000i64) as u64;
    let k = shifted % 12;
    let octave: i64 = (shifted / 12) as i64 - 200000001i64;
    proof {
        let m = midi as int;
        assert(shifted as int == m + 12 * 200000000);
        assert((m + 12 * 200000000) % 12 == m % 12) by (nonlinear_arith);
        assert((m + 12 * 200000000) / 12 == m / 12 + 200000000) by (nonlinear_arith);
    }
    let mut r = String::new();
    push_str(&mut r, pitch_class_str(k));
    push_signed(&mut r, octave);
    r
}

proof fn lemma_decimal_text_digits(v: nat)
    ensures
        decimal_text(v).len() >= 1,
        v >= 10 ==> decimal_text(v).len() >= 2,
        forall|i: int|
            0 <= i < decimal_text(v).len() ==> '0' <= #[trigger] decimal_text(v)[i] && decimal_text(
                v,
            )[i] <= '9',
    decreases v,
{
    if v >= 10 {
        lemma_decimal_text_digits(v / 10);
        let d = decimal_text(v / 10);
        assert(decimal_text(v) == d.push(digit_char((v % 10) as int)));
    }
}

proof fn lemma_decimal_text_injective(a: nat, b: nat)
    requires
        decimal_text(a) == decimal_text(b),
    ensures
        a == b,
    decreases a,
{
    lemma_decimal_text_digits(a);
    lemma_decimal_text_digits(b);
    if a < 10 && b < 10 {
        assert(decimal_text(a)[0] == digit_char(a as int));
        assert(decimal_text(b)[0] == digit_char(b as int));
    } else if a >= 10 && b >= 10 {
        let da = decimal_text(a);
        let db = decimal_text(b);
        assert(da == decimal_text(a / 10).push(digit_char((a % 10) as int)));
        assert(db == decimal_text(b / 10).push(digit_char((b % 10) as int)));
        assert(da.last() == db.last());
        assert(digit_char((a % 10) as int) == digit_char((b % 10) as int));
        assert(da.drop_last() =~= decimal_text(a / 10));
        assert(db.drop_last() =~= decimal_text(b / 10));
        lemma_decimal_text_injective(a / 10, b / 10);
    } else {
        assert(decimal_text(a).len() != decimal_text(b).len());
    }
}

proof fn lemma_signed_text_injective(a: int, b: int)
    requires
        signed_text(a) == signed_text(b),
    ensures
        a == b,
{
    if a < 0 {
        lemma_decimal_text_digits((-a) as nat);
    } else {
        lemma_decimal_text_digits(a as nat);
    }
    if b < 0 {
        lemma_decimal_text_digits((-b) as nat);
    } else {
        lemma_decimal_text_digits(b as nat);
    }
    if a < 0 && b < 0 {
        assert(signed_text(a).drop_first() =~= decimal_text((-a) as nat));
        assert(signed_text(b).drop_first() =~= decimal_text((-b) as nat));
        lemma_decimal_text_injective((-a) as nat, (-b) as nat);
    } else if a >= 0 && b >= 0 {
        lemma_decimal_text_injective(a as nat, b as nat);
    } else {
        if a < 0 {
            assert(signed_text(a)[0] == '-');
            assert(signed_text(b)[0] == decimal_text(b as nat)[0]);
        } else {
            assert(signed_text(b)[0] == '-');
            assert(signed_text(a)[0] == decimal_text(a as nat)[0]);
        }
    }
}

/// The first char of `signed_text(v)`: a digit or `-`, never `#`.
proof fn lemma_signed_text_head(v: int)
    ensures
        signed_text(v).len() >= 1,
        signed_text(v)[0] != '#',
{
    if v < 0 {
        lemma_decimal_text_digits((-v) as nat);
    } else {
        lemma_decimal_text_digits(v as nat);
    }
}

/// The letter and length of each pitch-class name.
proof fn lemma_pitch_class_key(k: int)
    requires
        0 <= k < 12,
    ensures
        pitch_class_name(k).len() == (if k == 1 || k == 3 || k == 6 || k == 8 || k == 10 {
            2int
        } else {
            1int
        }),
        pitch_class_name(k)[0] == (if k <= 1 {
            'C'
        } else if k <= 3 {
            'D'
        } else if k == 4 {
            'E'
        } else if k <= 6 {
            'F'
        } else if k <= 8 {
            'G'
        } else if k <= 10 {
            'A'
        } else {
            'B'
        }),
{
    if k == 0 {
        reveal_strlit("C");
        assert(pitch_class_name(k) == "C"@);
        assert(pitch_class_name(k).len() == 1);
        assert(pitch_class_name(k)[0] == 'C');
    } else if k == 1 {
        reveal_strlit("C#");
        assert(pitch_class_name(k) == "C#"@);
        assert(pitch_class_name(k).len() == 2);
        assert(pitch_class_name(k)[0] == 'C');
    } else if k == 2 {
        reveal_strlit("D");
        assert(pitch_class_name(k) == "D"@);
        assert(pitch_class_name(k).len() == 1);
        assert(pitch_class_name(k)[0] == 'D');
    } else if k == 3 {
        reveal_strlit("D#");
        assert(pitch_class_name(k) == "D#"@);
        assert(pitch_class_name(k).len() == 2);
        assert(pitch_class_name(k)[0] == 'D');
    } else if k == 4 {
        reveal_strlit("E");
        assert(pitch_class_name(k) == "E"@);
        assert(pitch_class_name(k).len() == 1);
        assert(pitch_class_name(k)[0] == 'E');
    } else if k == 5 {
        reveal_strlit("F");
        assert(pitch_class_name(k) == "F"@);
        assert(pitch_class_name(k).len() == 1);
        assert(pitch_class_name(k)[0] == 'F');
    } else if k == 6 {
        reveal_strlit("F#");
        assert(pitch_class_name(k) == "F#"@);
        assert(pitch_class_name(k).len() == 2);
        assert(pitch_class_name(k)[0] == 'F');
    } else if k == 7 {
        reveal_strlit("G");
        assert(pitch_class_name(k) == "G"@);
        assert(pitch_class_name(k).len() == 1);
        assert(pitch_class_name(k)[0] == 'G');
    } else if k == 8 {
        reveal_strlit("G#");
        assert(pitch_class_name(k) == "G#"@);
        assert(pitch_class_name(k).len() == 2);
        assert(pitch_class_name(k)[0] == 'G');
    } else if k == 9 {
        reveal_strlit("A");
        assert(pitch_class_name(k) == "A"@);
        assert(pitch_class_name(k).len() == 1);
        assert(pitch_class_name(k)[0] == 'A');
    } else if k == 10 {
        reveal_strlit("A#");
        assert(pitch_class_name(k) == "A#"@);
        assert(pitch_class_name(k).len() == 2);
        assert(pitch_class_name(k)[0] == 'A');
    } else if k == 11 {
        reveal_strlit("B");
        assert(pitch_class_name(k) == "B"@);
        assert(pitch_class_name(k).len() == 1);
        assert(pitch_class_name(k)[0] == 'B');
    }
}

proof fn lemma_pitch_class_names_distinct(x: int, y: int)
    requires
        0 <= x < 12,
        0 <= y < 12,
        pitch_class_name(x) == pitch_class_name(y),
    ensures
        x == y,
{
    lemma_pitch_class_key(x);
    lemma_pitch_class_key(y);
}

/// Different MIDI notes have different names: the pitch class and the
/// octave can be read back from a note name, so no two notes share one
/// (E4 and F4 are told apart, as are B3 and C4).
pub proof fn lemma_note_names_distinct(a: int, b: int)
    requires
        a != b,
    ensures
        spec_note_name(a) != spec_note_name(b),
{
    reveal_strlit("C");
    reveal_strlit("C#");
    reveal_strlit("D");
    reveal_strlit("D#");
    reveal_strlit("E");
    reveal_strlit("F");
    reveal_strlit("F#");
    reveal_strlit("G");
    reveal_strlit("G#");
    reveal_strlit("A");
    reveal_strlit("A#");
    reveal_strlit("B");
    let ka = a % 12;
    let kb = b % 12;
    let pa = pitch_class_name(ka);
    let pb = pitch_class_name(kb);
    let oa = signed_text(a / 12 - 1);
    let ob = signed_text(b / 12 - 1);
    lemma_signed_text_head(a / 12 - 1);
    lemma_signed_text_head(b / 12 - 1);
    if spec_note_name(a) == spec_note_name(b) {
        let n = spec_note_name(a);
        assert(n == pa + oa);
        assert(n == pb + ob);
        // A name's second char is `#` exactly when its pitch class has a sharp.
        assert(pa.len() == 1 || (pa.len() == 2 && pa[1] == '#'));
        assert(pb.len() == 1 || (pb.len() == 2 && pb[1] == '#'));
        assert(pa.len() == 1 ==> n[1] == oa[0]);
        assert(pb.len() == 1 ==> n[1] == ob[0]);
        assert(pa.len() == 2 ==> n[1] == pa[1]);
        assert(pb.len() == 2 ==> n[1] == pb[1]);
        assert(pa.len() == pb.len());
        assert(pa =~= n.subrange(0, pa.len() as int));
        assert(pb =~= n.subrange(0, pb.len() as int));
        assert(oa =~= n.subrange(pa.len() as int, n.len() as int));
        assert(ob =~= n.subrange(pb.len() as int, n.len() as int));
        lemma_pitch_class_names_distinct(ka, kb);
        lemma_signed_text_injective(a / 12 - 1, b / 12 - 1);
        assert(a == 12 * (a / 12) + ka);
        assert(b == 12 * (b / 12) + kb);
    }
}

/// The twelve pitch-class names in order from C.
pub open spec fn chromatic_names() -> Seq<Seq<char>> {
    seq!["C"@, "C#"@, "D"@, "D#"@, "E"@, "F"@, "F#"@, "G"@, "G#"@, "A"@, "A#"@, "B"@]
}

/// Note names climb the chromatic scale: in octave `o` (MIDI `12 * (o + 1)`
/// up to `12 * (o + 1) + 11`, so MIDI 60 is C4 and 64 is E4) the notes are
/// named C, C#, D, D#, E, F, F#, G, G#, A, A#, B followed by `o`.
pub proof fn lemma_note_names_by_octave(o: int, k: int)
    requires
        0 <= k < 12,
    ensures
        spec_note_name(12 * (o + 1) + k) == chromatic_names()[k] + signed_text(o),
{
    let m = 12 * (o + 1) + k;
    assert(m % 12 == k && m / 12 == o + 1) by (nonlinear_arith)
        requires
            m == 12 * (o + 1) + k,
            0 <= k < 12,
    ;
}

} // verus!
