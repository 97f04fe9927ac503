//! Mora to phoneme sequence.
//!
//! Covers voiceless, voiced and semi-voiced kana, youon (きゃ = k y a), foreign
//! combinations (ファ = f a, ティ = t i), the sokuon (っ = cl), the hatsuon
//! (ん = N) and the long-vowel mark (ー = :). This is the label sequence of a
//! forced aligner, not a full phonological model.

use vstd::prelude::*;
use crate::text::{char_from_u32, chars_of, is_scalar_value, opt_str_view, strings_view};

verus! {

broadcast use vstd::string::group_string_axioms;

/// The consonant of a kana.
pub open spec fn spec_consonant_of(c: char) -> Option<Seq<char>> {
    if c == 'か' || c == 'き' || c == 'く' || c == 'け' || c == 'こ' {
        Some("k"@)
    } else if c == 'が' || c == 'ぎ' || c == 'ぐ' || c == 'げ' || c == 'ご' {
        Some("g"@)
    } else if c == 'さ' || c == 'す' || c == 'せ' || c == 'そ' {
        Some("s"@)
    } else if c == 'し' {
        Some("sh"@)
    } else if c == 'ざ' || c == 'ず' || c == 'ぜ' || c == 'ぞ' {
        Some("z"@)
    } else if c == 'じ' {
        Some("j"@)
    } else if c == 'た' || c == 'て' || c == 'と' {
        Some("t"@)
    } else if c == 'ち' {
        Some("ch"@)
    } else if c == 'つ' {
        Some("ts"@)
    } else if c == 'だ' || c == 'で' || c == 'ど' {
        Some("d"@)
    } else if c == 'な' || c == 'に' || c == 'ぬ' || c == 'ね' || c == 'の' {
        Some("n"@)
    } else if c == 'は' || c == 'へ' || c == 'ほ' || c == 'ひ' {
        Some("h"@)
    } else if c == 'ふ' {
        Some("f"@)
    } else if c == 'ば' || c == 'び' || c == 'ぶ' || c == 'べ' || c == 'ぼ' {
        Some("b"@)
    } else if c == 'ぱ' || c == 'ぴ' || c == 'ぷ' || c == 'ぺ' || c == 'ぽ' {
        Some("p"@)
    } else if c == 'ま' || c == 'み' || c == 'む' || c == 'め' || c == 'も' {
        Some("m"@)
    } else if c == 'や' || c == 'ゆ' || c == 'よ' {
        Some("y"@)
    } else if c == 'ら' || c == 'り' || c == 'る' || c == 'れ' || c == 'ろ' {
        Some("r"@)
    } else if c == 'わ' {
        Some("w"@)
    } else if c == 'ヴ' {
        Some("v"@)
    } else {
        None
    }
}

/// The vowel of a kana.
pub open spec fn spec_vowel_of(c: char) -> Option<Seq<char>> {
    if c == 'あ' || c == 'か' || c == 'さ' || c == 'た' || c == 'な' || c == 'は' || c == 'ま'
        || c == 'や' || c == 'ら' || c == 'わ' || c == 'が' || c == 'ざ' || c == 'だ' || c == 'ば'
        || c == 'ぱ' || c == 'ヴ' {
        Some("a"@)
    } else if c == 'い' || c == 'き' || c == 'し' || c == 'ち' || c == 'に' || c == 'ひ' || c == 'み'
        || c == 'り' || c == 'ぎ' || c == 'じ' || c == 'ぢ' || c == 'び' || c == 'ぴ' {
        Some("i"@)
    } else if c == 'う' || c == 'く' || c == 'す' || c == 'つ' || c == 'ぬ' || c == 'ふ' || c == 'む'
        || c == 'ゆ' || c == 'る' || c == 'ぐ' || c == 'ず' || c == 'づ' || c == 'ぶ' || c == 'ぷ' {
        Some("u"@)
    } else if c == 'え' || c == 'け' || c == 'せ' || c == 'て' || c == 'ね' || c == 'へ' || c == 'め'
        || c == 'れ' || c == 'げ' || c == 'ぜ' || c == 'で' || c == 'べ' || c == 'ぺ' {
        Some("e"@)
    } else if c == 'お' || c == 'こ' || c == 'そ' || c == 'と' || c == 'の' || c == 'ほ' || c == 'も'
        || c == 'よ' || c == 'ろ' || c == 'ご' || c == 'ぞ' || c == 'ど' || c == 'ぼ' || c == 'ぽ' {
        Some("o"@)
    } else {
        None
    }
}

/// The vowel of a small kana (ぁ = a, ゃ = a, ..., ォ = o).
pub open spec fn spec_small_vowel(c: char) -> Option<Seq<char>> {
    if c == 'ぁ' || c == 'ャ' || c == 'ゃ' {
        Some("a"@)
    } else if c == 'ぃ' || c == 'ィ' {
        Some("i"@)
    } else if c == 'ぅ' || c == 'ュ' || c == 'ゅ' {
        Some("u"@)
    } else if c == 'ぇ' || c == 'ェ' {
        Some("e"@)
    } else if c == 'ぉ' || c == 'ョ' || c == 'ょ' {
        Some("o"@)
    } else {
        None
    }
}

/// Small y-kana ゃゅょャュョ.
pub open spec fn spec_is_y_small_raw(c: char) -> bool {
    c == '\u{3083}' || c == '\u{3085}' || c == '\u{3087}' || c == '\u{30E3}' || c == '\u{30E5}'
        || c == '\u{30E7}'
}

/// Katakana U+30A1..U+30F6 mapped to the hiragana 0x60 code points below;
/// every other char unchanged.
pub open spec fn spec_katakana_to_hiragana(c: char) -> char {
    if '\u{30A1}' <= c && c <= '\u{30F6}' {
        ((c as u32) - 0x60) as char
    } else {
        c
    }
}

/// Phonemes of one plain kana: consonant and vowel, or the vowel alone.
pub open spec fn spec_single_kana_phonemes(c: char) -> Seq<Seq<char>> {
    match (spec_consonant_of(c), spec_vowel_of(c)) {
        (Some(cons), Some(v)) => seq![cons, v],
        (None, Some(v)) => seq![v],
        _ => Seq::empty(),
    }
}

/// Phonemes of one mora written as kana.
pub open spec fn spec_mora_to_phonemes(kana: Seq<char>) -> Seq<Seq<char>> {
    let h = kana.map_values(|c: char| spec_katakana_to_hiragana(c));
    if h.len() == 1 {
        let c = h[0];
        if c == 'ー' {
            seq![":"@]
        } else if c == 'っ' {
            seq!["cl"@]
        } else if c == 'ん' {
            seq!["N"@]
        } else {
            spec_single_kana_phonemes(c)
        }
    } else if h.len() == 2 {
        match spec_consonant_of(h[0]) {
            None => Seq::empty(),
            Some(cons) => match spec_small_vowel(h[1]) {
                Some(v) => if spec_is_y_small_raw(h[1]) {
                    seq![cons, "y"@, v]
                } else {
                    seq![cons, v]
                },
                None => match spec_vowel_of(h[0]) {
                    Some(v) => seq![cons, v],
                    None => seq![cons, "u"@],
                },
            },
        }
    } else {
        Seq::empty()
    }
}

fn consonant_of(base: char) -> (r: Option<&'static str>)
    ensures
        opt_str_view(r) == spec_consonant_of(base),
{
    if base == 'か' || base == 'き' || base == 'く' || base == 'け' || base == 'こ' {
        Some("k")
    } else if base == 'が' || base == 'ぎ' || base == 'ぐ' || base == 'げ' || base == 'ご' {
        Some("g")
    } else if base == 'さ' || base == 'す' || base == 'せ' || base == 'そ' {
        Some("s")
    } else if base == 'し' {
        Some("sh")
    } else if base == 'ざ' || base == 'ず' || base == 'ぜ' || base == 'ぞ' {
        Some("z")
    } else if base == 'じ' {
        Some("j")
    } else if base == 'た' || base == 'て' || base == 'と' {
        Some("t")
    } else if base == 'ち' {
        Some("ch")
    } else if base == 'つ' {
        Some("ts")
    } else if base == 'だ' || base == 'で' || base == 'ど' {
        Some("d")
    } else if base == 'な' || base == 'に' || base == 'ぬ' || base == 'ね' || base == 'の' {
        Some("n")
    } else if base == 'は' || base == 'へ' || base == 'ほ' || base == 'ひ' {
        Some("h")
    } else if base == 'ふ' {
        Some("f")
    } else if base == 'ば' || base == 'び' || base == 'ぶ' || base == 'べ' || base == 'ぼ' {
        Some("b")
    } else if base == 'ぱ' || base == 'ぴ' || base == 'ぷ' || base == 'ぺ' || base == 'ぽ' {
        Some("p")
    } else if base == 'ま' || base == 'み' || base == 'む' || base == 'め' || base == 'も' {
        Some("m")
    } else if base == 'や' || base == 'ゆ' || base == 'よ' {
        Some("y")
    } else if base == 'ら' || base == 'り' || base == 'る' || base == 'れ' || base == 'ろ' {
        Some("r")
    } else if base == 'わ' {
        Some("w")
    } else if base == 'ヴ' {
        Some("v")
    } else {
        None
    }
}

fn vowel_of(c: char) -> (r: Option<&'static str>)
    ensures
        opt_str_view(r) == spec_vowel_of(c),
{
    if c == 'あ' || c == 'か' || c == 'さ' || c == 'た' || c == 'な' || c == 'は' || c == 'ま'
        || c == 'や' || c == 'ら' || c == 'わ' || c == 'が' || c == 'ざ' || c == 'だ' || c == 'ば'
        || c == 'ぱ' || c == 'ヴ' {
        Some("a")
    } else if c == 'い' || c == 'き' || c == 'し' || c == 'ち' || c == 'に' || c == 'ひ' || c == 'み'
        || c == 'り' || c == 'ぎ' || c == 'じ' || c == 'ぢ' || c == 'び' || c == 'ぴ' {
        Some("i")
    } else if c == 'う' || c == 'く' || c == 'す' || c == 'つ' || c == 'ぬ' || c == 'ふ' || c == 'む'
        || c == 'ゆ' || c == 'る' || c == 'ぐ' || c == 'ず' || c == 'づ' || c == 'ぶ' || c == 'ぷ' {
        Some("u")
    } else if c == 'え' || c == 'け' || c == 'せ' || c == 'て' || c == 'ね' || c == 'へ' || c == 'め'
        || c == 'れ' || c == 'げ' || c == 'ぜ' || c == 'で' || c == 'べ' || c == 'ぺ' {
        Some("e")
    } else if c == 'お' || c == 'こ' || c == 'そ' || c == 'と' || c == 'の' || c == 'ほ' || c == 'も'
        || c == 'よ' || c == 'ろ' || c == 'ご' || c == 'ぞ' || c == 'ど' || c == 'ぼ' || c == 'ぽ' {
        Some("o")
    } else {
        None
    }
}

fn small_vowel(c: char) -> (r: Option<&'static str>)
    ensures
        opt_str_view(r) == spec_small_vowel(c),
{
    if c == 'ぁ' || c == 'ャ' || c == 'ゃ' {
        Some("a")
    } else if c == 'ぃ' || c == 'ィ' {
        Some("i")
    } else if c == 'ぅ' || c == 'ュ' || c == 'ゅ' {
        Some("u")
    } else if c == 'ぇ' || c == 'ェ' {
        Some("e")
    } else if c == 'ぉ' || c == 'ョ' || c == 'ょ' {
        Some("o")
    } else {
        None
    }
}

fn is_y_small_raw(c: char) -> (r: bool)
    ensures
        r == spec_is_y_small_raw(c),
{
    c == '\u{3083}' || c == '\u{3085}' || c == '\u{3087}' || c == '\u{30E3}' || c == '\u{30E5}'
        || c == '\u{30E7}'
}

/// Katakana to hiragana for one char (for table lookup).
pub fn katakana_to_hiragana(c: char) -> (r: char)
    ensures
        r == spec_katakana_to_hiragana(c),
{
    if '\u{30A1}' <= c && c <= '\u{30F6}' {
        let v = (c as u32) - 0x60;
        assert(is_scalar_value(v));
        match char_from_u32(v) {
            Some(h) => h,
            None => c,
        }
    } else {
        c
    }
}

fn single_kana_phonemes(c: char) -> (r: Vec<String>)
    ensures
        strings_view(r@) == spec_single_kana_phonemes(c),
{
    let cons = consonant_of(c);
    let vow = vowel_of(c);
    let mut r: Vec<String> = Vec::new();
    match (cons, vow) {
        (Some(k), Some(v)) => {
            r.push(k.to_string());
            r.push(v.to_string());
        },
        (None, Some(v)) => {
            r.push(v.to_string());
        },
        _ => {},
    }
    assert(strings_view(r@) =~= spec_single_kana_phonemes(c));
    r
}

/// The phoneme sequence of one mora.
pub fn mora_to_phonemes(kana: &str) -> (r: Vec<String>)
    ensures
        strings_view(r@) == spec_mora_to_phonemes(kana@),
{
    let raw = chars_of(kana);
    let mut chars: Vec<char> = Vec::new();
    let mut i: usize = 0;
    while i < raw.len()
        invariant
            raw@ == kana@,
            i <= raw@.len(),
            chars@ =~= raw@.take(i as int).map_values(|c: char| spec_katakana_to_hiragana(c)),
        decreases raw.len() - i,
    {
        chars.push(katakana_to_hiragana(raw[i]));
        i += 1;
    }
    assert(raw@.take(raw@.len() as int) == raw@);
    let ghost h = kana@.map_values(|c: char| spec_katakana_to_hiragana(c));
    assert(chars@ == h);
    let mut r: Vec<String> = Vec::new();
    if chars.len() == 1 {
        let c = chars[0];
        if c == 'ー' {
            r.push(":".to_string());
        } else if c == 'っ' {
            r.push("cl".to_string());
        } else if c == 'ん' {
            r.push("N".to_string());
        } else {
            r = single_kana_phonemes(c);
        }
    } else if chars.len() == 2 {
        let base = chars[0];
        let attach = chars[1];
        match consonant_of(base) {
            None => {},
            Some(cons) => {
                match small_vowel(attach) {
                    Some(v) => {
                        if is_y_small_raw(attach) {
                            r.push(cons.to_string());
                            r.push("y".to_string());
                            r.push(v.to_string());
                        } else {
                            r.push(cons.to_string());
                            r.push(v.to_string());
                        }
                    },
                    None => {
                        r.push(cons.to_string());
                        match vowel_of(base) {
                            Some(v) => r.push(v.to_string()),
                            None => r.push("u".to_string()),
                        }
                    },
                }
            },
        }
    }
    assert(strings_view(r@) =~= spec_mora_to_phonemes(kana@));
    r
}

/// A one-kana mora reads as `p`.
pub open spec fn kana_reads(c: char, p: Seq<Seq<char>>) -> bool {
    spec_mora_to_phonemes(seq![c]) == p
}

proof fn lemma_k_row_phonemes()
    ensures
        kana_reads('か', seq!["k"@, "a"@]),
        kana_reads('カ', seq!["k"@, "a"@]),
        kana_reads('き', seq!["k"@, "i"@]),
        kana_reads('キ', seq!["k"@, "i"@]),
        kana_reads('く', seq!["k"@, "u"@]),
        kana_reads('ク', seq!["k"@, "u"@]),
        kana_reads('け', seq!["k"@, "e"@]),
        kana_reads('ケ', seq!["k"@, "e"@]),
        kana_reads('こ', seq!["k"@, "o"@]),
        kana_reads('コ', seq!["k"@, "o"@]),
{
}

proof fn lemma_g_row_phonemes()
    ensures
        kana_reads('が', seq!["g"@, "a"@]),
        kana_reads('ガ', seq!["g"@, "a"@]),
        kana_reads('ぎ', seq!["g"@, "i"@]),
        kana_reads('ギ', seq!["g"@, "i"@]),
        kana_reads('ぐ', seq!["g"@, "u"@]),
        kana_reads('グ', seq!["g"@, "u"@]),
        kana_reads('げ', seq!["g"@, "e"@]),
        kana_reads('ゲ', seq!["g"@, "e"@]),
        kana_reads('ご', seq!["g"@, "o"@]),
        kana_reads('ゴ', seq!["g"@, "o"@]),
{
}

proof fn lemma_s_row_phonemes()
    ensures
        kana_reads('さ', seq!["s"@, "a"@]),
        kana_reads('サ', seq!["s"@, "a"@]),
        kana_reads('す', seq!["s"@, "u"@]),
        kana_reads('ス', seq!["s"@, "u"@]),
        kana_reads('せ', seq!["s"@, "e"@]),
        kana_reads('セ', seq!["s"@, "e"@]),
        kana_reads('そ', seq!["s"@, "o"@]),
        kana_reads('ソ', seq!["s"@, "o"@]),
{
}

proof fn lemma_sh_row_phonemes()
    ensures
        kana_reads('し', seq!["sh"@, "i"@]),
        kana_reads('シ', seq!["sh"@, "i"@]),
{
}

proof fn lemma_z_row_phonemes()
    ensures
        kana_reads('ざ', seq!["z"@, "a"@]),
        kana_reads('ザ', seq!["z"@, "a"@]),
        kana_reads('ず', seq!["z"@, "u"@]),
        kana_reads('ズ', seq!["z"@, "u"@]),
        kana_reads('ぜ', seq!["z"@, "e"@]),
        kana_reads('ゼ', seq!["z"@, "e"@]),
        kana_reads('ぞ', seq!["z"@, "o"@]),
        kana_reads('ゾ', seq!["z"@, "o"@]),
{
}

proof fn lemma_j_row_phonemes()
    ensures
        kana_reads('じ', seq!["j"@, "i"@]),
        kana_reads('ジ', seq!["j"@, "i"@]),
{
}

proof fn lemma_t_row_phonemes()
    ensures
        kana_reads('た', seq!["t"@, "a"@]),
        kana_reads('タ', seq!["t"@, "a"@]),
        kana_reads('て', seq!["t"@, "e"@]),
        kana_reads('テ', seq!["t"@, "e"@]),
        kana_reads('と', seq!["t"@, "o"@]),
        kana_reads('ト', seq!["t"@, "o"@]),
{
}

proof fn lemma_ch_row_phonemes()
    ensures
        kana_reads('ち', seq!["ch"@, "i"@]),
        kana_reads('チ', seq!["ch"@, "i"@]),
{
}

proof fn lemma_ts_row_phonemes()
    ensures
        kana_reads('つ', seq!["ts"@, "u"@]),
        kana_reads('ツ', seq!["ts"@, "u"@]),
{
}

proof fn lemma_d_row_phonemes()
    ensures
        kana_reads('だ', seq!["d"@, "a"@]),
        kana_reads('ダ', seq!["d"@, "a"@]),
        kana_reads('で', seq!["d"@, "e"@]),
        kana_reads('デ', seq!["d"@, "e"@]),
        kana_reads('ど', seq!["d"@, "o"@]),
        kana_reads('ド', seq!["d"@, "o"@]),
{
}

proof fn lemma_n_row_phonemes()
    ensures
        kana_reads('な', seq!["n"@, "a"@]),
        kana_reads('ナ', seq!["n"@, "a"@]),
        kana_reads('に', seq!["n"@, "i"@]),
        kana_reads('ニ', seq!["n"@, "i"@]),
        kana_reads('ぬ', seq!["n"@, "u"@]),
        kana_reads('ヌ', seq!["n"@, "u"@]),
        kana_reads('ね', seq!["n"@, "e"@]),
        kana_reads('ネ', seq!["n"@, "e"@]),
        kana_reads('の', seq!["n"@, "o"@]),
        kana_reads('ノ', seq!["n"@, "o"@]),
{
}

proof fn lemma_h_row_phonemes()
    ensures
        kana_reads('は', seq!["h"@, "a"@]),
        kana_reads('ハ', seq!["h"@, "a"@]),
        kana_reads('ひ', seq!["h"@, "i"@]),
        kana_reads('ヒ', seq!["h"@, "i"@]),
        kana_reads('へ', seq!["h"@, "e"@]),
        kana_reads('ヘ', seq!["h"@, "e"@]),
        kana_reads('ほ', seq!["h"@, "o"@]),
        kana_reads('ホ', seq!["h"@, "o"@]),
{
}

proof fn lemma_f_row_phonemes()
    ensures
        kana_reads('ふ', seq!["f"@, "u"@]),
        kana_reads('フ', seq!["f"@, "u"@]),
{
}

proof fn lemma_b_row_phonemes()
    ensures
        kana_reads('ば', seq!["b"@, "a"@]),
        kana_reads('バ', seq!["b"@, "a"@]),
        kana_reads('び', seq!["b"@, "i"@]),
        kana_reads('ビ', seq!["b"@, "i"@]),
        kana_reads('ぶ', seq!["b"@, "u"@]),
        kana_reads('ブ', seq!["b"@, "u"@]),
        kana_reads('べ', seq!["b"@, "e"@]),
        kana_reads('ベ', seq!["b"@, "e"@]),
        kana_reads('ぼ', seq!["b"@, "o"@]),
        kana_reads('ボ', seq!["b"@, "o"@]),
{
}

proof fn lemma_p_row_phonemes()
    ensures
        kana_reads('ぱ', seq!["p"@, "a"@]),
        kana_reads('パ', seq!["p"@, "a"@]),
        kana_reads('ぴ', seq!["p"@, "i"@]),
        kana_reads('ピ', seq!["p"@, "i"@]),
        kana_reads('ぷ', seq!["p"@, "u"@]),
        kana_reads('プ', seq!["p"@, "u"@]),
        kana_reads('ぺ', seq!["p"@, "e"@]),
        kana_reads('ペ', seq!["p"@, "e"@]),
        kana_reads('ぽ', seq!["p"@, "o"@]),
        kana_reads('ポ', seq!["p"@, "o"@]),
{
}

proof fn lemma_m_row_phonemes()
    ensures
        kana_reads('ま', seq!["m"@, "a"@]),
        kana_reads('マ', seq!["m"@, "a"@]),
        kana_reads('み', seq!["m"@, "i"@]),
        kana_reads('ミ', seq!["m"@, "i"@]),
        kana_reads('む', seq!["m"@, "u"@]),
        kana_reads('ム', seq!["m"@, "u"@]),
        kana_reads('め', seq!["m"@, "e"@]),
        kana_reads('メ', seq!["m"@, "e"@]),
        kana_reads('も', seq!["m"@, "o"@]),
        kana_reads('モ', seq!["m"@, "o"@]),
{
}

proof fn lemma_y_row_phonemes()
    ensures
        kana_reads('や', seq!["y"@, "a"@]),
        kana_reads('ヤ', seq!["y"@, "a"@]),
        kana_reads('ゆ', seq!["y"@, "u"@]),
        kana_reads('ユ', seq!["y"@, "u"@]),
        kana_reads('よ', seq!["y"@, "o"@]),
        kana_reads('ヨ', seq!["y"@, "o"@]),
{
}

proof fn lemma_r_row_phonemes()
    ensures
        kana_reads('ら', seq!["r"@, "a"@]),
        kana_reads('ラ', seq!["r"@, "a"@]),
        kana_reads('り', seq!["r"@, "i"@]),
        kana_reads('リ', seq!["r"@, "i"@]),
        kana_reads('る', seq!["r"@, "u"@]),
        kana_reads('ル', seq!["r"@, "u"@]),
        kana_reads('れ', seq!["r"@, "e"@]),
        kana_reads('レ', seq!["r"@, "e"@]),
        kana_reads('ろ', seq!["r"@, "o"@]),
        kana_reads('ロ', seq!["r"@, "o"@]),
{
}

proof fn lemma_w_row_phonemes()
    ensures
        kana_reads('わ', seq!["w"@, "a"@]),
        kana_reads('ワ', seq!["w"@, "a"@]),
{
}

proof fn lemma_vowel_phonemes()
    ensures
        kana_reads('あ', seq!["a"@]),
        kana_reads('ア', seq!["a"@]),
        kana_reads('い', seq!["i"@]),
        kana_reads('イ', seq!["i"@]),
        kana_reads('う', seq!["u"@]),
        kana_reads('ウ', seq!["u"@]),
        kana_reads('え', seq!["e"@]),
        kana_reads('エ', seq!["e"@]),
        kana_reads('お', seq!["o"@]),
        kana_reads('オ', seq!["o"@]),
{
}

/// The phonemes of each plain kana, hiragana and katakana alike, by the
/// rows of the kana table: the vowels あいうえお read a, i, u, e, o; the
/// k, g, n, b, p, m and r rows read their consonant and vowel (ま = m a,
/// マ = m a); さすせそ and ざずぜぞ read s and z (し = sh i, じ = j i);
/// たてと and だでど read t and d (ち = ch i, つ = ts u); はひへほ read h (ふ =
/// f u); やゆよ read y a, y u, y o; わ reads w a.
pub proof fn lemma_kana_table_phonemes()
    ensures
        kana_reads('か', seq!["k"@, "a"@]),
        kana_reads('カ', seq!["k"@, "a"@]),
        kana_reads('き', seq!["k"@, "i"@]),
        kana_reads('キ', seq!["k"@, "i"@]),
        kana_reads('く', seq!["k"@, "u"@]),
        kana_reads('ク', seq!["k"@, "u"@]),
        kana_reads('け', seq!["k"@, "e"@]),
        kana_reads('ケ', seq!["k"@, "e"@]),
        kana_reads('こ', seq!["k"@, "o"@]),
        kana_reads('コ', seq!["k"@, "o"@]),
        kana_reads('が', seq!["g"@, "a"@]),
        kana_reads('ガ', seq!["g"@, "a"@]),
        kana_reads('ぎ', seq!["g"@, "i"@]),
        kana_reads('ギ', seq!["g"@, "i"@]),
        kana_reads('ぐ', seq!["g"@, "u"@]),
        kana_reads('グ', seq!["g"@, "u"@]),
        kana_reads('げ', seq!["g"@, "e"@]),
        kana_reads('ゲ', seq!["g"@, "e"@]),
        kana_reads('ご', seq!["g"@, "o"@]),
        kana_reads('ゴ', seq!["g"@, "o"@]),
        kana_reads('さ', seq!["s"@, "a"@]),
        kana_reads('サ', seq!["s"@, "a"@]),
        kana_reads('す', seq!["s"@, "u"@]),
        kana_reads('ス', seq!["s"@, "u"@]),
        kana_reads('せ', seq!["s"@, "e"@]),
        kana_reads('セ', seq!["s"@, "e"@]),
        kana_reads('そ', seq!["s"@, "o"@]),
        kana_reads('ソ', seq!["s"@, "o"@]),
        kana_reads('し', seq!["sh"@, "i"@]),
        kana_reads('シ', seq!["sh"@, "i"@]),
        kana_reads('ざ', seq!["z"@, "a"@]),
        kana_reads('ザ', seq!["z"@, "a"@]),
        kana_reads('ず', seq!["z"@, "u"@]),
        kana_reads('ズ', seq!["z"@, "u"@]),
        kana_reads('ぜ', seq!["z"@, "e"@]),
        kana_reads('ゼ', seq!["z"@, "e"@]),
        kana_reads('ぞ', seq!["z"@, "o"@]),
        kana_reads('ゾ', seq!["z"@, "o"@]),
        kana_reads('じ', seq!["j"@, "i"@]),
        kana_reads('ジ', seq!["j"@, "i"@]),
        kana_reads('た', seq!["t"@, "a"@]),
        kana_reads('タ', seq!["t"@, "a"@]),
        kana_reads('て', seq!["t"@, "e"@]),
        kana_reads('テ', seq!["t"@, "e"@]),
        kana_reads('と', seq!["t"@, "o"@]),
        kana_reads('ト', seq!["t"@, "o"@]),
        kana_reads('ち', seq!["ch"@, "i"@]),
        kana_reads('チ', seq!["ch"@, "i"@]),
        kana_reads('つ', seq!["ts"@, "u"@]),
        kana_reads('ツ', seq!["ts"@, "u"@]),
        kana_reads('だ', seq!["d"@, "a"@]),
        kana_reads('ダ', seq!["d"@, "a"@]),
        kana_reads('で', seq!["d"@, "e"@]),
        kana_reads('デ', seq!["d"@, "e"@]),
        kana_reads('ど', seq!["d"@, "o"@]),
        kana_reads('ド', seq!["d"@, "o"@]),
        kana_reads('な', seq!["n"@, "a"@]),
        kana_reads('ナ', seq!["n"@, "a"@]),
        kana_reads('に', seq!["n"@, "i"@]),
        kana_reads('ニ', seq!["n"@, "i"@]),
        kana_reads('ぬ', seq!["n"@, "u"@]),
        kana_reads('ヌ', seq!["n"@, "u"@]),
        kana_reads('ね', seq!["n"@, "e"@]),
        kana_reads('ネ', seq!["n"@, "e"@]),
        kana_reads('の', seq!["n"@, "o"@]),
        kana_reads('ノ', seq!["n"@, "o"@]),
        kana_reads('は', seq!["h"@, "a"@]),
        kana_reads('ハ', seq!["h"@, "a"@]),
        kana_reads('ひ', seq!["h"@, "i"@]),
        kana_reads('ヒ', seq!["h"@, "i"@]),
        kana_reads('へ', seq!["h"@, "e"@]),
        kana_reads('ヘ', seq!["h"@, "e"@]),
        kana_reads('ほ', seq!["h"@, "o"@]),
        kana_reads('ホ', seq!["h"@, "o"@]),
        kana_reads('ふ', seq!["f"@, "u"@]),
        kana_reads('フ', seq!["f"@, "u"@]),
        kana_reads('ば', seq!["b"@, "a"@]),
        kana_reads('バ', seq!["b"@, "a"@]),
        kana_reads('び', seq!["b"@, "i"@]),
        kana_reads('ビ', seq!["b"@, "i"@]),
        kana_reads('ぶ', seq!["b"@, "u"@]),
        kana_reads('ブ', seq!["b"@, "u"@]),
        kana_reads('べ', seq!["b"@, "e"@]),
        kana_reads('ベ', seq!["b"@, "e"@]),
        kana_reads('ぼ', seq!["b"@, "o"@]),
        kana_reads('ボ', seq!["b"@, "o"@]),
        kana_reads('ぱ', seq!["p"@, "a"@]),
        kana_reads('パ', seq!["p"@, "a"@]),
        kana_reads('ぴ', seq!["p"@, "i"@]),
        kana_reads('ピ', seq!["p"@, "i"@]),
        kana_reads('ぷ', seq!["p"@, "u"@]),
        kana_reads('プ', seq!["p"@, "u"@]),
        kana_reads('ぺ', seq!["p"@, "e"@]),
        kana_reads('ペ', seq!["p"@, "e"@]),
        kana_reads('ぽ', seq!["p"@, "o"@]),
        kana_reads('ポ', seq!["p"@, "o"@]),
        kana_reads('ま', seq!["m"@, "a"@]),
        kana_reads('マ', seq!["m"@, "a"@]),
        kana_reads('み', seq!["m"@, "i"@]),
        kana_reads('ミ', seq!["m"@, "i"@]),
        kana_reads('む', seq!["m"@, "u"@]),
        kana_reads('ム', seq!["m"@, "u"@]),
        kana_reads('め', seq!["m"@, "e"@]),
        kana_reads('メ', seq!["m"@, "e"@]),
        kana_reads('も', seq!["m"@, "o"@]),
        kana_reads('モ', seq!["m"@, "o"@]),
        kana_reads('や', seq!["y"@, "a"@]),
        kana_reads('ヤ', seq!["y"@, "a"@]),
        kana_reads('ゆ', seq!["y"@, "u"@]),
        kana_reads('ユ', seq!["y"@, "u"@]),
        kana_reads('よ', seq!["y"@, "o"@]),
        kana_reads('ヨ', seq!["y"@, "o"@]),
        kana_reads('ら', seq!["r"@, "a"@]),
        kana_reads('ラ', seq!["r"@, "a"@]),
        kana_reads('り', seq!["r"@, "i"@]),
        kana_reads('リ', seq!["r"@, "i"@]),
        kana_reads('る', seq!["r"@, "u"@]),
        kana_reads('ル', seq!["r"@, "u"@]),
        kana_reads('れ', seq!["r"@, "e"@]),
        kana_reads('レ', seq!["r"@, "e"@]),
        kana_reads('ろ', seq!["r"@, "o"@]),
        kana_reads('ロ', seq!["r"@, "o"@]),
        kana_reads('わ', seq!["w"@, "a"@]),
        kana_reads('ワ', seq!["w"@, "a"@]),
        kana_reads('あ', seq!["a"@]),
        kana_reads('ア', seq!["a"@]),
        kana_reads('い', seq!["i"@]),
        kana_reads('イ', seq!["i"@]),
        kana_reads('う', seq!["u"@]),
        kana_reads('ウ', seq!["u"@]),
        kana_reads('え', seq!["e"@]),
        kana_reads('エ', seq!["e"@]),
        kana_reads('お', seq!["o"@]),
        kana_reads('オ', seq!["o"@]),
{
    lemma_k_row_phonemes();
    lemma_g_row_phonemes();
    lemma_s_row_phonemes();
    lemma_sh_row_phonemes();
    lemma_z_row_phonemes();
    lemma_j_row_phonemes();
    lemma_t_row_phonemes();
    lemma_ch_row_phonemes();
    lemma_ts_row_phonemes();
    lemma_d_row_phonemes();
    lemma_n_row_phonemes();
    lemma_h_row_phonemes();
    lemma_f_row_phonemes();
    lemma_b_row_phonemes();
    lemma_p_row_phonemes();
    lemma_m_row_phonemes();
    lemma_y_row_phonemes();
    lemma_r_row_phonemes();
    lemma_w_row_phonemes();
    lemma_vowel_phonemes();
}

/// A mora reads as `p`.
pub open spec fn mora_reads(kana: Seq<char>, p: Seq<Seq<char>>) -> bool {
    spec_mora_to_phonemes(kana) == p
}

/// The phonemes of youon and foreign combinations and of the special
/// moras: a kana of the i column with small ゃゅょ (or ャュョ) reads its
/// consonant, y and the small kana's vowel (きゃ = k y a, しょ = sh y o); ふ
/// with a small vowel reads f and that vowel (ファ = f a); てぃ and でぃ read t i
/// and d i; っ reads cl, ん reads N and ー reads the long mark `:`.
pub proof fn lemma_combined_mora_phonemes()
    ensures
        mora_reads(seq!['き', 'ゃ'], seq!["k"@, "y"@, "a"@]),
        mora_reads(seq!['キ', 'ャ'], seq!["k"@, "y"@, "a"@]),
        mora_reads(seq!['き', 'ゅ'], seq!["k"@, "y"@, "u"@]),
        mora_reads(seq!['キ', 'ュ'], seq!["k"@, "y"@, "u"@]),
        mora_reads(seq!['き', 'ょ'], seq!["k"@, "y"@, "o"@]),
        mora_reads(seq!['キ', 'ョ'], seq!["k"@, "y"@, "o"@]),
        mora_reads(seq!['し', 'ゃ'], seq!["sh"@, "y"@, "a"@]),
        mora_reads(seq!['シ', 'ャ'], seq!["sh"@, "y"@, "a"@]),
        mora_reads(seq!['し', 'ゅ'], seq!["sh"@, "y"@, "u"@]),
        mora_reads(seq!['シ', 'ュ'], seq!["sh"@, "y"@, "u"@]),
        mora_reads(seq!['し', 'ょ'], seq!["sh"@, "y"@, "o"@]),
        mora_reads(seq!['シ', 'ョ'], seq!["sh"@, "y"@, "o"@]),
        mora_reads(seq!['ち', 'ゃ'], seq!["ch"@, "y"@, "a"@]),
        mora_reads(seq!['チ', 'ャ'], seq!["ch"@, "y"@, "a"@]),
        mora_reads(seq!['ち', 'ゅ'], seq!["ch"@, "y"@, "u"@]),
        mora_reads(seq!['チ', 'ュ'], seq!["ch"@, "y"@, "u"@]),
        mora_reads(seq!['ち', 'ょ'], seq!["ch"@, "y"@, "o"@]),
        mora_reads(seq!['チ', 'ョ'], seq!["ch"@, "y"@, "o"@]),
        mora_reads(seq!['に', 'ゃ'], seq!["n"@, "y"@, "a"@]),
        mora_reads(seq!['ニ', 'ャ'], seq!["n"@, "y"@, "a"@]),
        mora_reads(seq!['に', 'ゅ'], seq!["n"@, "y"@, "u"@]),
        mora_reads(seq!['ニ', 'ュ'], seq!["n"@, "y"@, "u"@]),
        mora_reads(seq!['に', 'ょ'], seq!["n"@, "y"@, "o"@]),
        mora_reads(seq!['ニ', 'ョ'], seq!["n"@, "y"@, "o"@]),
        mora_reads(seq!['ひ', 'ゃ'], seq!["h"@, "y"@, "a"@]),
        mora_reads(seq!['ヒ', 'ャ'], seq!["h"@, "y"@, "a"@]),
        mora_reads(seq!['ひ', 'ゅ'], seq!["h"@, "y"@, "u"@]),
        mora_reads(seq!['ヒ', 'ュ'], seq!["h"@, "y"@, "u"@]),
        mora_reads(seq!['ひ', 'ょ'], seq!["h"@, "y"@, "o"@]),
        mora_reads(seq!['ヒ', 'ョ'], seq!["h"@, "y"@, "o"@]),
        mora_reads(seq!['み', 'ゃ'], seq!["m"@, "y"@, "a"@]),
        mora_reads(seq!['ミ', 'ャ'], seq!["m"@, "y"@, "a"@]),
        mora_reads(seq!['み', 'ゅ'], seq!["m"@, "y"@, "u"@]),
        mora_reads(seq!['ミ', 'ュ'], seq!["m"@, "y"@, "u"@]),
        mora_reads(seq!['み', 'ょ'], seq!["m"@, "y"@, "o"@]),
        mora_reads(seq!['ミ', 'ョ'], seq!["m"@, "y"@, "o"@]),
        mora_reads(seq!['り', 'ゃ'], seq!["r"@, "y"@, "a"@]),
        mora_reads(seq!['リ', 'ャ'], seq!["r"@, "y"@, "a"@]),
        mora_reads(seq!['り', 'ゅ'], seq!["r"@, "y"@, "u"@]),
        mora_reads(seq!['リ', 'ュ'], seq!["r"@, "y"@, "u"@]),
        mora_reads(seq!['り', 'ょ'], seq!["r"@, "y"@, "o"@]),
        mora_reads(seq!['リ', 'ョ'], seq!["r"@, "y"@, "o"@]),
        mora_reads(seq!['ぎ', 'ゃ'], seq!["g"@, "y"@, "a"@]),
        mora_reads(seq!['ギ', 'ャ'], seq!["g"@, "y"@, "a"@]),
        mora_reads(seq!['ぎ', 'ゅ'], seq!["g"@, "y"@, "u"@]),
        mora_reads(seq!['ギ', 'ュ'], seq!["g"@, "y"@, "u"@]),
        mora_reads(seq!['ぎ', 'ょ'], seq!["g"@, "y"@, "o"@]),
        mora_reads(seq!['ギ', 'ョ'], seq!["g"@, "y"@, "o"@]),
        mora_reads(seq!['じ', 'ゃ'], seq!["j"@, "y"@, "a"@]),
        mora_reads(seq!['ジ', 'ャ'], seq!["j"@, "y"@, "a"@]),
        mora_reads(seq!['じ', 'ゅ'], seq!["j"@, "y"@, "u"@]),
        mora_reads(seq!['ジ', 'ュ'], seq!["j"@, "y"@, "u"@]),
        mora_reads(seq!['じ', 'ょ'], seq!["j"@, "y"@, "o"@]),
        mora_reads(seq!['ジ', 'ョ'], seq!["j"@, "y"@, "o"@]),
        mora_reads(seq!['び', 'ゃ'], seq!["b"@, "y"@, "a"@]),
        mora_reads(seq!['ビ', 'ャ'], seq!["b"@, "y"@, "a"@]),
        mora_reads(seq!['び', 'ゅ'], seq!["b"@, "y"@, "u"@]),
        mora_reads(seq!['ビ', 'ュ'], seq!["b"@, "y"@, "u"@]),
        mora_reads(seq!['び', 'ょ'], seq!["b"@, "y"@, "o"@]),
        mora_reads(seq!['ビ', 'ョ'], seq!["b"@, "y"@, "o"@]),
        mora_reads(seq!['ぴ', 'ゃ'], seq!["p"@, "y"@, "a"@]),
        mora_reads(seq!['ピ', 'ャ'], seq!["p"@, "y"@, "a"@]),
        mora_reads(seq!['ぴ', 'ゅ'], seq!["p"@, "y"@, "u"@]),
        mora_reads(seq!['ピ', 'ュ'], seq!["p"@, "y"@, "u"@]),
        mora_reads(seq!['ぴ', 'ょ'], seq!["p"@, "y"@, "o"@]),
        mora_reads(seq!['ピ', 'ョ'], seq!["p"@, "y"@, "o"@]),
        mora_reads(seq!['ふ', 'ぁ'], seq!["f"@, "a"@]),
        mora_reads(seq!['フ', 'ァ'], seq!["f"@, "a"@]),
        mora_reads(seq!['ふ', 'ぃ'], seq!["f"@, "i"@]),
        mora_reads(seq!['フ', 'ィ'], seq!["f"@, "i"@]),
        mora_reads(seq!['ふ', 'ぇ'], seq!["f"@, "e"@]),
        mora_reads(seq!['フ', 'ェ'], seq!["f"@, "e"@]),
        mora_reads(seq!['ふ', 'ぉ'], seq!["f"@, "o"@]),
        mora_reads(seq!['フ', 'ォ'], seq!["f"@, "o"@]),
        mora_reads(seq!['て', 'ぃ'], seq!["t"@, "i"@]),
        mora_reads(seq!['テ', 'ィ'], seq!["t"@, "i"@]),
        mora_reads(seq!['で', 'ぃ'], seq!["d"@, "i"@]),
        mora_reads(seq!['デ', 'ィ'], seq!["d"@, "i"@]),
        mora_reads(seq!['っ'], seq!["cl"@]),
        mora_reads(seq!['ッ'], seq!["cl"@]),
        mora_reads(seq!['ん'], seq!["N"@]),
        mora_reads(seq!['ン'], seq!["N"@]),
        mora_reads(seq!['ー'], seq![":"@]),
{
}

} // verus!
