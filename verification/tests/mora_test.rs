use pitch_analyzer::japanese::mora::{is_kana_char, parse_kana_moras};

fn kanas(text: &str) -> Vec<String> {
    parse_kana_moras(text).into_iter().map(|m| m.kana).collect()
}

#[test]
fn test_yoon_one_mora() {
    assert_eq!(kanas("きゃ"), vec!["きゃ"]);
    assert_eq!(kanas("キョ"), vec!["キョ"]);
    assert_eq!(kanas("しゃししゅしょ"), vec!["しゃ", "し", "しゅ", "しょ"]);
}

#[test]
fn test_chionpu_own_mora() {
    assert_eq!(kanas("スーパー"), vec!["ス", "ー", "パ", "ー"]);
    assert_eq!(kanas("りー"), vec!["り", "ー"]);
}

#[test]
fn test_sokuon_and_hatsuon() {
    assert_eq!(kanas("がっこう"), vec!["が", "っ", "こ", "う"]);
    assert_eq!(kanas("さんぽ"), vec!["さ", "ん", "ぽ"]);
}

#[test]
fn test_foreign_combinations() {
    assert_eq!(kanas("ファティシェチェウィ"), vec!["ファ", "ティ", "シェ", "チェ", "ウィ"]);
}

#[test]
fn test_non_kana_skipped() {
    assert_eq!(kanas("砕いた。"), vec!["い", "た"]);
    assert_eq!(kanas("位に"), vec!["に"]);
}

#[test]
fn test_char_spans() {
    let moras = parse_kana_moras("きゃっと");
    assert_eq!(moras.len(), 3);
    assert_eq!((moras[0].char_start, moras[0].char_end), (0, 2));
    assert_eq!((moras[1].char_start, moras[1].char_end), (2, 3));
    assert_eq!((moras[2].char_start, moras[2].char_end), (3, 4));
}

#[test]
fn sokuon_takes_no_small_kana() {
    // っ never absorbs the small kana after it.
    assert_eq!(kanas("っゃ"), vec!["っ", "ゃ"]);
}

#[test]
fn kana_ranges_cover_both_scripts() {
    assert!(is_kana_char('\u{3041}'));
    assert!(is_kana_char('\u{30FF}'));
    assert!(!is_kana_char('\u{3040}'));
    assert!(!is_kana_char('愛'));
    assert!(kanas("").is_empty());
}

#[test]
fn moras_hold_exactly_the_kana() {
    let text = "きゃっと!スー";
    let chars: Vec<char> = text.chars().collect();
    let moras = parse_kana_moras(text);
    for (j, c) in chars.iter().enumerate() {
        let covered = moras.iter().any(|m| m.char_start <= j && j < m.char_end);
        assert_eq!(covered, is_kana_char(*c), "char {}", j);
    }
    // The one two-char mora: き followed by small ゃ.
    let two: Vec<&str> =
        moras.iter().filter(|m| m.char_end == m.char_start + 2).map(|m| m.kana.as_str()).collect();
    assert_eq!(two, vec!["きゃ"]);
}
