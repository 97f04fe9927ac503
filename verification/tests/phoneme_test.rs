use pitch_analyzer::japanese::mora;
use pitch_analyzer::japanese::phoneme::{katakana_to_hiragana, mora_to_phonemes};

#[test]
fn test_basic_moras() {
    assert_eq!(mora_to_phonemes("か"), vec!["k", "a"]);
    assert_eq!(mora_to_phonemes("し"), vec!["sh", "i"]);
    assert_eq!(mora_to_phonemes("ん"), vec!["N"]);
    assert_eq!(mora_to_phonemes("っ"), vec!["cl"]);
    assert_eq!(mora_to_phonemes("ー"), vec![":"]);
}

#[test]
fn test_yoon_and_foreign() {
    assert_eq!(mora_to_phonemes("きゃ"), vec!["k", "y", "a"]);
    assert_eq!(mora_to_phonemes("しゃ"), vec!["sh", "y", "a"]);
    assert_eq!(mora_to_phonemes("ファ"), vec!["f", "a"]);
    assert_eq!(mora_to_phonemes("ティ"), vec!["t", "i"]);
    assert_eq!(mora_to_phonemes("シェ"), vec!["sh", "e"]);
}

#[test]
fn test_mora_sequence() {
    let seq: Vec<String> = mora::parse_kana_moras("きゃっと")
        .iter()
        .flat_map(|m| mora_to_phonemes(&m.kana))
        .collect();
    assert_eq!(seq, vec!["k", "y", "a", "cl", "t", "o"]);
}

#[test]
fn katakana_char_becomes_hiragana() {
    assert_eq!(katakana_to_hiragana('カ'), 'か');
    assert_eq!(katakana_to_hiragana('ヴ'), 'ゔ');
    assert_eq!(katakana_to_hiragana('ー'), 'ー');
    assert_eq!(katakana_to_hiragana('a'), 'a');
}

#[test]
fn unknown_kana_has_no_phonemes() {
    assert!(mora_to_phonemes("愛").is_empty());
    assert!(mora_to_phonemes("").is_empty());
}
