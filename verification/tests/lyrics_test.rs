use pitch_analyzer::lyrics::{
    is_kanji_char, label_runs, remove_short_label_runs, token_weight_tenths, tokenize,
    tokenize_core,
};

#[test]
fn test_tokenize_mixed() {
    let toks = tokenize("Hello 世界 こんにちは!");
    assert!(toks.iter().any(|t| t == "Hello"));
    assert!(toks.iter().any(|t| t == "世"));
    assert!(toks.iter().any(|t| t == "界"));
    assert!(toks.iter().any(|t| t == "こ"));
}

#[test]
fn test_japanese_attach_char_merge() {
    let toks = tokenize("きゃりーぱみゅぱみゅ");
    assert_eq!(
        toks,
        vec!["きゃ", "りー", "ぱ", "みゅ", "ぱ", "みゅ"],
        "small kana and chōonpu merge into previous display token: {:?}",
        toks
    );
    let toks2 = tokenize("AーB");
    assert_ne!(toks2.first().map(|s| s.as_str()), Some("Aー"));
}

#[test]
fn test_youon_codepoints() {
    assert_eq!(tokenize("きょ"), vec!["きょ"], "き+ょ must merge (U+3087)");
    assert_eq!(tokenize("キャ"), vec!["キャ"]);
    assert_eq!(tokenize("キョ"), vec!["キョ"], "キ+ョ must merge (U+30E7)");
    assert_eq!(tokenize("しゃ"), vec!["しゃ"]);
    assert_eq!(tokenize("しゅ"), vec!["しゅ"], "しゅ (U+3085)");
    assert_eq!(tokenize("てや"), vec!["て", "や"], "や (U+3084) is a normal kana");
    assert_eq!(tokenize("テヤ"), vec!["テ", "ヤ"], "ヤ (U+30E4) is a normal katakana");
    assert_eq!(tokenize("や"), vec!["や"]);
    assert_eq!(tokenize("ヤ"), vec!["ヤ"]);
}

/// Weights in tenths of a mora: 心 = 1.8, kana = 1, ー = 1, punctuation = 0,
/// Latin words = their vowel runs.
#[test]
fn test_token_weight_heuristics() {
    assert_eq!(token_weight_tenths("心"), 18);
    assert_eq!(token_weight_tenths("きゃ"), 10);
    assert_eq!(token_weight_tenths("スーパー"), 40, "ス・ー・パ・ー = 4 mora");
    assert_eq!(token_weight_tenths("りー"), 20);
    assert_eq!(token_weight_tenths("hello"), 20, "he-llo = 2 syllables");
    assert_eq!(token_weight_tenths("through"), 10);
    assert_eq!(token_weight_tenths("魔法"), 36);
    assert_eq!(token_weight_tenths("がっこう"), 40, "が/っ/こ/う = 4");
    assert_eq!(token_weight_tenths("た。"), 10, "punctuation must be 0 mora");
    assert_eq!(token_weight_tenths("あ!"), 10);
}

#[test]
fn token_weight_edges() {
    // An empty token weighs one mora; so does pure punctuation.
    assert_eq!(token_weight_tenths(""), 10);
    assert_eq!(token_weight_tenths("!?"), 10);
    // Upper-case Latin words are counted in lower case.
    assert_eq!(token_weight_tenths("HELLO"), 20);
    assert_eq!(token_weight_tenths("rhythm"), 10);
    // Other letters and digits weigh one each.
    assert_eq!(token_weight_tenths("ΩΩ"), 20);
    assert_eq!(token_weight_tenths("１２"), 20);
}

#[test]
fn tokenize_spans_cover_source_chars() {
    let toks = tokenize_core("rock'n-roll 愛、");
    assert_eq!(toks.len(), 2);
    assert_eq!(toks[0].text, "rock'n-roll");
    assert_eq!((toks[0].char_start, toks[0].char_end), (0, 11));
    // Punctuation joins the token before it.
    assert_eq!(toks[1].text, "愛、");
    assert_eq!((toks[1].char_start, toks[1].char_end), (12, 14));
}

#[test]
fn tokenize_white_space_separates() {
    assert_eq!(tokenize("a\u{3000}b\tc"), vec!["a", "b", "c"]);
    assert!(tokenize("   ").is_empty());
    // Leading punctuation has nothing to join.
    assert_eq!(tokenize("「愛"), vec!["「", "愛"]);
}

#[test]
fn kanji_ranges() {
    assert!(is_kanji_char('愛'));
    assert!(is_kanji_char('\u{3400}'));
    assert!(!is_kanji_char('あ'));
}

#[test]
fn label_runs_tile_the_frames() {
    let runs = label_runs(&[1, 1, 2, 2, 2, 1]);
    assert_eq!(runs, vec![(0, 2, 1), (2, 5, 2), (5, 6, 1)]);
    assert!(label_runs(&[]).is_empty());
}

#[test]
fn short_runs_take_neighbour_labels() {
    // A short run between equal neighbours takes their label.
    let cleaned = remove_short_label_runs(&[5, 5, 5, 5, 5, 7, 7, 5, 5, 5, 5, 5]);
    assert_eq!(cleaned, vec![5; 12]);
    // Between different neighbours, the longer one wins.
    let cleaned = remove_short_label_runs(&[1, 1, 1, 1, 1, 1, 9, 2, 2, 2, 2, 2]);
    assert_eq!(cleaned[6], 1);
    // A lone short run keeps its label.
    assert_eq!(remove_short_label_runs(&[3, 3]), vec![3, 3]);
}

#[test]
fn tokens_rebuild_the_text_without_white_space() {
    let text = "Hello 世界\u{3000}きゃりー, don't\tstop!";
    let toks = tokenize(text);
    assert!(toks.iter().all(|t| !t.is_empty()));
    let rebuilt: String = toks.concat();
    let expected: String = text.chars().filter(|c| !c.is_whitespace()).collect();
    assert_eq!(rebuilt, expected);
    // U+3000 and a no-break space separate tokens like a space does.
    assert_eq!(tokenize("a\u{3000}b\u{a0}c"), vec!["a", "b", "c"]);
}
