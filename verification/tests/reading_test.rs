use pitch_analyzer::japanese::layers::{line_reading_spans, mora_units, token_reading_span_ids};
use pitch_analyzer::japanese::reading::{
    apply_reading_overrides, parse_ruby_text, ruby_display_offset, ruby_overrides,
    JapaneseReadingProvider, KanaOnlyProvider, ReadingConfidence, ReadingOverride,
};
use pitch_analyzer::japanese::layers::{line_layers, spans_or_kana_only};
use pitch_analyzer::japanese::mora::parse_kana_moras;
use pitch_analyzer::lrc::parse_lrc_lines;
use pitch_analyzer::japanese::unidic::{
    katakana_to_hiragana, unidic_reading_spans, LinderaUnidicProvider, UnidicToken,
};

#[test]
fn ruby_parser_uses_display_coordinates_and_keeps_literal_parentheses() {
    let parsed = parse_ruby_text("冷(つめ)たく微笑(ほほえ)んだ").expect("ruby parse");
    assert_eq!(parsed.display_text, "冷たく微笑んだ");
    assert_eq!(parsed.annotations.len(), 2);
    assert_eq!(parsed.annotations[0].surface, "冷");
    assert_eq!(parsed.annotations[0].reading, "つめ");
    assert_eq!(
        (parsed.annotations[0].display_start, parsed.annotations[0].display_end),
        (0, 1)
    );
    assert_eq!(parsed.annotations[1].surface, "微笑");
    assert_eq!(parsed.annotations[1].reading, "ほほえ");
    assert_eq!(
        (parsed.annotations[1].display_start, parsed.annotations[1].display_end),
        (3, 5)
    );

    for text in ["(コーラス)", "（笑）", "(yeah)", "愛(", "愛()", "愛(あい", "愛(ai)"] {
        let parsed = parse_ruby_text(text).expect("malformed ruby must be safe");
        assert!(parsed.annotations.is_empty(), "literal text was misclassified: {text}");
    }
    let escaped = parse_ruby_text(r"愛\(あい\)").expect("escaped ruby");
    assert_eq!(escaped.display_text, "愛(あい)");
    assert!(escaped.annotations.is_empty());
}

#[test]
fn ruby_surface_is_the_display_slice() {
    let parsed = parse_ruby_text("君(きみ)と運命(さだめ)").unwrap();
    let display: Vec<char> = parsed.display_text.chars().collect();
    for a in &parsed.annotations {
        let slice: String = display[a.display_start..a.display_end].iter().collect();
        assert_eq!(slice, a.surface);
        let raw: String = parsed.raw_text.chars().skip(a.raw_start).take(a.surface.chars().count()).collect();
        assert_eq!(raw, a.surface);
    }
}

#[test]
fn ruby_offsets_map_raw_to_display() {
    let parsed = parse_ruby_text("冷(つめ)たく").unwrap();
    // Inside the annotation: the surface char.
    assert_eq!(ruby_display_offset(&parsed, 0), 0);
    assert_eq!(ruby_display_offset(&parsed, 3), 1);
    // After it: the markup (4 chars) is gone.
    assert_eq!(ruby_display_offset(&parsed, 5), 1);
    assert_eq!(ruby_display_offset(&parsed, 6), 2);
}

#[test]
fn kana_only_spans_cover_the_text() {
    let spans = KanaOnlyProvider.analyze("きゃ愛だよ").unwrap();
    assert_eq!(spans.len(), 3);
    assert_eq!(spans[0].reading, "きゃ");
    assert_eq!((spans[0].mora_start, spans[0].mora_end), (0, 1));
    assert_eq!(spans[0].confidence, ReadingConfidence::Exact);
    assert_eq!(spans[1].reading, "");
    assert_eq!(spans[1].confidence, ReadingConfidence::Unknown);
    assert_eq!((spans[1].char_start, spans[1].char_end), (2, 3));
    assert_eq!((spans[2].mora_start, spans[2].mora_end), (1, 3));
    assert_eq!(KanaOnlyProvider.name(), "kana-only");
}

#[test]
fn overrides_replace_spans_and_renumber_moras() {
    let text = "運命のとびら";
    let mut spans = KanaOnlyProvider.analyze(text).unwrap();
    let overrides = vec![ReadingOverride { char_start: 0, char_end: 2, reading: "さだめ".to_string() }];
    apply_reading_overrides(&mut spans, &overrides, text);
    assert_eq!(spans[0].surface, "運命");
    assert_eq!(spans[0].reading, "さだめ");
    assert_eq!((spans[0].mora_start, spans[0].mora_end), (0, 3));
    assert_eq!(spans[1].reading, "のとびら");
    assert_eq!((spans[1].mora_start, spans[1].mora_end), (3, 7));
}

#[test]
fn katakana_text_becomes_hiragana() {
    assert_eq!(katakana_to_hiragana("スーパーマン!"), "すーぱーまん!");
    assert_eq!(katakana_to_hiragana("ヴァ"), "ゔぁ");
}

fn tok(surface: &str, b0: usize, b1: usize, details: &[&str]) -> UnidicToken {
    UnidicToken {
        surface: surface.to_string(),
        byte_start: b0,
        byte_end: b1,
        details: details.iter().map(|d| d.to_string()).collect(),
    }
}

#[test]
fn unidic_tokens_become_spans() {
    // 愛 (3 bytes) with its pronunciation in field 9, then a kana token.
    let mut details = vec!["名詞", "*", "*", "*", "*", "*", "アイ", "愛", "アイ", "アイ"];
    let spans = unidic_reading_spans(
        "愛だ",
        &[tok("愛", 0, 3, &details), tok("だ", 3, 6, &["助動詞"])],
    );
    assert_eq!(spans.len(), 2);
    assert_eq!(spans[0].pronunciation, "あい");
    assert_eq!(spans[0].reading, "あい");
    assert_eq!((spans[0].char_start, spans[0].char_end), (0, 1));
    assert_eq!((spans[0].mora_start, spans[0].mora_end), (0, 2));
    assert_eq!(spans[0].confidence, ReadingConfidence::Dictionary);
    assert_eq!(spans[1].reading, "だ");
    assert_eq!((spans[1].char_start, spans[1].char_end), (1, 2));
    assert_eq!((spans[1].mora_start, spans[1].mora_end), (2, 3));
    assert_eq!(spans[1].confidence, ReadingConfidence::Exact);
    // Unknown fields give no reading.
    details[6] = "*";
    details[9] = "*";
    let spans = unidic_reading_spans("愛", &[tok("愛", 0, 3, &details)]);
    assert_eq!(spans[0].reading, "");
    assert_eq!(spans[0].confidence, ReadingConfidence::Unknown);
    // A byte offset past the text falls back.
    let spans = unidic_reading_spans("愛", &[tok("愛", 9, 12, &["*"])]);
    assert_eq!((spans[0].char_start, spans[0].char_end), (0, 1));
}

#[test]
fn line_spans_read_kana_as_itself() {
    let spans = line_reading_spans("きょう");
    let reading: String = spans.iter().map(|s| s.reading.as_str()).collect();
    assert_eq!(reading, "きょう");
    assert_eq!(LinderaUnidicProvider.name(), "lindera-unidic");
}

fn dictionary_moras(text: &str) -> Option<Vec<String>> {
    let spans = LinderaUnidicProvider.analyze(text).ok()?;
    let phonetic: String = spans
        .iter()
        .map(|s| if !s.pronunciation.is_empty() { s.pronunciation.as_str() } else { s.reading.as_str() })
        .collect();
    Some(parse_kana_moras(&phonetic).into_iter().map(|m| m.kana).collect())
}

// The dictionary's readings are checked when `lindera` has its embedded
// UniDic dictionary; without it the provider fails and a line falls back to
// its kana-only spans.
#[test]
fn test_unidic_readings_regression() {
    match dictionary_moras("愛") {
        Some(moras) => {
            assert_eq!(moras, vec!["あ", "い"], "愛 should be 2 moras [あ, い]");
            assert_eq!(dictionary_moras("二人").unwrap(), vec!["ふ", "た", "り"]);
            assert_eq!(dictionary_moras("心").unwrap(), vec!["こ", "こ", "ろ"]);
            assert_eq!(dictionary_moras("嵐").unwrap(), vec!["あ", "ら", "し"]);
            assert_eq!(dictionary_moras("流れる").unwrap(), vec!["な", "が", "れ", "る"]);
            assert_eq!(dictionary_moras("群れ").unwrap(), vec!["む", "れ"]);
            assert_eq!(dictionary_moras("スーパー").unwrap(), vec!["す", "ー", "ぱ", "ー"]);
            let moras = dictionary_moras("きょう").unwrap();
            assert_eq!(moras.len(), 2, "きょう should be 2 moras");
            assert_eq!(moras[0], "きょ");
            let moras = dictionary_moras("がっこう").unwrap();
            assert_eq!(moras.len(), 4, "がっこう should be 4 moras");
            assert_eq!(moras[0], "が");
            assert_eq!(moras[1], "っ");
            assert_eq!(moras[2], "こ");
        }
        None => {
            let spans = line_reading_spans("愛だよ");
            let kana_only = KanaOnlyProvider.analyze("愛だよ").unwrap();
            assert_eq!(spans.len(), kana_only.len());
            assert_eq!(spans[0].reading, "");
            assert_eq!(spans[1].reading, "だよ");
        }
    }
}

#[test]
fn test_user_reading_override() {
    let text = "運命の扉";
    let mut spans = line_reading_spans(text);
    if LinderaUnidicProvider.analyze(text).is_ok() {
        // Default UniDic reading for 運命 is うんめい (4 moras)
        let initial_moras: Vec<String> =
            spans.iter().flat_map(|s| parse_kana_moras(&s.reading)).map(|m| m.kana).collect();
        assert_eq!(&initial_moras[..4], &["う", "ん", "め", "い"]);
    }
    let overrides = vec![ReadingOverride { char_start: 0, char_end: 2, reading: "さだめ".to_string() }];
    apply_reading_overrides(&mut spans, &overrides, text);
    let overridden_moras: Vec<String> =
        spans.iter().flat_map(|s| parse_kana_moras(&s.reading)).map(|m| m.kana).collect();
    assert_eq!(&overridden_moras[..3], &["さ", "だ", "め"]);
    assert_eq!(overridden_moras[3], "の");
}

#[test]
fn dictionary_spans_win_over_kana_only() {
    let dict = KanaOnlyProvider.analyze("かな").unwrap();
    let mut given = dict.clone();
    given[0].reading = "から".to_string();
    let spans = spans_or_kana_only("かな", Ok(given));
    assert_eq!(spans[0].reading, "から");
    let spans = spans_or_kana_only("かな", Err("no dictionary".to_string()));
    assert_eq!(spans[0].reading, "かな");
    assert_eq!(spans.len(), dict.len());
}

#[test]
fn ruby_reading_priority_and_multiglyph_group_are_canonical() {
    let lines = parse_lrc_lines("[00:00.000]運命(さだめ)と二人(ふたり)", Some(2000));
    let line = &lines[0];
    assert_eq!(line.text, "運命と二人");
    let mut spans = line_reading_spans(&line.text);
    apply_reading_overrides(&mut spans, &ruby_overrides(&line.ruby), &line.text);
    let fate = spans.iter().find(|span| span.surface == "運命").expect("ruby span");
    assert_eq!(fate.reading, "さだめ");
    assert_eq!(parse_kana_moras(&fate.reading).len(), 3);
    let two = spans.iter().find(|span| span.surface == "二人").expect("ruby span");
    assert_eq!(two.reading, "ふたり");
    assert_eq!(two.mora_end - two.mora_start, 3);
    // Each moras of the line once: さだめ, と, ふたり.
    let units = mora_units(&spans);
    assert_eq!(units.len(), 7);
}

#[test]
fn ruby_annotations_become_overrides() {
    let parsed = parse_ruby_text("冷(つめ)たく微笑(ほほえ)んだ").unwrap();
    let overrides = ruby_overrides(&parsed.annotations);
    assert_eq!(overrides.len(), 2);
    assert_eq!((overrides[1].char_start, overrides[1].char_end), (3, 5));
    assert_eq!(overrides[1].reading, "ほほえ");
}

#[test]
fn mora_units_follow_the_readings() {
    let text = "運命のとびら";
    let mut spans = KanaOnlyProvider.analyze(text).unwrap();
    apply_reading_overrides(
        &mut spans,
        &[ReadingOverride { char_start: 0, char_end: 2, reading: "さだめ".to_string() }],
        text,
    );
    let units = mora_units(&spans);
    let kanas: Vec<&str> = units.iter().map(|u| u.kana.as_str()).collect();
    assert_eq!(kanas, vec!["さ", "だ", "め", "の", "と", "び", "ら"]);
    // A dictionary reading covers its whole span; a kana span maps char by char.
    assert_eq!((units[0].char_start, units[0].char_end), (0, 2));
    assert_eq!((units[3].char_start, units[3].char_end), (2, 3));
    assert_eq!(units[3].reading_span_id, 1);
    assert_eq!(units[4].phonemes, vec!["t", "o"]);
    assert_eq!(token_reading_span_ids(1, 3, &spans), vec![0, 1]);
}

#[test]
fn kana_only_surfaces_rebuild_the_text() {
    let text = "きゃ愛だよLove";
    let spans = KanaOnlyProvider.analyze(text).unwrap();
    let rebuilt: String = spans.iter().map(|s| s.surface.as_str()).collect();
    assert_eq!(rebuilt, text);
    for pair in spans.windows(2) {
        assert_ne!(pair[0].confidence, pair[1].confidence);
    }
}

#[test]
fn ruby_annotations_are_kanji_with_kana_in_order() {
    let raw = "冷(つめ)たく微笑(ほほえ)んだ";
    let parsed = parse_ruby_text(raw).unwrap();
    let chars: Vec<char> = raw.chars().collect();
    let mut last_end = 0;
    for a in &parsed.annotations {
        let slice: String = chars[a.raw_start..a.raw_end].iter().collect();
        assert_eq!(slice, format!("{}({})", a.surface, a.reading));
        assert!(a.raw_start >= last_end);
        last_end = a.raw_end;
    }
    let plain = parse_ruby_text("ただの歌詞").unwrap();
    assert_eq!(plain.display_text, "ただの歌詞");
    assert!(plain.annotations.is_empty());
}

#[test]
fn overrides_settle_after_one_call() {
    let text = "運命のとびら";
    let mut spans = KanaOnlyProvider.analyze(text).unwrap();
    let overrides = vec![ReadingOverride { char_start: 0, char_end: 2, reading: "さだめ".to_string() }];
    apply_reading_overrides(&mut spans, &overrides, text);
    let once: Vec<(String, usize, usize)> =
        spans.iter().map(|s| (s.reading.clone(), s.mora_start, s.mora_end)).collect();
    apply_reading_overrides(&mut spans, &[], text);
    let twice: Vec<(String, usize, usize)> =
        spans.iter().map(|s| (s.reading.clone(), s.mora_start, s.mora_end)).collect();
    assert_eq!(once, twice);
}

#[test]
fn display_offsets_keep_their_order() {
    let raw = "冷(つめ)たく微笑(ほほえ)んだ";
    let parsed = parse_ruby_text(raw).unwrap();
    let n = raw.chars().count();
    let offsets: Vec<usize> = (0..=n).map(|x| ruby_display_offset(&parsed, x)).collect();
    for (x, pair) in offsets.windows(2).enumerate() {
        assert!(pair[0] <= pair[1], "offset falls at {}", x);
    }
    for (x, off) in offsets.iter().enumerate() {
        assert!(*off <= x);
    }
    for a in &parsed.annotations {
        assert_eq!(ruby_display_offset(&parsed, a.raw_start), a.display_start);
        assert_eq!(ruby_display_offset(&parsed, a.raw_end), a.display_end);
    }
    assert_eq!(offsets[n], parsed.display_text.chars().count());
    let plain = parse_ruby_text("ただ(の)歌詞").unwrap();
    assert!(plain.annotations.is_empty());
    for x in 0..8 {
        assert_eq!(ruby_display_offset(&plain, x), x);
    }
}

#[test]
fn line_layers_apply_ruby_then_build_moras() {
    let lines = parse_lrc_lines("[00:00.000]運命(さだめ)と二人(ふたり)", Some(2000));
    let text = &lines[0].text;
    let spans = KanaOnlyProvider.analyze(text).unwrap();
    let layers = line_layers(spans, &lines[0].ruby, text, &[(0, 2), (2, 3), (3, 5)]).unwrap();
    let readings: Vec<&str> = layers.spans.iter().map(|s| s.reading.as_str()).collect();
    assert_eq!(readings, vec!["さだめ", "と", "ふたり"]);
    let kanas: Vec<&str> = layers.moras.iter().map(|m| m.kana.as_str()).collect();
    assert_eq!(kanas, vec!["さ", "だ", "め", "と", "ふ", "た", "り"]);
    assert_eq!(layers.token_span_ids, vec![vec![0], vec![1], vec![2]]);
    // Without ruby the spans stay as they are.
    let plain = line_layers(KanaOnlyProvider.analyze("かな").unwrap(), &[], "かな", &[]).unwrap();
    assert_eq!(plain.spans[0].reading, "かな");
    assert!(plain.token_span_ids.is_empty());
}
