use pitch_analyzer::lrc::{anchor_groups, display_text, parse_lrc_lines, txt_lines, TxtLyrics};
use pitch_analyzer::lyrics::tokenize;

#[test]
fn test_parse_lrc_simple() {
    let lrc = "[00:01.00]第一行\n[00:05.00]第二行\n[00:09.00]最后一行";
    let lines = parse_lrc_lines(lrc, Some(15000));
    assert_eq!(lines.len(), 3);
    assert_eq!(lines[0].start_ms, 1000);
    assert_eq!(lines[0].end_ms, 5000);
    assert_eq!(lines[1].start_ms, 5000);
    assert_eq!(lines[1].end_ms, 9000);
    assert_eq!(lines[2].end_ms, 15000);
}

#[test]
fn test_parse_lrc_bilingual() {
    let lrc = "[00:01.00]Hello world\n[00:01.00]你好世界";
    let lines = parse_lrc_lines(lrc, Some(10000));
    assert_eq!(lines.len(), 1);
    assert_eq!(lines[0].text, "Hello world");
    assert_eq!(lines[0].translations.len(), 1);
    assert_eq!(lines[0].translations[0], "你好世界");
    assert!(display_text(&lines[0].text, &lines[0].translations).contains("|"));
}

#[test]
fn test_parse_lrc_trailing_end_tags() {
    let lrc = "[ar:artist]\n\
               [ti:title]\n\
               \n\
               [00:01.000]first line here[00:10.000]\n\
               [00:01.000]第一行歌词[00:10.000]\n\
               [00:10.000]second line[00:18.500]\n\
               [00:10.000]第二行歌词[00:18.500]\n";
    let lines = parse_lrc_lines(lrc, Some(30000));
    assert_eq!(lines.len(), 2, "expected 2 merged lines, got {}", lines.len());
    assert_eq!(lines[0].text, "first line here");
    assert_eq!(lines[0].translations, vec!["第一行歌词"]);
    assert_eq!(lines[0].start_ms, 1000);
    assert_eq!(lines[0].end_ms, 10000);
    assert_eq!(lines[1].text, "second line");
    assert_eq!(lines[1].translations, vec!["第二行歌词"]);
    assert_eq!(lines[1].start_ms, 10000);
    assert_eq!(lines[1].end_ms, 18500);
    for l in &lines {
        for t in &l.translations {
            assert!(!l.text.is_empty() && t != &l.text);
        }
    }
}

#[test]
fn test_parse_lrc_lenient_timestamps() {
    let lrc = "[0:01]aaa[0:05]\n[00:05.5]bbb[00:09.25]\n";
    let lines = parse_lrc_lines(lrc, Some(15000));
    assert_eq!(lines.len(), 2);
    assert_eq!(lines[0].start_ms, 1000);
    assert_eq!(lines[0].end_ms, 5000);
    assert_eq!(lines[1].start_ms, 5500);
    assert_eq!(lines[1].end_ms, 9250);
}

#[test]
fn test_parse_lrc_multi_timestamp_repeat() {
    let lrc = "[00:10.000][00:70.000]chorus line[00:80.000]\n";
    let lines = parse_lrc_lines(lrc, Some(120000));
    assert_eq!(lines.len(), 1);
    assert_eq!(lines[0].start_ms, 10000);
    assert_eq!(lines[0].end_ms, 80000);
}

#[test]
fn test_parse_lrc_repeat_tags_at_line_start() {
    let lrc = "[00:10.000][01:20.000]chorus line\n";
    let lines = parse_lrc_lines(lrc, Some(200000));
    assert_eq!(lines.len(), 2, "repeated tags should create two entries");
    assert_eq!(lines[0].start_ms, 10000);
    assert_eq!(lines[1].start_ms, 80000);
    assert_eq!(lines[0].text, "chorus line");
}

#[test]
fn lrc_lines_are_ordered_and_apart() {
    // Out of order in the file, and one entry 40 ms after another.
    let lrc = "[00:09.00]c\n[00:01.00]a\n[00:01.04]a2\n[00:05.00]b";
    let lines = parse_lrc_lines(lrc, None);
    let starts: Vec<u64> = lines.iter().map(|l| l.start_ms).collect();
    assert_eq!(starts, vec![1000, 5000, 9000]);
    assert_eq!(lines[0].translations, vec!["a2"]);
    for w in lines.windows(2) {
        assert!(w[0].start_ms + 50 <= w[1].start_ms);
        assert!(w[0].start_ms < w[0].end_ms && w[0].end_ms <= w[1].start_ms);
    }
    // Without the audio's length the last line lasts 100 ms.
    assert_eq!(lines[2].end_ms, 9100);
}

#[test]
fn lrc_entries_50ms_apart_stay_separate() {
    let lines = parse_lrc_lines("[00:01.00]x\n[00:01.05]y", Some(5000));
    assert_eq!(lines.len(), 2);
    assert_eq!(lines[0].end_ms, 1050);
}

#[test]
fn lrc_own_end_is_cut_at_next_line() {
    let lines = parse_lrc_lines("[00:01.00]a[00:20.00]\n[00:05.00]b", Some(30000));
    assert_eq!(lines[0].end_ms, 5000);
    assert_eq!(lines[1].end_ms, 30000);
    // An own end before the start is ignored.
    let lines = parse_lrc_lines("[00:05.00]a[00:01.00]", Some(9000));
    assert_eq!(lines[0].end_ms, 9000);
}

#[test]
fn lrc_skips_lines_without_tag_or_text() {
    let lines = parse_lrc_lines("plain\n[00:01.00]\n[xx:yy]text\n[00:02.00]  <00:02.50>  \n[00:03.00]ok", None);
    assert_eq!(lines.len(), 1);
    assert_eq!(lines[0].text, "ok");
}

#[test]
fn lrc_tag_grammar_edges() {
    // Three minute digits and a four-digit fraction do not make a line tag.
    let lines = parse_lrc_lines("[100:01.00]a\n[00:01.1234]b\n[00:02.]c\n[1:2]d", None);
    assert_eq!(lines.len(), 1);
    assert_eq!(lines[0].text, "d");
    assert_eq!(lines[0].start_ms, 62000);
    // Other decimal digits match the tag but read as zero.
    let lines = parse_lrc_lines("[０１:０２]full width", None);
    assert_eq!(lines.len(), 1);
    assert_eq!(lines[0].start_ms, 0);
}

#[test]
fn enhanced_word_tags_become_anchors() {
    let lines = parse_lrc_lines("[00:12.00]<00:12.00>如<00:12.50>果", None);
    assert_eq!(lines.len(), 1);
    assert_eq!(lines[0].text, "如果");
    assert_eq!(lines[0].anchors, vec![(10, 12000), (21, 12500)]);
}

#[test]
fn crlf_lines_are_trimmed() {
    let lines = parse_lrc_lines("[00:01.00] a \r\n[00:02.00]b\r\n", Some(3000));
    assert_eq!(lines.len(), 2);
    assert_eq!(lines[0].text, "a");
}

#[test]
fn display_text_joins_translations() {
    assert_eq!(display_text("a", &[]), "a");
    assert_eq!(
        display_text("a", &["b".to_string(), "c".to_string()]),
        "a | b / c"
    );
}

#[test]
fn anchor_groups_by_first_char() {
    // Anchors at chars 2 and 5: tokens before 2 are group 0.
    assert_eq!(anchor_groups(&[0, 1, 2, 4, 5, 9], &[2, 5]), vec![0, 0, 1, 1, 2, 2]);
}

fn plain(text: &str) -> Vec<String> {
    match txt_lines(text) {
        TxtLyrics::Plain(lines) => lines,
        TxtLyrics::Timed(_) => panic!("expected plain lines"),
    }
}

#[test]
fn test_parse_txt_simple() {
    let lines = plain("第一行\n第二行\n\n第三行");
    assert_eq!(lines.len(), 3);
    assert_eq!(lines[0], "第一行");
    assert_eq!(tokenize(&lines[0]).len(), 3);
}

#[test]
fn txt_lines_are_trimmed() {
    assert_eq!(plain("  a \r\n\t\n b"), vec!["a", "b"]);
    assert!(plain("").is_empty());
    // A tag without text, or a metadata tag, does not make a file timed.
    assert_eq!(plain("[ar:x]\n[00:01.00]\nla"), vec!["[ar:x]", "[00:01.00]", "la"]);
}

#[test]
fn timed_ruby_txt_uses_lrc_parser_and_builds_kana_pitch_slots() {
    let text = "[ar:岡村孝子]
[al:SOLEIL]
[ti:ドラマ]

[00:18.000]冷(つめ)たく微笑(ほほえ)んだ[00:25.020]
[00:18.000]冷冷地泛起微笑[00:25.020]";
    let lines = match txt_lines(text) {
        TxtLyrics::Timed(lines) => lines,
        TxtLyrics::Plain(_) => panic!("a timed TXT file must be parsed as LRC"),
    };
    assert_eq!(
        lines.len(),
        1,
        "metadata and translation must not become lyric lines"
    );
    let line = &lines[0];
    assert_eq!(line.start_ms, 18000);
    assert_eq!(line.end_ms, 25020);
    assert_eq!(line.text, "冷たく微笑んだ");
    assert_eq!(line.translations, ["冷冷地泛起微笑"]);
    let readings: Vec<(&str, &str)> =
        line.ruby.iter().map(|a| (a.surface.as_str(), a.reading.as_str())).collect();
    assert_eq!(readings, [("冷", "つめ"), ("微笑", "ほほえ")]);
}

#[test]
fn lrc_text_is_the_ruby_display_text() {
    let lines = parse_lrc_lines("[00:01.00]愛(あい)\\(笑\\)\n[00:01.00]訳(やく)", Some(3000));
    assert_eq!(lines.len(), 1);
    assert_eq!(lines[0].text, "愛(笑)");
    assert_eq!(lines[0].ruby.len(), 1);
    assert_eq!((lines[0].ruby[0].display_start, lines[0].ruby[0].display_end), (0, 1));
    // Translations keep their text as written.
    assert_eq!(lines[0].translations, ["訳(やく)"]);
}
