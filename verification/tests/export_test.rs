use pitch_analyzer::export::srt::{srt_annotated_row, srt_lyrics_text, SrtError, SrtLine, SrtSegment};
use pitch_analyzer::export::ass::{ass_dialogue, ass_time_text, escape_ass, karaoke_syllable};
use pitch_analyzer::export::srt::{srt_cue, srt_time_text};
use pitch_analyzer::export::{note_chain, source_line_text, visible_token_text};
use pitch_analyzer::models::note_name;

#[test]
fn ass_escapes_special_chars() {
    assert_eq!(escape_ass("a{b}c\\d"), "a\\{b\\}c\\\\d");
    assert_eq!(escape_ass("普通"), "普通");
}

#[test]
fn ass_time_format() {
    assert_eq!(ass_time_text(0), "0:00:00.00");
    assert_eq!(ass_time_text(123456), "0:20:34.56");
    assert_eq!(ass_time_text(360000 * 12 + 6000 + 100 + 1), "12:01:01.01");
}

#[test]
fn srt_time_format() {
    assert_eq!(srt_time_text(0), "00:00:00,000");
    assert_eq!(srt_time_text(3_723_004), "01:02:03,004");
    assert_eq!(srt_time_text(360_000_000), "100:00:00,000");
}

#[test]
fn karaoke_and_dialogue_lines() {
    assert_eq!(karaoke_syllable(25, "{x}"), "{\\k25}\\{x\\}");
    assert_eq!(
        ass_dialogue(100, 250, "Lyric", "{\\k0}你"),
        "Dialogue: 0,0:00:01.00,0:00:02.50,Lyric,,0,0,0,,{\\k0}你"
    );
}

#[test]
fn srt_cue_layout() {
    assert_eq!(
        srt_cue(1, 1000, 2500, "C4\n你好"),
        "1\n00:00:01,000 --> 00:00:02,500\nC4\n你好\n\n"
    );
}

#[test]
fn note_names() {
    assert_eq!(note_name(60), "C4");
    assert_eq!(note_name(66), "F#4");
    assert_eq!(note_name(69), "A4");
    assert_eq!(note_name(0), "C-1");
    assert_eq!(note_name(-1), "B-2");
    assert_eq!(note_name(127), "G9");
}

#[test]
fn note_chains() {
    assert_eq!(note_chain(&[62, 60]), Some("D4-C4".to_string()));
    assert_eq!(note_chain(&[60, 60, 62, 62, 60]), Some("C4-D4-C4".to_string()));
    assert_eq!(note_chain(&[]), None);
}

#[test]
fn visible_and_source_text() {
    assert_eq!(visible_token_text("你|you"), "你");
    assert_eq!(visible_token_text("no bar"), "no bar");
    assert_eq!(visible_token_text("|x"), "");
    assert_eq!(source_line_text("primary", &["x".to_string()]), "primary");
    assert_eq!(
        source_line_text("", &["你|you".to_string(), "好".to_string()]),
        "你好"
    );
}

#[test]
fn srt_rows_annotate_each_segment() {
    let seg = |t: &str, n: Option<&str>| SrtSegment { text: t.to_string(), note: n.map(|n| n.to_string()) };
    assert_eq!(srt_annotated_row(&[seg("Hello", Some("C4"))]), "Hello [C4]");
    assert_eq!(
        srt_annotated_row(&[seg("你", Some("C4-D4")), seg("好", None)]),
        "你 [C4-D4] 好"
    );
    let lines = vec![
        SrtLine { start_ms: 0, end_ms: 0, segments: vec![] },
        SrtLine { start_ms: 1000, end_ms: 1500, segments: vec![seg("Test", Some("C4"))] },
    ];
    assert_eq!(
        srt_lyrics_text(&lines).unwrap(),
        "1\n00:00:01,000 --> 00:00:01,500\nTest [C4]\n\n"
    );
    let untimed = vec![SrtLine { start_ms: 0, end_ms: 0, segments: vec![] }];
    assert_eq!(srt_lyrics_text(&untimed), Err(SrtError::NoTimedLine));
    assert_eq!(srt_lyrics_text(&[]), Err(SrtError::NoTimedLine));
}
