use pitch_analyzer::align::build_align_units;
use pitch_analyzer::forced_align::{check_reply, AlignReplyError, AlignedMoraCheck, MmsForcedAlignBackend};
use pitch_analyzer::lyrics::tokenize_core;
use pitch_analyzer::note_engine::{game_model_files, MusicalNoteSource};

#[test]
fn each_mora_once_in_align_units() {
    // 二人 read ふたり as one coarse span over two display tokens.
    let tokens = tokenize_core("二人で");
    let moras = vec![(0, 2), (0, 2), (0, 2), (2, 3)];
    let units = build_align_units(&tokens, &moras);
    let mut ids: Vec<usize> = units.iter().filter_map(|u| u.mora_idx).collect();
    ids.sort_unstable();
    assert_eq!(ids, vec![0, 1, 2, 3]);
    // The coarse moras belong to the first token they overlap; token 1 is
    // covered by no mora of its own, so it is a prior unit.
    assert_eq!(units.len(), 5);
    assert!(units.iter().all(|u| u.known == u.mora_idx.is_some()));
    let orders: Vec<(usize, usize)> = units
        .iter()
        .map(|u| (u.sort_char, u.mora_idx.unwrap_or(usize::MAX)))
        .collect();
    let mut sorted = orders.clone();
    sorted.sort();
    assert_eq!(orders, sorted);
    assert_eq!(units[3].token_idx, 1);
    assert_eq!(units[3].weight_tenths, 18);
}

#[test]
fn align_units_without_moras_are_priors() {
    let tokens = tokenize_core("hello 心");
    let units = build_align_units(&tokens, &[]);
    assert_eq!(units.len(), 2);
    assert_eq!(units[0].weight_tenths, 20);
    assert_eq!(units[1].weight_tenths, 18);
    assert!(units.iter().all(|u| !u.known));
}

#[test]
fn mora_outside_every_token() {
    let tokens = tokenize_core("あ");
    let units = build_align_units(&tokens, &[(5, 6)]);
    assert_eq!(units.len(), 2);
    assert_eq!(units[1].token_idx, usize::MAX);
}

fn reply(i: usize, kana: &str, ok: bool) -> AlignedMoraCheck {
    AlignedMoraCheck { mora_index: i, mora: kana.to_string(), times_ok: ok }
}

#[test]
fn align_reply_checks() {
    let expected = vec!["あ".to_string(), "い".to_string()];
    let good = vec![reply(0, "あ", true), reply(1, "い", true)];
    assert_eq!(check_reply("ForcedAlign", "mms", &expected, &good), Ok(()));
    assert_eq!(
        check_reply("MoraDp", "mms", &expected, &good),
        Err(AlignReplyError::NotForcedAlign)
    );
    assert_eq!(
        check_reply("ForcedAlign", "", &expected, &good),
        Err(AlignReplyError::NotForcedAlign)
    );
    let short = vec![reply(0, "あ", true)];
    let e = check_reply("ForcedAlign", "mms", &expected, &short).unwrap_err();
    assert_eq!(e, AlignReplyError::MoraCount { got: 1, expected: 2 });
    assert_eq!(e.message(), "MMS FA 返回 1 个 mora，期望 2 个");
    let bad = vec![reply(0, "あ", true), reply(1, "う", true)];
    let e = check_reply("ForcedAlign", "mms", &expected, &bad).unwrap_err();
    assert_eq!(e, AlignReplyError::BadMora { index: 1 });
    assert_eq!(e.message(), "MMS FA 返回的第 1 个 mora 时间无效");
    let late = vec![reply(0, "あ", false), reply(1, "う", true)];
    assert_eq!(
        check_reply("ForcedAlign", "mms", &expected, &late),
        Err(AlignReplyError::BadMora { index: 0 })
    );
    assert_eq!(
        AlignReplyError::NotForcedAlign.message(),
        "MMS FA helper 未返回真实 ForcedAlign 模型标识"
    );
}

#[test]
fn backend_program_choice() {
    let b = MmsForcedAlignBackend::from_choices(
        None,
        "python3".to_string(),
        None,
        Some("/res/fa.py".to_string()),
        "/default/fa.py".to_string(),
    );
    assert_eq!(b.python_path(), "python3");
    assert_eq!(b.helper_path(), "/res/fa.py");
    let b = MmsForcedAlignBackend::from_choices(
        Some("/usr/bin/py".to_string()),
        "python3".to_string(),
        Some("/env/fa.py".to_string()),
        Some("/res/fa.py".to_string()),
        "/default/fa.py".to_string(),
    );
    assert_eq!(b.python_path(), "/usr/bin/py");
    assert_eq!(b.helper_path(), "/env/fa.py");
}

#[test]
fn note_source_default() {
    assert_eq!(MusicalNoteSource::default(), MusicalNoteSource::LegacyFcpeTracker);
}

#[test]
fn game_model_file_names() {
    let files = game_model_files();
    assert_eq!(files.config, "config.json");
    assert_eq!(files.encoder, "encoder.onnx");
    assert_eq!(files.estimator, "estimator.onnx");
}
