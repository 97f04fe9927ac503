# pitch_analyzer

Lyrics, readings and subtitle text for a vocal pitch analyzer, verified with
Verus.

- `src/` is the verified library: the lyric tokenizer, LRC and plain-text
  lyric parsing (times in milliseconds), Japanese kana/mora/phoneme layers,
  ruby markup, reading overrides and UniDic readings (segmentation by
  `lindera`; see below), the units of the acoustic alignment, and the text of the SRT
  and ASS exports. Every public function has a contract; the laws of the
  library are public proof functions (`lemma_*`).
- `tests/` runs the library on concrete inputs.
- `app/` is the command-line program around it: audio decoding, the ONNX
  pitch model, floating-point signal processing, timing in seconds and file
  output.

## UniDic

Dictionary readings come from `lindera` with its embedded UniDic dictionary.
The library states them over `unidic_segmentation`, the segmentation that
`lindera` gives for a text: when the provider succeeds its spans are exactly
those of that segmentation, and a line falls back to its kana-only spans
(kana as itself, other runs with no reading) when it fails. This crate builds
`lindera` without its `embed-unidic` feature, which downloads the dictionary
during the build; built that way, the provider always fails.
