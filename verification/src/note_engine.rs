//! Where musical note events come from.

use vstd::prelude::*;

verus! {

/// The engine that produced a musical note event.
#[derive(Debug, Clone, Copy, PartialEq, Eq, Structural)]
pub enum MusicalNoteSource {
    Game,
    LegacyFcpeTracker,
    ImportedMidi,
}

impl Default for MusicalNoteSource {
    /// Events come from the pitch-track note tracker unless said otherwise.
    fn default() -> (r: Self)
        ensures
            r == MusicalNoteSource::LegacyFcpeTracker,
    {
        MusicalNoteSource::LegacyFcpeTracker
    }
}

/// The files of a GAME model directory, by name.
#[derive(Debug, Clone)]
pub struct GameModelFiles {
    pub config: String,
    pub encoder: String,
    pub estimator: String,
}

/// The names of the files that a GAME model directory holds: its
/// `config.json`, its `encoder.onnx` and its `estimator.onnx`. The model is
/// taken to be there when its encoder file is.
pub fn game_model_files() -> (r: GameModelFiles)
    ensures
        r.config@ == "config.json"@,
        r.encoder@ == "encoder.onnx"@,
        r.estimator@ == "estimator.onnx"@,
{
    GameModelFiles {
        config: String::from_str("config.json"),
        encoder: String::from_str("encoder.onnx"),
        estimator: String::from_str("estimator.onnx"),
    }
}

} // verus!
