//! Japanese text layers: surface, reading span, mora, phoneme.

pub mod layers;
pub mod mora;
pub mod phoneme;
pub mod reading;
pub mod unidic;
