//! Language selection and synced-lyrics shaping for the Sonora music client.
pub mod assets;
pub mod language;
pub mod text;
pub mod lyrics;
pub mod queue;
