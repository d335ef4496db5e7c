pub mod catalog;
pub mod line;
pub mod resonance;
pub mod text;
