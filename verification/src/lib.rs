//! Decorated text: a character buffer in which every byte offset carries a
//! caller-defined face.

pub mod decorations;
pub mod decorator;
pub mod laws;
pub mod lemmas;
pub mod model;
pub mod text;
pub mod utf8;

pub use decorator::Decorator;
pub use text::{Text, TextFragment};
