//! Shell command highlighting support for a zsh plugin: escape-sequence
//! decoding, grouping of highlighted tokens, and the scope-stack machine
//! that turns parser events into tokens.

pub mod highlighting;
pub mod unescape;

pub use unescape::{UnescapeError, ZshUnescape};
