//! Core of a voice-reading chat bot: a per-guild pronunciation dictionary
//! with insert-if-absent semantics, a leftmost-longest multi-pattern
//! substitution engine, and the text normalization pipeline that turns an
//! incoming message into a bounded speech string.

pub mod dict;
pub mod normalize;
pub mod subst;

