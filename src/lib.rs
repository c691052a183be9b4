//! Keeps a text file of `front::back` lines in step with a remote flashcard deck.
pub mod laws;
pub mod parse;
pub mod reconcile;
pub mod record;
pub mod rewrite;
pub mod roundtrip;
pub mod text;
