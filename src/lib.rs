//! Multimodal prompt preparation and a bounded, role-merging conversation history.
//!
//! - [`request`]: the content fragments of a conversation and the rule that merges them.
//! - [`parser`]: finds media references in text and splices resolved media into fragments.
//! - [`session`]: the bounded history of turns.
pub mod parser;
pub mod request;
pub mod session;
