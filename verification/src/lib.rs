//! In-memory file-path index with fuzzy search, plus the pure logic of the
//! daemon that serves it: request dispatch, the newline-delimited JSON wire
//! format, and the response-channel connection policy.

pub mod codec;
pub mod fuzzy;
pub mod index;
pub mod laws;
pub mod manager;
pub mod protocol;
pub mod rank;
pub mod text;
pub mod types;
