//! Concurrent file-counting engine: per-root aggregate statistics (file count,
//! directory count, optional deduplicated on-disk size) over directory trees,
//! together with the table formatting used to present them.

pub mod cmdargs;
pub mod color;
pub mod engine;
pub mod ledger;
pub mod output;
pub mod text;
pub mod walker;
