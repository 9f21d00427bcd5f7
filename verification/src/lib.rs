//! Engine of a symlink-hiding interposition shim.
//!
//! The library decides which symbolic links — those whose target lies under a
//! content-addressed store prefix — must be concealed from the calling
//! process, remembers their canonical replacements in a rewrite table, and
//! redirects later opens through that table.  All decisions are made on plain
//! byte paths; the surrounding unverified layer performs the actual system
//! calls and hands the results in.

pub mod dispatch;
pub mod engine;
pub mod paths;
pub mod state;
