//! An interactive fuzzy finder's core: candidates read from delimited input,
//! ranked against a multi-token query, and the edit, key and redraw logic of
//! the terminal session that picks one of them.

pub mod config;
pub mod filter;
pub mod render;
pub mod ui;

pub use filter::{rank_candidates, Candidate};
