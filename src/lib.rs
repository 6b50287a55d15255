//! A fuzzy-filterable registry of terminal-multiplexer sessions.
//!
//! Sessions are declared in configuration (with glob patterns whose captures
//! feed a small template language), merged with what the multiplexer reports
//! as running, and narrowed by a free-text query whose ranking and selection
//! are stated and proved here.
pub mod config;
pub mod fzf;
pub mod session_list;
pub mod template;
pub mod text;
pub mod tmux;
