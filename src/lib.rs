//! The core of an interactive shell: a line editor driven byte by byte
//! from a terminal in raw mode, with a history of submitted lines, and the
//! splitting and dispatch of pipelines of programs joined by `" | "`.
//!
//! Everything here is pure: the caller reads the terminal, writes what the
//! editor asks to show, and starts the processes that the runner names.

pub mod editor;
pub mod pipeline;
pub mod terminal;
pub mod text;
