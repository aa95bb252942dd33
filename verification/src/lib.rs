//! The parts of an interactive shell's line reader that deal with paths: the native left prompt
//! and the path-jump index.
//!
//! Shell text is held as sequences of characters, see [`wide`].

pub mod native_prompt;
pub mod path_jump;
pub mod segments;
pub mod unix_path;
pub mod wide;
