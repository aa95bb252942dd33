//! Path jump: finding again, by a few typed characters, the paths that earlier commands used.

pub mod frecency;
pub mod history;
pub mod index;
pub mod insertion;

pub use crate::path_jump::index::{build_index, filter_index, PathIndex};
pub use crate::path_jump::insertion::format_path_for_insertion;
