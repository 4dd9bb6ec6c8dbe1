//! Folds Visual Studio call-tree profiler reports into weighted call paths.
use vstd::prelude::*;

pub mod error;
pub mod folder;
pub mod header;
pub mod laws;
pub mod number;
pub mod text;

pub use error::{ErrorKind, FoldError};
pub use folder::Folder;
pub use header::{line_matches_start_line, START_LINE};
pub use number::get_next_number;

verus! {

} // verus!
