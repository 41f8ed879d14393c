//! Builds the navigation index of a documentation tree: directories that hold
//! a `README.md` become groups, their Markdown files become documents, and the
//! tree is rendered as an indented list of links that is rewritten only when
//! its digest changes.

pub mod digest;
pub mod error;
pub mod gate;
pub mod laws;
pub mod preprocessor;
pub mod render;
pub mod text;
pub mod tree;
pub mod walk;

pub use crate::error::SummaryError;
pub use crate::gate::{gen_summary, IndexUpdate, Regeneration};
pub use crate::preprocessor::AutoGenSummary;
pub use crate::render::gen_summary_lines;
pub use crate::text::count;
pub use crate::tree::{MdFile, MdGroup};
pub use crate::walk::{walk_dir, FsEntry};
