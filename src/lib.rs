//! A markdown note buffer backed by a tree of collapsible sections.
//!
//! The text of a note is parsed into a tree of sections (one per heading line)
//! and classified runs of text. The tree renders to two texts: the full text,
//! where every section counts as expanded, and the displayed text, where a
//! collapsed section shows only its heading line. Positions map between the
//! two, and edits at display positions patch the tree in place where they can,
//! else go into the full text, which is then parsed anew.
mod text;
pub mod model;
pub mod tree;
pub mod inline;
pub mod block;
pub mod note;

pub use model::{MarkdownType, Tree};
pub use tree::{MarkdownString, Section, Node};
pub use block::parse;
pub use inline::parse_strings;
pub use note::Note;
