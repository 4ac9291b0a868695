//! Relocation of a source file with rewriting of its relative import
//! specifiers, so that every import still denotes the same module after
//! the move.
//!
//! The crate is organised bottom-up:
//! - [`path_alg`] holds the path algebra: splitting and joining
//!   slash-separated paths, parents, and extension stripping.
//! - [`resolver`] converts a written relative specifier plus its importer
//!   directory into an absolute module path, and back into a minimal
//!   relative specifier for a new importer directory.
//! - [`scanner`] finds the import string literals of a source text and
//!   applies a batch of in-place replacements.
//! - [`rewrite`] drives the whole rewrite for a file move.

pub mod path_alg;
pub mod resolver;
pub mod rewrite;
pub mod scanner;

pub use path_alg::is_valid_abs_path;
pub use rewrite::infer_langauge_from_suffix;
pub use rewrite::update_imports;
pub use rewrite::Error;
pub use rewrite::Lang;
