//! glslwatch flattens a GLSL source file and the files it includes into one
//! source text, and tells when that text is out of date.
//!
//! A source may hold `#include "path"` or `#include <path>` lines. The tree
//! of a root source is the root with every file that it includes, directly
//! or through other files. Flattening puts each included file in the place
//! of the first include line that leads to it, leaves the version pragmas
//! out, and sets one `#version` line at the top.
//!
//! The library does not touch the file system. What is known of the files
//! is handed in as a [`files::FileTable`]: the probes made so far, each with
//! what it gave. Where a build needs a probe that the table does not hold,
//! it stops with [`error::Error::Unread`] and names the probe; the caller
//! makes it, records what it gave and builds again:
//!
//! ```text
//! let mut files = FileTable::new();
//! let tree = loop {
//!     match GLSLTree::new("shaders/frag.glsl", &dirs, &files) {
//!         Err(Error::Unread(probe)) => {
//!             let reading = read_from_disk(&probe);
//!             files.record(probe, reading);
//!         }
//!         other => break other,
//!     }
//! };
//! ```
//!
//! # Modules
//!
//! - [`text`]: characters, decimal numbers, joining of lines.
//! - [`directive`]: which lines are version or include directives.
//! - [`preprocess`]: one file with its lines and its directives, and how a
//!   name is looked up in the table.
//! - [`files`]: the table of probes.
//! - [`forest`]: the files of a tree and the links from names to files.
//! - [`branch`]: the files above the one that is being expanded.
//! - [`tree`]: building, flattening, staleness.
//! - [`error`]: what can go wrong.
//! - [`laws`], [`build_laws`], [`reach_laws`], [`render_laws`]: what holds of
//!   every tree, proved.
pub mod branch;
pub mod build_laws;
pub mod directive;
pub mod error;
pub mod files;
pub mod forest;
pub mod laws;
pub mod preprocess;
pub mod reach_laws;
pub mod render_laws;
pub mod text;
pub mod tree;

pub use crate::error::Error;
pub use crate::preprocess::AnnotatedGLSL;
pub use crate::tree::GLSLTree;
