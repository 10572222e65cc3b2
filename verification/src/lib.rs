//! Resolution of editor configuration options for a target path.
//!
//! The library discovers the chain of configuration files that govern a
//! target path, matches each file's glob-patterned sections against the
//! path, and folds the per-file layers into one mapping with closest-wins
//! precedence.  The glob dialect (`*`, `**`, `?`, bracket classes, brace
//! alternation and numeric ranges) is translated into a regular expression;
//! the translation itself is verified, while the final automaton run is
//! delegated to the `regex` crate.
//!
//! File discovery and structured-file parsing are the caller's concern:
//! the functions here work on plain path strings and already-parsed
//! section data.

pub mod crawl;
pub mod glob;
pub mod merge;
pub mod omap;
pub mod section;
pub mod text;

pub use crawl::crawl_paths;
pub use crawl::relative_targets;
pub use glob::glob_match;
pub use glob::has_imbalanced_braces;
pub use glob::translate_alternation;
pub use merge::is_known_key;
pub use merge::merge_layer;
pub use merge::resolve_parsed;
pub use section::ConfSections;
pub use section::Pair;
pub use section::Section;
pub use section::resolve_layer;
