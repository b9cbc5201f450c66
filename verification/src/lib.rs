//! Turns the build log of a compiler driver into the records of a
//! compilation database.
//!
//! The library holds the stages of the conversion and nothing that touches a
//! file: the directory walk and the directory index of the source tree, the
//! line filter, the sanitizer, the tokenizer and the synthesizer, and the
//! pipeline that chains them.

pub mod command;
pub mod diagnostic;
pub mod filter;
pub mod index;
pub mod path;
pub mod pipeline;
pub mod sanitize;
pub mod text;
pub mod tokenize;
pub mod walk;

pub use command::{create_compile_command, create_compile_commands, CompileCommand, Conversion};
pub use diagnostic::Diagnostic;
pub use filter::{find_all_lines, line_matches};
pub use index::{build_file_map, DirectoryIndex, Resolution};
pub use pipeline::convert;
pub use sanitize::{cleanup_line, cleanup_lines};
pub use tokenize::{tokenize_line, tokenize_lines};
pub use walk::{Entry, Findings, Listing, TreeWalk};
