//! A small POSIX-ish shell: the verified core of its command-line handling.
//!
//! - `lexer`: splitting a line into words (quotes, escapes);
//! - `redirect`: pulling `>`, `>>`, `2>`, ... out of the words;
//! - `commands`: what a line runs (pipeline stages included), and the text the
//!   builtins print;
//! - `table`: a table of strings by name (completion scripts, shell variables);
//! - `params`: `$NAME`/`${NAME}` expansion and the `declare` builtin;
//! - `history`: the command history and the `history` builtin;
//! - `jobs`: background job numbering, the `jobs` listing and reaping;
//! - `completion`: what a press of tab offers;
//! - `prefix`: the longest common prefix of completion candidates;
//! - `text`: character-level helpers.
use vstd::prelude::*;

pub mod text;
pub mod lexer;
pub mod redirect;
pub mod prefix;
pub mod table;
pub mod commands;
pub mod completion;
pub mod jobs;
pub mod params;
pub mod history;

verus! {
} // verus!
