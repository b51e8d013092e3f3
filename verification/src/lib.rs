//! Parser combinators over text, and a grammar for the help output of
//! RPC-style command-line tools.
//!
//! A parser is a function from the remaining input to either the input that
//! is left together with an output, or an error. Combinators build bigger
//! parsers from smaller ones; their contracts say what the combined parser
//! may return in terms of what its parts may return.

pub mod grammar;
pub mod laws;
pub mod parser;
pub mod primitives;
pub mod text;

pub use grammar::{is_well_formed, parse_help, rpc_name, section, HelpRecord};
pub use parser::{Append, Input, Parser};
pub use primitives::{
    bare_word, first_letter, identifier, match_literal, split_at, strip_prefix,
};
pub use text::first_char;
