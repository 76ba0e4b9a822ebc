//! A braces-and-brackets configuration notation: a tokenizer, a parser
//! producing a generic tree value, and a renderer producing formatted text.
//!
//! Every document is a single named top-level container: the text
//! `root { ... },` parses to a one-entry map keyed `root`, and rendering a
//! tree emits that wrapper exactly once.

mod ast;
mod de;
mod error;
mod laws;
mod lexer;
mod parser;
mod ser;
mod text;
mod token;

pub use ast::{Value, ValueView};
pub use de::{
    array_items, bool_value, char_value, enum_access, from_text, mapping_entries, number_text,
    string_value, unwrap_root, EnumBinding, ValueMap, ValueSeq,
};
pub use error::{Error, ErrorView};
pub use laws::{
    is_number_text, theorem_lex_render_document, theorem_parse_tokens_round_trip,
    theorem_parse_wraps_root, theorem_render_parse_round_trip, theorem_render_wraps_once,
    tokens_of_document, tokens_of_entries, tokens_of_items, tokens_of_value, wf_document,
    wf_entries, wf_items, wf_key, wf_value,
};
pub use lexer::{tokenize, LexError};
pub use parser::{parse, ParseError, ParseErrorView, Parser};
pub use ser::{to_text, Serializer};
pub use token::{Token, TokenView};
