pub mod ast;
pub mod grammar;
pub mod laws;
pub mod outcome;
pub mod parser;

pub use ast::Value;
pub use outcome::{ErrorKind, ParseOutcome};
pub use parser::{
    decode_hex_escape, decode_mnemonic, parse_fragment, parse_string_literal,
    parse_string_literal_complete,
};
