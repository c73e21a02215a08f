//! A parser for CIF (Crystallographic Information File) text.
//!
//! Text is scanned into tokens (`lexer`), each value token is classified
//! (`value`), and the tokens are assembled into a document tree (`parser`,
//! `model`). Every error is one of the kinds in `error`.
pub mod error;
pub mod lexer;
pub mod model;
pub mod parser;
pub mod text;
pub mod value;

pub use error::CifError;
pub use lexer::{tokenize, Token, TokenKind};
pub use model::{CifBlock, CifDocument, CifFrame, CifLoop};
pub use parser::parse;
pub use value::{classify, CifValue};
