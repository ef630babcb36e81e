//! A verified front end for a small assignment language.
//!
//! Source text is a byte sequence. The lexer turns it into tokens that
//! cover the input exactly; the parser builds an abstract syntax tree by
//! recursive descent, recovering from malformed constructs so that one run
//! reports every defect; the interpreter walks the tree and binds each
//! assigned variable to a 64-bit signed integer, treating a read of an
//! unassigned variable as zero after reporting it.

pub mod token;
pub mod util;
pub mod text;
pub mod error;
pub mod messages;
pub mod lexer;
pub mod node;
pub mod parser;
pub mod interpreter;
