//! A language front end for a compact, indentation-sensitive statechart
//! notation. The text of a document is turned into a tree of states and
//! transitions in three verified passes: a lexer that translates leading
//! whitespace into explicit structural tokens, a recursive-descent parser
//! that builds the raw tree, and a resolver that turns every transition's
//! textual target into an absolute path within the tree.
//!
//! Each pass is specified by a pure function over mathematical models
//! and the executable code is proved to return exactly that function's
//! result; the guarantees that cut across passes — balanced structural
//! tokens, depth correspondence, idempotent resolution, the implicit
//! source rule, the bypassing of scope search by qualified paths, and
//! the tree invariants — are proved in [`laws`] and beside the lexer.

pub mod ast;
pub mod diag;
pub mod laws;
pub mod parser;
pub mod resolver;
pub mod tokenizer;
