//! A lexer-and-parser generator: regular expressions are compiled into a
//! minimal DFA by the direct (followpos) construction, context-free grammars
//! into SLR(1) or LALR(1) ACTION/GOTO tables, and both are then used to scan
//! and parse input text.
use vstd::prelude::*;

pub mod text;
pub mod lex;
pub mod syn;
pub mod utility;
pub mod view;

verus! {

} // verus!
