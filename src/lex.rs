pub mod tokenizer;
pub mod grammar_tree;
pub mod dfa;
pub mod direct_afd;
pub mod minimize;
pub mod lex_analyzer;
pub mod yl_reader;
