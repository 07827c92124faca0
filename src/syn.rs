pub mod yp_reader;
pub mod bits;
pub mod slr_automata;
pub mod first_follow;
pub mod lalr_automata;
pub mod syn_analyzer;
