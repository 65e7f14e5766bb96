//! Regular expressions over symbols, compiled to nondeterministic automata and
//! determinized by the subset construction. Automata are `petgraph` graphs.

pub mod automaton;
pub mod fragments;
pub mod graph;
pub mod language;
pub mod laws;
pub mod nfa_to_dfa;
pub mod regex;
pub mod state_set;
pub mod re_to_nfa;
