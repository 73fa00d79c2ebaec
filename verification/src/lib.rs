//! Verified building blocks for searching the Code 20 cellular automaton:
//! fixed-width bit integers, bit sets, automaton steps and finite automata.
pub mod bits;
pub mod int_u1024;
pub mod int_u256;
pub mod int_u65536;
pub mod customuint;
pub mod bitset;
pub mod smallbitset;
pub mod search;
pub mod search_tree;
pub mod gaps;
pub mod render;
pub mod automaton;
pub mod fsm;
pub mod fa;
pub mod minimization;
pub mod sorting;
pub mod dfa;
pub mod rules;
pub mod solver;
pub mod net;
pub mod dfa_min;
pub mod satsearch;
pub mod decimal;
pub mod prune;
pub mod words;
pub mod relabel;
pub mod dimacs;
pub mod packed;
pub mod net_text;
pub mod iterate;
pub mod net_language;
