//! Finite automata for one regular language, checked against each other,
//! and two small string rewriting systems.
//!
//! The automata are a minimal DFA ([`dfa`]), an NFA ([`nfa`]) and an NFA
//! with several start states that must each accept ([`universal`]). The
//! module [`agreement`] proves that the three accept the same words, and
//! the module [`language`] that these are the words of the language. The
//! module [`driver`] sets the automata against a pattern-matching oracle
//! ([`oracle`]) on random words ([`words`]).
//!
//! The rewriting systems ([`rewrite`]) are explored by breadth-first search
//! ([`fuzz`]) and walked along random chains whose invariants are checked
//! and proved ([`invariants`]).

pub mod agreement;
pub mod alphabet;
pub mod branch_cells;
pub mod dfa;
pub mod driver;
pub mod fuzz;
pub mod invariants;
pub mod language;
pub mod nfa;
pub mod nfa_cells;
pub mod oracle;
pub mod rewrite;
pub mod state_set;
pub mod subset;
pub mod universal;
pub mod word_set;
pub mod words;
