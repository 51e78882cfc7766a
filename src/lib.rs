//! A small regular-expression engine: patterns are tokenized, compiled into an
//! index-addressed non-deterministic automaton, and run against query strings.
pub mod regex_tokenizer;
pub mod automaton;
pub mod nfa;
pub mod run;
pub mod regex_parser;
pub mod language;
