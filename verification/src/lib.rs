//! A verified compiler backend and virtual machine for a small imperative
//! language: lexical scanning, recursive-descent parsing, static checking,
//! three-address intermediate code, an optimizing pass pipeline, lowering to
//! stack-machine bytecode, and a bytecode interpreter.

pub mod intermediate_code_generator;
pub mod laws;
pub mod lex_layer;
pub mod numerals;
pub mod optimizer;
pub mod optimizer_laws;
pub mod optimizer_sound;
pub mod semantic_analyzer;
pub mod semantics;
pub mod strmap;
pub mod syntax_analyzer;
pub mod target_code_generator;
pub mod text;
pub mod wellformed;
