//! Whole-pipeline laws. Every stage's contract pins its result to a
//! specification function of its input alone, so compilation as a whole is a
//! mathematical function of the source text.

use vstd::prelude::*;

use crate::intermediate_code_generator::{gen_body, IRInstrView};
use crate::lex_layer::spec_tokenize;
use crate::optimizer::spec_pipeline;
use crate::syntax_analyzer::spec_parse_function;
use crate::target_code_generator::{spec_lower, VMInstrView};

verus! {

/// The bytecode a source text compiles to: scan, parse, lower to IR from a
/// fresh generator, optimize, and lower to bytecode. A parse failure carries
/// the diagnostic; an operator the machine lacks carries its text.
pub open spec fn spec_compile(src: Seq<char>) -> Result<
    Result<Seq<VMInstrView>, Seq<char>>,
    Seq<char>,
> {
    let toks = spec_tokenize(src);
    match spec_parse_function(toks, 0).0 {
        Err(m) => Err(m),
        Ok(f) => Ok(spec_lower(spec_pipeline(gen_body(f.body, 0).1))),
    }
}

/// The optimized IR a source text compiles to.
pub open spec fn spec_compile_ir(src: Seq<char>) -> Result<Seq<IRInstrView>, Seq<char>> {
    let toks = spec_tokenize(src);
    match spec_parse_function(toks, 0).0 {
        Err(m) => Err(m),
        Ok(f) => Ok(spec_pipeline(gen_body(f.body, 0).1)),
    }
}

/// Determinism: compiling identical source twice yields structurally
/// identical tokens, syntax trees, IR and bytecode. Each stage's contract
/// pins its result to a specification function of its input, so equality of
/// sources carries through every stage.
pub proof fn lemma_compilation_deterministic(src1: Seq<char>, src2: Seq<char>)
    requires
        src1 == src2,
    ensures
        spec_tokenize(src1) == spec_tokenize(src2),
        spec_parse_function(spec_tokenize(src1), 0) == spec_parse_function(spec_tokenize(src2), 0),
        spec_compile_ir(src1) == spec_compile_ir(src2),
        spec_compile(src1) == spec_compile(src2),
{
}

} // verus!
