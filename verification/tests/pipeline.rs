//! End-to-end behavior of the pipeline: scanning, parsing, checking, IR
//! generation, optimization, lowering, and execution.

use toyc::intermediate_code_generator::{IRGenerator, IRInstr, IRValue};
use toyc::lex_layer::tokenize;
use toyc::optimizer::optimize_ir;
use toyc::semantic_analyzer::SemanticAnalyzer;
use toyc::syntax_analyzer::Parser;
use toyc::target_code_generator::{lower_ir_to_vm, run_ir_with_vm, RunError, VMFault, VMInstr, VMValue};

fn compile_ir(src: &str) -> Vec<IRInstr> {
    let tokens = tokenize::<String>(Ok(src)).unwrap();
    let mut parser = Parser::new(&tokens);
    let func = parser.parse_function().unwrap();
    let mut sema = SemanticAnalyzer::new();
    sema.analyze_function(&func).unwrap();
    let mut gen = IRGenerator::new();
    gen.generate_function(&func)
}

fn assigns_name(ir: &[IRInstr], name: &str) -> bool {
    ir.iter().any(|i| match i {
        IRInstr::Assign(t, _) => t == name,
        _ => false,
    })
}

#[test]
fn folding_binds_constant_and_returns_it() {
    let ir = compile_ir("func main() { var x = 2 + 3; return x; }");
    let opt = optimize_ir(ir);
    let bound = opt.iter().any(|i| match i {
        IRInstr::Assign(t, IRValue::Int(5)) => t == "x",
        _ => false,
    });
    assert!(bound, "x is bound to the constant 5 after folding: {:?}", opt);
    match run_ir_with_vm(&opt) {
        Ok(Some(VMValue::Int(5))) => {}
        other => panic!("expected integer 5, got {:?}", other),
    }
}

#[test]
fn copies_resolve_and_named_variables_stay() {
    let ir = compile_ir("func main() { var a = 1; var b = a; return b; }");
    let opt = optimize_ir(ir);
    assert!(assigns_name(&opt, "a"), "the named variable a must be retained: {:?}", opt);
    match run_ir_with_vm(&opt) {
        Ok(Some(VMValue::Int(1))) => {}
        other => panic!("expected integer 1, got {:?}", other),
    }
}

#[test]
fn division_by_zero_is_never_folded_and_faults_at_runtime() {
    let ir = compile_ir("func main() { return 10 / 0; }");
    let opt = optimize_ir(ir);
    let still_divides = opt.iter().any(|i| match i {
        IRInstr::BinaryOp(_, _, op, _) => op == "/",
        _ => false,
    });
    assert!(still_divides, "the division must stay a runtime operation: {:?}", opt);
    match run_ir_with_vm(&opt) {
        Err(RunError::Fault(VMFault::DivideByZero)) => {}
        other => panic!("expected a divide-by-zero fault, got {:?}", other),
    }
    match run_ir_with_vm(&compile_ir("func main() { return 10 / 0; }")) {
        Err(RunError::Fault(VMFault::DivideByZero)) => {}
        other => panic!("expected a divide-by-zero fault, got {:?}", other),
    }
}

#[test]
fn elimination_drops_reserved_pattern_names_only() {
    let ir = compile_ir("func main() { var t = 5; var keep = 9; return 3; }");
    let opt = optimize_ir(ir);
    assert!(!assigns_name(&opt, "t"), "the unread reserved-pattern name goes: {:?}", opt);
    assert!(assigns_name(&opt, "keep"), "an unread named variable stays: {:?}", opt);
    match run_ir_with_vm(&opt) {
        Ok(Some(VMValue::Int(3))) => {}
        other => panic!("expected integer 3, got {:?}", other),
    }
}

#[test]
fn compilation_is_deterministic() {
    let src = "func main() { var a = 2 * 21; var b = a; return b - 0; }";
    let ir1 = compile_ir(src);
    let ir2 = compile_ir(src);
    assert_eq!(format!("{:?}", ir1), format!("{:?}", ir2));
    let b1 = lower_ir_to_vm(&optimize_ir(ir1)).unwrap();
    let b2 = lower_ir_to_vm(&optimize_ir(ir2)).unwrap();
    assert_eq!(format!("{:?}", b1.instrs), format!("{:?}", b2.instrs));
}

#[test]
fn optimizer_preserves_the_result() {
    let sources = [
        "func main() { var a = 6; var b = a * 7; return b; }",
        "func main() { var s = \"ab\" + \"cd\"; return s; }",
        "func main() { var a = 1; var b = a; var c = b + b; return c; }",
        "func main() { var x = 100 - 58; return x / 6; }",
    ];
    for src in sources.iter() {
        let ir = compile_ir(src);
        let plain = run_ir_with_vm(&ir);
        let optimized = run_ir_with_vm(&optimize_ir(ir));
        assert_eq!(format!("{:?}", plain), format!("{:?}", optimized), "source: {}", src);
    }
}

#[test]
fn optimizer_is_idempotent() {
    let sources = [
        "func main() { var a = 6; var b = a * 7; return b; }",
        "func main() { var t = 5; var keep = 9; return 3; }",
        "func main() { var a = 1; var b = a; return b; }",
        "func main() { return 10 / 0; }",
    ];
    for src in sources.iter() {
        let once = optimize_ir(compile_ir(src));
        let twice = optimize_ir(optimize_ir(compile_ir(src)));
        assert_eq!(format!("{:?}", once), format!("{:?}", twice), "source: {}", src);
    }
}

#[test]
fn lowered_programs_store_before_they_load() {
    let sources = [
        "func main() { var a = 6; var b = a * 7; return b; }",
        "func main() { var t = 5; var keep = 9; return 3; }",
        "func main() { var a = 1; var b = a; return b; }",
        "func main() { var x = 2 + 3; return x; }",
    ];
    for src in sources.iter() {
        let prog = lower_ir_to_vm(&optimize_ir(compile_ir(src))).unwrap();
        let mut stored: Vec<String> = Vec::new();
        for instr in prog.instrs.iter() {
            match instr {
                VMInstr::Load(name) => {
                    assert!(
                        stored.iter().any(|s| s == name),
                        "load of {} before any store in {:?}",
                        name,
                        prog.instrs
                    );
                }
                VMInstr::Store(name) => stored.push(name.clone()),
                _ => {}
            }
        }
    }
}

#[test]
fn string_concatenation_folds_at_compile_time() {
    let ir = compile_ir("func main() { var s = \"foo\" + \"bar\"; return s; }");
    let opt = optimize_ir(ir);
    let folded = opt.iter().any(|i| match i {
        IRInstr::Assign(t, IRValue::Str(s)) => t == "s" && s == "foobar",
        _ => false,
    });
    assert!(folded, "string concatenation folds: {:?}", opt);
    match run_ir_with_vm(&opt) {
        Ok(Some(VMValue::Str(s))) => assert_eq!(s, "foobar"),
        other => panic!("expected a string, got {:?}", other),
    }
}

#[test]
fn program_without_return_yields_no_value() {
    let ir = compile_ir("func main() { var a = 1; }");
    match run_ir_with_vm(&ir) {
        Ok(None) => {}
        other => panic!("expected no value, got {:?}", other),
    }
}
