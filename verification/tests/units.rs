//! Unit behavior of the stages: the scanner's token categories, the
//! parser's and checker's diagnostics, the passes one by one, the lowerer's
//! refusal of unknown operators, and the machine's fault kinds.

use toyc::intermediate_code_generator::{IRInstr, IRValue};
use toyc::lex_layer::{tokenize, LiteralType, Token};
use toyc::optimizer::{
    constant_fold_and_propagate, copy_propagation, dead_code_elimination, is_temporary_name,
};
use toyc::semantic_analyzer::{SemanticAnalyzer, SymbolTable, Type};
use toyc::syntax_analyzer::{Expression, Parser, Statement};
use toyc::target_code_generator::{
    lower_ir_to_vm, LowerError, VMFault, VMInstr, VMProgram, VMValue, VM,
};

fn toks(src: &str) -> Vec<Token> {
    tokenize::<String>(Ok(src)).unwrap()
}

#[test]
fn scanner_categorizes_tokens() {
    assert_eq!(
        toks("var x = 1;"),
        vec![
            Token::Keyword("var".to_string()),
            Token::Whitespace,
            Token::Identifier("x".to_string()),
            Token::Whitespace,
            Token::Operator("=".to_string()),
            Token::Whitespace,
            Token::Literal(LiteralType::Integer(1)),
            Token::Delimiter(';'),
        ]
    );
}

#[test]
fn scanner_collapses_whitespace_runs() {
    assert_eq!(
        toks("a  \t b"),
        vec![
            Token::Identifier("a".to_string()),
            Token::Whitespace,
            Token::Identifier("b".to_string()),
        ]
    );
}

#[test]
fn scanner_reads_comments_to_the_line_end() {
    assert_eq!(
        toks("// note\nx"),
        vec![Token::Comment, Token::Identifier("x".to_string())]
    );
    assert_eq!(toks("// only"), vec![Token::Comment]);
}

#[test]
fn scanner_reads_string_and_boolean_literals() {
    assert_eq!(
        toks("\"hi\" truth falsy"),
        vec![
            Token::Literal(LiteralType::String("hi".to_string())),
            Token::Whitespace,
            Token::Literal(LiteralType::Boolean(true)),
            Token::Whitespace,
            Token::Literal(LiteralType::Boolean(false)),
        ]
    );
}

#[test]
fn scanner_marks_unknown_characters() {
    assert_eq!(toks("@"), vec![Token::Unknown('@')]);
}

#[test]
fn scanner_marks_numbers_that_do_not_fit() {
    assert_eq!(toks("99999999999999999999"), vec![Token::Unknown('9')]);
    assert_eq!(
        toks("9223372036854775807"),
        vec![Token::Literal(LiteralType::Integer(i64::MAX))]
    );
}

#[test]
fn parser_builds_the_syntax_tree() {
    let tokens = toks("func main(p q) { var a = 1 + 2; return a; }");
    let mut parser = Parser::new(&tokens);
    let func = parser.parse_function().unwrap();
    assert_eq!(func.name, "main");
    assert_eq!(func.params, vec!["p".to_string(), "q".to_string()]);
    assert_eq!(func.body.len(), 2);
    match &func.body[0] {
        Statement::VarDecl { name, value } => {
            assert_eq!(name, "a");
            match value {
                Expression::BinaryOp { op, .. } => assert_eq!(op, "+"),
                other => panic!("expected a binary operation, got {:?}", other),
            }
        }
        other => panic!("expected a declaration, got {:?}", other),
    }
}

#[test]
fn parser_groups_operators_to_the_right() {
    let tokens = toks("func main() { return 1 - 2 - 3; }");
    let mut parser = Parser::new(&tokens);
    let func = parser.parse_function().unwrap();
    match &func.body[0] {
        Statement::Return(Expression::BinaryOp { left, op, right }) => {
            assert_eq!(op, "-");
            assert!(matches!(**left, Expression::Integer(1)));
            assert!(matches!(**right, Expression::BinaryOp { .. }));
        }
        other => panic!("expected a return of a binary operation, got {:?}", other),
    }
}

#[test]
fn parser_reads_parenthesized_expressions() {
    let tokens = toks("func main() { return (1 + 2) * 3; }");
    let mut parser = Parser::new(&tokens);
    let func = parser.parse_function().unwrap();
    match &func.body[0] {
        Statement::Return(Expression::BinaryOp { left, op, .. }) => {
            assert_eq!(op, "*");
            assert!(matches!(**left, Expression::BinaryOp { .. }));
        }
        other => panic!("expected a return of a product, got {:?}", other),
    }
}

#[test]
fn parser_reports_missing_pieces() {
    let tokens = toks("func { }");
    let mut parser = Parser::new(&tokens);
    assert_eq!(parser.parse_function().unwrap_err(), "Expected function name");
    let tokens2 = toks("var x = 1;");
    let mut parser2 = Parser::new(&tokens2);
    assert_eq!(parser2.parse_function().unwrap_err(), "Expected keyword 'func'");
    let tokens3 = toks("func f() { var x = 1 }");
    let mut parser3 = Parser::new(&tokens3);
    assert_eq!(parser3.parse_function().unwrap_err(), "Expected delimiter ';'");
}

fn analyzed(src: &str) -> Result<(), String> {
    let tokens = toks(src);
    let mut parser = Parser::new(&tokens);
    let func = parser.parse_function().unwrap();
    let mut sema = SemanticAnalyzer::new();
    sema.analyze_function(&func)
}

#[test]
fn checker_accepts_well_typed_bodies() {
    assert!(analyzed("func f() { var a = 1; var b = a + 2; return b; }").is_ok());
    assert!(analyzed("func f() { var s = \"x\" + \"y\"; return s; }").is_ok());
}

#[test]
fn checker_rejects_undeclared_names() {
    assert_eq!(
        analyzed("func f() { return y; }").unwrap_err(),
        "Use of undeclared variable 'y'"
    );
}

#[test]
fn checker_rejects_double_declarations() {
    assert_eq!(
        analyzed("func f() { var a = 1; var a = 2; return a; }").unwrap_err(),
        "Variable 'a' already declared"
    );
}

#[test]
fn checker_rejects_mixed_operand_types() {
    assert_eq!(
        analyzed("func f() { var a = 1; var s = \"x\"; var c = a + s; return c; }").unwrap_err(),
        "Type mismatch in binary op '+': Int vs Str"
    );
    assert_eq!(
        analyzed("func f() { var s = \"x\"; var c = s - s; return c; }").unwrap_err(),
        "Operator '-' not supported for Str"
    );
}

#[test]
fn symbol_table_looks_up_what_it_holds() {
    let mut table = SymbolTable::new();
    assert!(table.insert("a".to_string(), Type::Int).is_ok());
    assert_eq!(table.lookup("a"), Some(&Type::Int));
    assert_eq!(table.lookup("b"), None);
    assert_eq!(
        table.insert("a".to_string(), Type::Str).unwrap_err(),
        "Variable 'a' already declared"
    );
}

#[test]
fn reserved_pattern_is_t_then_digits() {
    assert!(is_temporary_name("t1"));
    assert!(is_temporary_name("t42"));
    assert!(is_temporary_name("t"));
    assert!(!is_temporary_name("x"));
    assert!(!is_temporary_name("a1"));
    assert!(!is_temporary_name("keep"));
    assert!(!is_temporary_name("t1a"));
    assert!(!is_temporary_name("1t"));
    assert!(!is_temporary_name(""));
    assert!(!is_temporary_name("t_1"));
}

#[test]
fn folding_propagates_through_names() {
    let code = vec![
        IRInstr::Assign("x".to_string(), IRValue::Int(2)),
        IRInstr::Assign("y".to_string(), IRValue::Var("x".to_string())),
    ];
    let folded = constant_fold_and_propagate(&code);
    assert!(matches!(&folded[1], IRInstr::Assign(t, IRValue::Int(2)) if t == "y"));
}

#[test]
fn folding_pins_a_constant_return() {
    let code = vec![
        IRInstr::Assign("x".to_string(), IRValue::Int(5)),
        IRInstr::Assign("keep".to_string(), IRValue::Int(9)),
        IRInstr::Return("x".to_string()),
    ];
    let folded = constant_fold_and_propagate(&code);
    assert_eq!(folded.len(), 4);
    assert!(matches!(&folded[2], IRInstr::Assign(t, IRValue::Int(5)) if t == "x"));
    assert!(matches!(&folded[3], IRInstr::Return(t) if t == "x"));
    let again = constant_fold_and_propagate(&folded);
    assert_eq!(format!("{:?}", folded), format!("{:?}", again));
}

#[test]
fn copies_rewrite_their_uses() {
    let code = vec![
        IRInstr::Assign("a".to_string(), IRValue::Var("b".to_string())),
        IRInstr::Return("a".to_string()),
    ];
    let rewritten = copy_propagation(&code);
    assert!(matches!(&rewritten[1], IRInstr::Return(t) if t == "b"));
}

#[test]
fn elimination_iterates_to_a_fixpoint() {
    let code = vec![
        IRInstr::Assign("t1".to_string(), IRValue::Int(1)),
        IRInstr::Assign("t2".to_string(), IRValue::Temp("t1".to_string())),
        IRInstr::Assign("out".to_string(), IRValue::Int(3)),
        IRInstr::Return("out".to_string()),
    ];
    let cleaned = dead_code_elimination(&code);
    assert_eq!(cleaned.len(), 2);
    assert!(matches!(&cleaned[0], IRInstr::Assign(t, IRValue::Int(3)) if t == "out"));
}

#[test]
fn lowerer_refuses_unknown_operators() {
    let code = vec![
        IRInstr::Assign("a".to_string(), IRValue::Int(1)),
        IRInstr::Assign("b".to_string(), IRValue::Int(2)),
        IRInstr::BinaryOp("c".to_string(), "a".to_string(), "%".to_string(), "b".to_string()),
    ];
    match lower_ir_to_vm(&code) {
        Err(LowerError::UnknownOperator(op)) => assert_eq!(op, "%"),
        other => panic!("expected an unknown-operator error, got {:?}", other),
    }
}

#[test]
fn lowerer_emits_one_block_per_instruction() {
    let code = vec![
        IRInstr::Assign("a".to_string(), IRValue::Int(1)),
        IRInstr::BinaryOp("c".to_string(), "a".to_string(), "+".to_string(), "a".to_string()),
        IRInstr::Return("c".to_string()),
    ];
    let prog = lower_ir_to_vm(&code).unwrap();
    assert_eq!(
        format!("{:?}", prog.instrs),
        format!(
            "{:?}",
            vec![
                VMInstr::PushInt(1),
                VMInstr::Store("a".to_string()),
                VMInstr::Load("a".to_string()),
                VMInstr::Load("a".to_string()),
                VMInstr::Add,
                VMInstr::Store("c".to_string()),
                VMInstr::Load("c".to_string()),
                VMInstr::Ret,
            ]
        )
    );
}

fn run_program(instrs: Vec<VMInstr>) -> Result<Option<VMValue>, VMFault> {
    let mut vm = VM::new();
    vm.run(&VMProgram { instrs })
}

#[test]
fn machine_faults_on_stack_underflow() {
    match run_program(vec![VMInstr::Add]) {
        Err(VMFault::StackUnderflow) => {}
        other => panic!("expected a stack underflow, got {:?}", other),
    }
    match run_program(vec![VMInstr::Ret]) {
        Err(VMFault::StackUnderflow) => {}
        other => panic!("expected a stack underflow, got {:?}", other),
    }
}

#[test]
fn machine_faults_on_unbound_names() {
    match run_program(vec![VMInstr::Load("nowhere".to_string())]) {
        Err(VMFault::UnboundVariable) => {}
        other => panic!("expected an unbound-variable fault, got {:?}", other),
    }
}

#[test]
fn machine_faults_on_type_mismatches() {
    match run_program(vec![VMInstr::PushBool(true), VMInstr::PushBool(false), VMInstr::Add]) {
        Err(VMFault::TypeMismatch) => {}
        other => panic!("expected a type mismatch, got {:?}", other),
    }
    match run_program(vec![
        VMInstr::PushStr("a".to_string()),
        VMInstr::PushInt(1),
        VMInstr::Sub,
    ]) {
        Err(VMFault::TypeMismatch) => {}
        other => panic!("expected a type mismatch, got {:?}", other),
    }
    match run_program(vec![
        VMInstr::PushStr("a".to_string()),
        VMInstr::PushInt(1),
        VMInstr::Concat,
    ]) {
        Err(VMFault::TypeMismatch) => {}
        other => panic!("expected a type mismatch, got {:?}", other),
    }
}

#[test]
fn machine_adds_and_concatenates() {
    match run_program(vec![VMInstr::PushInt(2), VMInstr::PushInt(40), VMInstr::Add, VMInstr::Ret])
    {
        Ok(Some(VMValue::Int(42))) => {}
        other => panic!("expected 42, got {:?}", other),
    }
    match run_program(vec![
        VMInstr::PushStr("n=".to_string()),
        VMInstr::PushInt(-5),
        VMInstr::Add,
        VMInstr::Ret,
    ]) {
        Ok(Some(VMValue::Str(s))) => assert_eq!(s, "n=-5"),
        other => panic!("expected a string, got {:?}", other),
    }
    match run_program(vec![
        VMInstr::PushInt(7),
        VMInstr::PushStr("!".to_string()),
        VMInstr::Add,
        VMInstr::Ret,
    ]) {
        Ok(Some(VMValue::Str(s))) => assert_eq!(s, "7!"),
        other => panic!("expected a string, got {:?}", other),
    }
    match run_program(vec![
        VMInstr::PushStr("ab".to_string()),
        VMInstr::PushStr("cd".to_string()),
        VMInstr::Concat,
        VMInstr::Ret,
    ]) {
        Ok(Some(VMValue::Str(s))) => assert_eq!(s, "abcd"),
        other => panic!("expected a string, got {:?}", other),
    }
}

#[test]
fn machine_division_truncates_and_wraps() {
    match run_program(vec![VMInstr::PushInt(-7), VMInstr::PushInt(2), VMInstr::Div, VMInstr::Ret])
    {
        Ok(Some(VMValue::Int(-3))) => {}
        other => panic!("expected -3, got {:?}", other),
    }
    match run_program(vec![
        VMInstr::PushInt(i64::MIN),
        VMInstr::PushInt(-1),
        VMInstr::Div,
        VMInstr::Ret,
    ]) {
        Ok(Some(VMValue::Int(v))) => assert_eq!(v, i64::MIN),
        other => panic!("expected the wrapped minimum, got {:?}", other),
    }
    match run_program(vec![VMInstr::PushInt(1), VMInstr::PushInt(0), VMInstr::Div]) {
        Err(VMFault::DivideByZero) => {}
        other => panic!("expected a divide-by-zero fault, got {:?}", other),
    }
}

#[test]
fn machine_stores_overwrite_earlier_bindings() {
    match run_program(vec![
        VMInstr::PushInt(1),
        VMInstr::Store("a".to_string()),
        VMInstr::PushInt(2),
        VMInstr::Store("a".to_string()),
        VMInstr::Load("a".to_string()),
        VMInstr::Ret,
    ]) {
        Ok(Some(VMValue::Int(2))) => {}
        other => panic!("expected 2, got {:?}", other),
    }
}

#[test]
fn machine_keeps_bindings_across_runs() {
    let mut vm = VM::new();
    let first = VMProgram {
        instrs: vec![VMInstr::PushInt(11), VMInstr::Store("a".to_string())],
    };
    match vm.run(&first) {
        Ok(None) => {}
        other => panic!("expected no value, got {:?}", other),
    }
    let second = VMProgram { instrs: vec![VMInstr::Load("a".to_string()), VMInstr::Ret] };
    match vm.run(&second) {
        Ok(Some(VMValue::Int(11))) => {}
        other => panic!("expected the binding to persist, got {:?}", other),
    }
}

#[test]
fn scanner_passes_a_reader_error_through() {
    match tokenize::<String>(Err("gone".to_string())) {
        Err(e) => assert_eq!(e, "gone"),
        Ok(t) => panic!("expected the error back, got {:?}", t),
    }
}
