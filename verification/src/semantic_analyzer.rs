//! Static checking: every identifier is declared before use, never declared
//! twice, and every operator is applied to operands of the right types.

use vstd::prelude::*;

use crate::strmap::StrMap;
use crate::syntax_analyzer::{Expression, ExpressionView, Function, Statement, StatementView};
use crate::text::str_eq;

verus! {

/// A static type of the language.
#[derive(Debug, Clone, Copy, PartialEq, Eq, Structural)]
pub enum Type {
    Int,
    Bool,
    Str,
    /// A fallback that the checker never assigns.
    Unknown,
}

impl DeepView for Type {
    type V = Type;

    open spec fn deep_view(&self) -> Type {
        *self
    }
}

/// How a type prints inside a diagnostic.
pub open spec fn type_text(t: Type) -> Seq<char> {
    match t {
        Type::Int => "Int"@,
        Type::Bool => "Bool"@,
        Type::Str => "Str"@,
        Type::Unknown => "Unknown"@,
    }
}

fn type_text_exec(t: Type) -> (r: &'static str)
    ensures
        r@ == type_text(t),
{
    proof {
        reveal_strlit("Int");
        reveal_strlit("Bool");
        reveal_strlit("Str");
        reveal_strlit("Unknown");
    }
    match t {
        Type::Int => "Int",
        Type::Bool => "Bool",
        Type::Str => "Str",
        Type::Unknown => "Unknown",
    }
}

/// The checker's symbol table: each declared variable's type.
pub struct SymbolTable {
    variables: StrMap<Type>,
}

impl View for SymbolTable {
    type V = Map<Seq<char>, Type>;

    closed spec fn view(&self) -> Map<Seq<char>, Type> {
        self.variables@
    }
}

/// The diagnostic for a variable declared twice.
pub open spec fn msg_redeclared(name: Seq<char>) -> Seq<char> {
    "Variable '"@ + name + "' already declared"@
}

/// The diagnostic for an identifier that was never declared.
pub open spec fn msg_undeclared(name: Seq<char>) -> Seq<char> {
    "Use of undeclared variable '"@ + name + "'"@
}

/// The diagnostic for a binary operation over two different types.
pub open spec fn msg_mismatch(op: Seq<char>, lt: Type, rt: Type) -> Seq<char> {
    "Type mismatch in binary op '"@ + op + "': "@ + type_text(lt) + " vs "@ + type_text(rt)
}

/// The diagnostic for an operator applied to types it does not accept.
pub open spec fn msg_bad_operands(op: Seq<char>, lt: Type) -> Seq<char> {
    "Operator '"@ + op + "' not supported for "@ + type_text(lt)
}

/// The diagnostic for an operator outside the language.
pub open spec fn msg_unknown_op(op: Seq<char>) -> Seq<char> {
    "Unknown operator '"@ + op + "'"@
}

impl SymbolTable {
    pub closed spec fn wf(&self) -> bool {
        self.variables.wf()
    }

    pub fn new() -> (r: Self)
        ensures
            r.wf(),
            r@ == Map::<Seq<char>, Type>::empty(),
    {
        SymbolTable { variables: StrMap::new() }
    }

    /// Declare a variable; a name may be declared only once in the flat
    /// scope, and a second declaration is refused with its diagnostic.
    pub fn insert(&mut self, name: String, ty: Type) -> (r: Result<(), String>)
        requires
            old(self).wf(),
        ensures
            final(self).wf(),
            old(self)@.contains_key(name@) ==> (r matches Err(m) && m@ == msg_redeclared(name@)
                && final(self)@ == old(self)@),
            !old(self)@.contains_key(name@) ==> r is Ok && final(self)@ == old(self)@.insert(
                name@,
                ty,
            ),
    {
        if self.variables.get(&name).is_some() {
            let mut m = String::new();
            proof {
                reveal_strlit("Variable '");
                reveal_strlit("' already declared");
            }
            m.append("Variable '");
            m.append(name.as_str());
            m.append("' already declared");
            return Err(m);
        }
        self.variables.insert(name, ty);
        Ok(())
    }

    /// The declared type of a name, if any.
    pub fn lookup(&self, name: &str) -> (r: Option<&Type>)
        requires
            self.wf(),
        ensures
            match r {
                Some(t) => self@.contains_key(name@) && *t == self@[name@],
                None => !self@.contains_key(name@),
            },
    {
        let owned = String::from_str(name);
        self.variables.get(&owned)
    }
}

/// The type of an expression under a symbol table, or the first diagnostic.
pub open spec fn spec_type_of(e: ExpressionView, syms: Map<Seq<char>, Type>) -> Result<
    Type,
    Seq<char>,
>
    decreases e,
{
    match e {
        ExpressionView::Integer(_) => Ok(Type::Int),
        ExpressionView::Boolean(_) => Ok(Type::Bool),
        ExpressionView::String(_) => Ok(Type::Str),
        ExpressionView::Ident(x) => if syms.contains_key(x) {
            Ok(syms[x])
        } else {
            Err(msg_undeclared(x))
        },
        ExpressionView::BinaryOp { left, op, right } => match spec_type_of(*left, syms) {
            Err(m) => Err(m),
            Ok(lt) => match spec_type_of(*right, syms) {
                Err(m) => Err(m),
                Ok(rt) => if lt != rt {
                    Err(msg_mismatch(op, lt, rt))
                } else if op == "+"@ {
                    if lt == Type::Int && rt == Type::Int {
                        Ok(Type::Int)
                    } else if lt == Type::Str && rt == Type::Str {
                        Ok(Type::Str)
                    } else {
                        Err(msg_bad_operands(op, lt))
                    }
                } else if op == "-"@ || op == "*"@ || op == "/"@ {
                    if lt == Type::Int && rt == Type::Int {
                        Ok(Type::Int)
                    } else {
                        Err(msg_bad_operands(op, lt))
                    }
                } else if op == "=="@ || op == "!="@ {
                    Ok(Type::Bool)
                } else {
                    Err(msg_unknown_op(op))
                },
            },
        },
    }
}

/// Check one statement: the symbol table afterwards, or the first
/// diagnostic.
pub open spec fn spec_check_stmt(s: StatementView, syms: Map<Seq<char>, Type>) -> Result<
    Map<Seq<char>, Type>,
    Seq<char>,
> {
    match s {
        StatementView::VarDecl { name, value } => match spec_type_of(value, syms) {
            Err(m) => Err(m),
            Ok(ty) => if syms.contains_key(name) {
                Err(msg_redeclared(name))
            } else {
                Ok(syms.insert(name, ty))
            },
        },
        StatementView::Return(e) => match spec_type_of(e, syms) {
            Err(m) => Err(m),
            Ok(_) => Ok(syms),
        },
        StatementView::Expr(e) => match spec_type_of(e, syms) {
            Err(m) => Err(m),
            Ok(_) => Ok(syms),
        },
    }
}

/// Check a statement list in order, stopping at the first diagnostic.
pub open spec fn spec_check_body(body: Seq<StatementView>, syms: Map<Seq<char>, Type>) -> Result<
    Map<Seq<char>, Type>,
    Seq<char>,
>
    decreases body.len(),
{
    if body.len() == 0 {
        Ok(syms)
    } else {
        match spec_check_stmt(body[0], syms) {
            Err(m) => Err(m),
            Ok(s2) => spec_check_body(body.skip(1), s2),
        }
    }
}

/// The static checker. It owns the symbol table it fills while walking a
/// function body.
pub struct SemanticAnalyzer {
    symbols: SymbolTable,
}

impl SemanticAnalyzer {
    pub closed spec fn wf(&self) -> bool {
        self.symbols.wf()
    }

    /// The declarations recorded so far.
    pub closed spec fn symbols_view(&self) -> Map<Seq<char>, Type> {
        self.symbols@
    }

    pub fn new() -> (r: Self)
        ensures
            r.wf(),
            r.symbols_view() == Map::<Seq<char>, Type>::empty(),
    {
        SemanticAnalyzer { symbols: SymbolTable::new() }
    }

    /// The type of an expression under the current table, or the first
    /// diagnostic, exactly as the specification assigns it.
    fn analyze_expression(&mut self, expr: &Expression) -> (r: Result<Type, String>)
        requires
            old(self).wf(),
        ensures
            final(self).wf(),
            final(self).symbols_view() == old(self).symbols_view(),
            match r {
                Ok(t) => spec_type_of(expr.deep_view(), old(self).symbols_view()) == Ok::<
                    Type,
                    Seq<char>,
                >(t),
                Err(m) => spec_type_of(expr.deep_view(), old(self).symbols_view()) == Err::<
                    Type,
                    Seq<char>,
                >(m@),
            },
        decreases *expr,
    {
        match expr {
            Expression::Integer(_) => Ok(Type::Int),
            Expression::Boolean(_) => Ok(Type::Bool),
            Expression::String(_) => Ok(Type::Str),
            Expression::Ident(name) => {
                match self.symbols.lookup(name.as_str()) {
                    Some(t) => Ok(*t),
                    None => {
                        let mut m = String::new();
                        proof {
                            reveal_strlit("Use of undeclared variable '");
                            reveal_strlit("'");
                        }
                        m.append("Use of undeclared variable '");
                        m.append(name.as_str());
                        m.append("'");
                        Err(m)
                    },
                }
            },
            Expression::BinaryOp { left, op, right } => {
                let lt = match self.analyze_expression(&**left) {
                    Ok(t) => t,
                    Err(m) => {
                        return Err(m);
                    },
                };
                let rt = match self.analyze_expression(&**right) {
                    Ok(t) => t,
                    Err(m) => {
                        return Err(m);
                    },
                };
                if !(lt == rt) {
                    let mut m = String::new();
                    proof {
                        reveal_strlit("Type mismatch in binary op '");
                        reveal_strlit("': ");
                        reveal_strlit(" vs ");
                    }
                    m.append("Type mismatch in binary op '");
                    m.append(op.as_str());
                    m.append("': ");
                    m.append(type_text_exec(lt));
                    m.append(" vs ");
                    m.append(type_text_exec(rt));
                    return Err(m);
                }
                if str_eq(op.as_str(), "+") {
                    if lt == Type::Int && rt == Type::Int {
                        Ok(Type::Int)
                    } else if lt == Type::Str && rt == Type::Str {
                        Ok(Type::Str)
                    } else {
                        Err(self.bad_operands_message(op, lt))
                    }
                } else if str_eq(op.as_str(), "-") || str_eq(op.as_str(), "*") || str_eq(
                    op.as_str(),
                    "/",
                ) {
                    if lt == Type::Int && rt == Type::Int {
                        Ok(Type::Int)
                    } else {
                        Err(self.bad_operands_message(op, lt))
                    }
                } else if str_eq(op.as_str(), "==") || str_eq(op.as_str(), "!=") {
                    Ok(Type::Bool)
                } else {
                    let mut m = String::new();
                    proof {
                        reveal_strlit("Unknown operator '");
                        reveal_strlit("'");
                    }
                    m.append("Unknown operator '");
                    m.append(op.as_str());
                    m.append("'");
                    Err(m)
                }
            },
        }
    }

    fn bad_operands_message(&self, op: &String, lt: Type) -> (r: String)
        ensures
            r@ == msg_bad_operands(op@, lt),
    {
        let mut m = String::new();
        proof {
            reveal_strlit("Operator '");
            reveal_strlit("' not supported for ");
        }
        m.append("Operator '");
        m.append(op.as_str());
        m.append("' not supported for ");
        m.append(type_text_exec(lt));
        m
    }

    /// Check one statement, recording a declaration.
    fn analyze_statement(&mut self, stmt: &Statement) -> (r: Result<(), String>)
        requires
            old(self).wf(),
        ensures
            final(self).wf(),
            match r {
                Ok(_) => spec_check_stmt(stmt.deep_view(), old(self).symbols_view()) == Ok::<
                    Map<Seq<char>, Type>,
                    Seq<char>,
                >(final(self).symbols_view()),
                Err(m) => spec_check_stmt(stmt.deep_view(), old(self).symbols_view()) == Err::<
                    Map<Seq<char>, Type>,
                    Seq<char>,
                >(m@),
            },
    {
        match stmt {
            Statement::VarDecl { name, value } => {
                let ty = match self.analyze_expression(value) {
                    Ok(t) => t,
                    Err(m) => {
                        return Err(m);
                    },
                };
                match self.symbols.insert(name.clone(), ty) {
                    Ok(_) => Ok(()),
                    Err(m) => Err(m),
                }
            },
            Statement::Return(expr) => {
                match self.analyze_expression(expr) {
                    Ok(_) => Ok(()),
                    Err(m) => Err(m),
                }
            },
            Statement::Expr(expr) => {
                match self.analyze_expression(expr) {
                    Ok(_) => Ok(()),
                    Err(m) => Err(m),
                }
            },
        }
    }

    /// Check a whole function body against an initially growing table,
    /// stopping at the first diagnostic.
    pub fn analyze_function(&mut self, func: &Function) -> (r: Result<(), String>)
        requires
            old(self).wf(),
        ensures
            final(self).wf(),
            match r {
                Ok(_) => spec_check_body(func.body.deep_view(), old(self).symbols_view()) == Ok::<
                    Map<Seq<char>, Type>,
                    Seq<char>,
                >(final(self).symbols_view()),
                Err(m) => spec_check_body(func.body.deep_view(), old(self).symbols_view()) == Err::<
                    Map<Seq<char>, Type>,
                    Seq<char>,
                >(m@),
            },
    {
        let n = func.body.len();
        let ghost body = func.body.deep_view();
        let mut i: usize = 0;
        proof {
            assert(body.skip(0) =~= body);
        }
        while i < n
            invariant
                0 <= i <= n,
                n == body.len(),
                body == func.body.deep_view(),
                self.wf(),
                spec_check_body(body, old(self).symbols_view()) == spec_check_body(
                    body.skip(i as int),
                    self.symbols_view(),
                ),
            decreases n - i,
        {
            let ghost pre = body.skip(i as int);
            proof {
                assert(pre[0] == body[i as int]);
                assert(pre[0] == func.body.deep_view()[i as int]);
                assert(pre.skip(1) =~= body.skip(i + 1));
            }
            match self.analyze_statement(&func.body[i]) {
                Ok(_) => {},
                Err(m) => {
                    return Err(m);
                },
            }
            i += 1;
        }
        proof {
            assert(body.skip(n as int) =~= Seq::<StatementView>::empty());
        }
        Ok(())
    }
}

} // verus!
