//! Three-address intermediate representation (IR) and the generator that
//! lowers a validated abstract syntax tree into a linear IR instruction list.

use vstd::prelude::*;

use crate::numerals::{dec_digits, u64_to_dec};
use crate::syntax_analyzer::{Expression, ExpressionView, Function, Statement, StatementView};

verus! {

/// A value operand of an IR instruction: a literal, or a reference by name to
/// a user variable or a compiler-generated temporary.
#[derive(Debug)]
pub enum IRValue {
    Int(i64),
    Bool(bool),
    Str(String),
    Var(String),
    Temp(String),
}

/// The mathematical image of an `IRValue`: strings become character sequences.
pub enum IRValueView {
    Int(i64),
    Bool(bool),
    Str(Seq<char>),
    Var(Seq<char>),
    Temp(Seq<char>),
}

impl DeepView for IRValue {
    type V = IRValueView;

    open spec fn deep_view(&self) -> IRValueView {
        match self {
            IRValue::Int(n) => IRValueView::Int(*n),
            IRValue::Bool(b) => IRValueView::Bool(*b),
            IRValue::Str(s) => IRValueView::Str(s@),
            IRValue::Var(n) => IRValueView::Var(n@),
            IRValue::Temp(n) => IRValueView::Temp(n@),
        }
    }
}

impl Clone for IRValue {
    fn clone(&self) -> (r: Self)
        ensures
            r == *self,
    {
        match self {
            IRValue::Int(n) => IRValue::Int(*n),
            IRValue::Bool(b) => IRValue::Bool(*b),
            IRValue::Str(s) => IRValue::Str(s.clone()),
            IRValue::Var(n) => IRValue::Var(n.clone()),
            IRValue::Temp(n) => IRValue::Temp(n.clone()),
        }
    }
}

impl IRValueView {
    /// A literal value, as opposed to a reference by name.
    pub open spec fn is_literal(self) -> bool {
        match self {
            IRValueView::Int(_) | IRValueView::Bool(_) | IRValueView::Str(_) => true,
            IRValueView::Var(_) | IRValueView::Temp(_) => false,
        }
    }

    /// The name carried by a name-reference value.
    pub open spec fn ref_name(self) -> Seq<char>
        recommends
            !self.is_literal(),
    {
        match self {
            IRValueView::Var(n) => n,
            IRValueView::Temp(n) => n,
            _ => Seq::empty(),
        }
    }
}

/// One three-address instruction over a flat namespace of names.
#[derive(Debug)]
pub enum IRInstr {
    /// `Assign(target, value)`: bind `target` to a literal or to the value of
    /// another name.
    Assign(String, IRValue),
    /// `BinaryOp(result, left, operator, right)`: apply the operator, written
    /// out textually, to the values of two names and bind the result.
    BinaryOp(String, String, String, String),
    /// `Return(name)`: finish with the value of `name`.
    Return(String),
}

/// The mathematical image of an `IRInstr`.
pub enum IRInstrView {
    Assign(Seq<char>, IRValueView),
    BinaryOp(Seq<char>, Seq<char>, Seq<char>, Seq<char>),
    Return(Seq<char>),
}

impl DeepView for IRInstr {
    type V = IRInstrView;

    open spec fn deep_view(&self) -> IRInstrView {
        match self {
            IRInstr::Assign(t, v) => IRInstrView::Assign(t@, v.deep_view()),
            IRInstr::BinaryOp(r, l, op, rr) => IRInstrView::BinaryOp(r@, l@, op@, rr@),
            IRInstr::Return(n) => IRInstrView::Return(n@),
        }
    }
}

impl Clone for IRInstr {
    fn clone(&self) -> (r: Self)
        ensures
            r == *self,
    {
        match self {
            IRInstr::Assign(t, v) => IRInstr::Assign(t.clone(), v.clone()),
            IRInstr::BinaryOp(r, l, op, rr) => {
                IRInstr::BinaryOp(r.clone(), l.clone(), op.clone(), rr.clone())
            },
            IRInstr::Return(n) => IRInstr::Return(n.clone()),
        }
    }
}

/// A copy of an IR list.
pub fn clone_ir_list(code: &Vec<IRInstr>) -> (r: Vec<IRInstr>)
    ensures
        r.deep_view() == code.deep_view(),
{
    let n = code.len();
    let mut out: Vec<IRInstr> = Vec::new();
    let mut i: usize = 0;
    while i < n
        invariant
            0 <= i <= n,
            n == code.deep_view().len(),
            out.deep_view() == code.deep_view().take(i as int),
        decreases n - i,
    {
        let ghost before = out.deep_view();
        out.push(code[i].clone());
        proof {
            assert(out.deep_view() =~= before.push(code.deep_view()[i as int]));
            assert(out.deep_view() =~= code.deep_view().take(i + 1));
        }
        i += 1;
    }
    proof {
        assert(code.deep_view().take(n as int) =~= code.deep_view());
    }
    out
}

/// The name of the `k`-th generated temporary: `t` then `k` in decimal.
pub open spec fn temp_name(k: nat) -> Seq<char> {
    seq!['t'] + dec_digits(k)
}

/// Materialize an operand: a name-reference is used directly, a literal is
/// spilled into a fresh temporary first.
pub open spec fn spill(v: IRValueView, c: nat) -> (Seq<char>, nat, Seq<IRInstrView>) {
    match v {
        IRValueView::Var(x) | IRValueView::Temp(x) => (x, c, Seq::empty()),
        _ => (
            temp_name(c + 1),
            c + 1,
            seq![IRInstrView::Assign(temp_name(c + 1), v)],
        ),
    }
}

/// Lower an expression from temporary counter `c`: the value it denotes, the
/// counter afterwards, and the instructions emitted.
pub open spec fn gen_expr(e: ExpressionView, c: nat) -> (IRValueView, nat, Seq<IRInstrView>)
    decreases e,
{
    match e {
        ExpressionView::Integer(n) => (IRValueView::Int(n), c, Seq::empty()),
        ExpressionView::Boolean(b) => (IRValueView::Bool(b), c, Seq::empty()),
        ExpressionView::String(s) => (IRValueView::Str(s), c, Seq::empty()),
        ExpressionView::Ident(x) => (IRValueView::Var(x), c, Seq::empty()),
        ExpressionView::BinaryOp { left, op, right } => {
            let (lv, c1, k1) = gen_expr(*left, c);
            let (rv, c2, k2) = gen_expr(*right, c1);
            let tmp = temp_name(c2 + 1);
            let (ln, c4, k3) = spill(lv, c2 + 1);
            let (rn, c5, k4) = spill(rv, c4);
            (
                IRValueView::Temp(tmp),
                c5,
                k1 + k2 + k3 + k4 + seq![IRInstrView::BinaryOp(tmp, ln, op, rn)],
            )
        },
    }
}

/// Lower one statement: the counter afterwards and the instructions emitted.
/// A returned literal is spilled first, so a return always carries a name.
pub open spec fn gen_stmt(s: StatementView, c: nat) -> (nat, Seq<IRInstrView>) {
    match s {
        StatementView::VarDecl { name, value } => {
            let (v, c1, k) = gen_expr(value, c);
            (c1, k + seq![IRInstrView::Assign(name, v)])
        },
        StatementView::Return(e) => {
            let (v, c1, k) = gen_expr(e, c);
            match v {
                IRValueView::Var(x) | IRValueView::Temp(x) => (
                    c1,
                    k + seq![IRInstrView::Return(x)],
                ),
                _ => (
                    c1 + 1,
                    k + seq![
                        IRInstrView::Assign(temp_name(c1 + 1), v),
                        IRInstrView::Return(temp_name(c1 + 1)),
                    ],
                ),
            }
        },
        StatementView::Expr(e) => {
            let (v, c1, k) = gen_expr(e, c);
            (c1, k)
        },
    }
}

/// Lower a statement list in order.
pub open spec fn gen_body(body: Seq<StatementView>, c: nat) -> (nat, Seq<IRInstrView>)
    decreases body.len(),
{
    if body.len() == 0 {
        (c, Seq::empty())
    } else {
        let (c1, k1) = gen_stmt(body[0], c);
        let (c2, k2) = gen_body(body.skip(1), c1);
        (c2, k1 + k2)
    }
}

/// The counter never moves backwards while lowering an expression.
pub proof fn lemma_gen_expr_mono(e: ExpressionView, c: nat)
    ensures
        gen_expr(e, c).1 >= c,
    decreases e,
{
    match e {
        ExpressionView::BinaryOp { left, op, right } => {
            lemma_gen_expr_mono(*left, c);
            lemma_gen_expr_mono(*right, gen_expr(*left, c).1);
        },
        _ => {},
    }
}

/// The counter never moves backwards while lowering statements.
pub proof fn lemma_gen_body_mono(body: Seq<StatementView>, c: nat)
    ensures
        gen_body(body, c).0 >= c,
    decreases body.len(),
{
    if body.len() > 0 {
        match body[0] {
            StatementView::VarDecl { name, value } => {
                lemma_gen_expr_mono(value, c);
            },
            StatementView::Return(e) => {
                lemma_gen_expr_mono(e, c);
            },
            StatementView::Expr(e) => {
                lemma_gen_expr_mono(e, c);
            },
        }
        lemma_gen_body_mono(body.skip(1), gen_stmt(body[0], c).0);
    }
}

/// Holds the state for generating IR: the temporary counter and the list of
/// instructions generated so far.
pub struct IRGenerator {
    temp_counter: usize,
    code: Vec<IRInstr>,
}

impl IRGenerator {
    /// The current temporary counter.
    pub closed spec fn counter(&self) -> nat {
        self.temp_counter as nat
    }

    /// The instructions generated so far.
    pub closed spec fn code_view(&self) -> Seq<IRInstrView> {
        self.code.deep_view()
    }

    pub fn new() -> (r: Self)
        ensures
            r.counter() == 0,
            r.code_view() == Seq::<IRInstrView>::empty(),
    {
        let r = IRGenerator { temp_counter: 0, code: Vec::new() };
        proof {
            assert(r.code.deep_view() =~= Seq::<IRInstrView>::empty());
        }
        r
    }

    /// Mint the next temporary name.
    fn new_temp(&mut self) -> (r: String)
        requires
            old(self).counter() + 1 <= usize::MAX,
        ensures
            final(self).counter() == old(self).counter() + 1,
            final(self).code_view() == old(self).code_view(),
            r@ == temp_name(old(self).counter() + 1),
    {
        self.temp_counter = self.temp_counter + 1;
        let mut s = String::new();
        proof {
            reveal_strlit("t");
        }
        s.append("t");
        let digits = u64_to_dec(self.temp_counter as u64);
        s.append(digits.as_str());
        proof {
            assert(s@ =~= temp_name(self.temp_counter as nat));
        }
        s
    }

    /// The name an operand contributes to a binary instruction: its own name
    /// for a reference, a fresh spilled temporary for a literal.
    fn spill_operand(&mut self, val: IRValue) -> (r: String)
        requires
            spill(val.deep_view(), old(self).counter()).1 <= usize::MAX,
        ensures
            r@ == spill(val.deep_view(), old(self).counter()).0,
            final(self).counter() == spill(val.deep_view(), old(self).counter()).1,
            final(self).code_view() == old(self).code_view() + spill(
                val.deep_view(),
                old(self).counter(),
            ).2,
    {
        let ghost spec_step = spill(val.deep_view(), old(self).counter());
        match val {
            IRValue::Var(v) => {
                proof {
                    assert(self.code.deep_view() =~= self.code.deep_view() + Seq::<
                        IRInstrView,
                    >::empty());
                }
                v
            },
            IRValue::Temp(v) => {
                proof {
                    assert(self.code.deep_view() =~= self.code.deep_view() + Seq::<
                        IRInstrView,
                    >::empty());
                }
                v
            },
            other => {
                let lit = self.new_temp();
                let ghost before = self.code.deep_view();
                self.code.push(IRInstr::Assign(lit.clone(), other));
                proof {
                    assert(self.code.deep_view() =~= before + spec_step.2);
                }
                lit
            },
        }
    }

    /// Lower an expression, appending its instructions and returning the
    /// value it denotes.
    fn generate_expression(&mut self, expr: &Expression) -> (r: IRValue)
        requires
            gen_expr(expr.deep_view(), old(self).counter()).1 <= usize::MAX,
        ensures
            r.deep_view() == gen_expr(expr.deep_view(), old(self).counter()).0,
            final(self).counter() == gen_expr(expr.deep_view(), old(self).counter()).1,
            final(self).code_view() == old(self).code_view() + gen_expr(
                expr.deep_view(),
                old(self).counter(),
            ).2,
        decreases *expr,
    {
        match expr {
            Expression::Integer(n) => {
                proof {
                    assert(self.code.deep_view() =~= self.code.deep_view() + Seq::<
                        IRInstrView,
                    >::empty());
                }
                IRValue::Int(*n)
            },
            Expression::Boolean(b) => {
                proof {
                    assert(self.code.deep_view() =~= self.code.deep_view() + Seq::<
                        IRInstrView,
                    >::empty());
                }
                IRValue::Bool(*b)
            },
            Expression::String(s) => {
                proof {
                    assert(self.code.deep_view() =~= self.code.deep_view() + Seq::<
                        IRInstrView,
                    >::empty());
                }
                IRValue::Str(s.clone())
            },
            Expression::Ident(name) => {
                proof {
                    assert(self.code.deep_view() =~= self.code.deep_view() + Seq::<
                        IRInstrView,
                    >::empty());
                }
                IRValue::Var(name.clone())
            },
            Expression::BinaryOp { left, op, right } => {
                let ghost e = expr.deep_view();
                let ghost c = old(self).counter();
                proof {
                    lemma_gen_expr_mono(left.deep_view(), c);
                    lemma_gen_expr_mono(right.deep_view(), gen_expr(left.deep_view(), c).1);
                }
                let left_val = self.generate_expression(&**left);
                let right_val = self.generate_expression(&**right);
                let tmp = self.new_temp();
                let l = self.spill_operand(left_val);
                let r = self.spill_operand(right_val);
                let ghost before = self.code.deep_view();
                self.code.push(IRInstr::BinaryOp(tmp.clone(), l, op.clone(), r));
                proof {
                    assert(self.code.deep_view() =~= before + seq![
                        self.code.deep_view().last(),
                    ]);
                    assert(final(self).code_view() =~= old(self).code_view() + gen_expr(
                        e,
                        c,
                    ).2);
                }
                IRValue::Temp(tmp)
            },
        }
    }

    /// Lower one statement, appending its instructions.
    fn generate_statement(&mut self, stmt: &Statement)
        requires
            gen_stmt(stmt.deep_view(), old(self).counter()).0 <= usize::MAX,
        ensures
            final(self).counter() == gen_stmt(stmt.deep_view(), old(self).counter()).0,
            final(self).code_view() == old(self).code_view() + gen_stmt(
                stmt.deep_view(),
                old(self).counter(),
            ).1,
    {
        let ghost c = old(self).counter();
        match stmt {
            Statement::VarDecl { name, value } => {
                proof {
                    lemma_gen_expr_mono(value.deep_view(), c);
                }
                let val = self.generate_expression(value);
                let ghost before = self.code.deep_view();
                self.code.push(IRInstr::Assign(name.clone(), val));
                proof {
                    assert(self.code.deep_view() =~= before + seq![self.code.deep_view().last()]);
                    assert(final(self).code_view() =~= old(self).code_view() + gen_stmt(
                        stmt.deep_view(),
                        c,
                    ).1);
                }
            },
            Statement::Return(expr) => {
                proof {
                    lemma_gen_expr_mono(expr.deep_view(), c);
                }
                let val = self.generate_expression(expr);
                match val {
                    IRValue::Temp(t) => {
                        let ghost before = self.code.deep_view();
                        self.code.push(IRInstr::Return(t));
                        proof {
                            assert(self.code.deep_view() =~= before + seq![
                                self.code.deep_view().last(),
                            ]);
                            assert(final(self).code_view() =~= old(self).code_view() + gen_stmt(
                                stmt.deep_view(),
                                c,
                            ).1);
                        }
                    },
                    IRValue::Var(t) => {
                        let ghost before = self.code.deep_view();
                        self.code.push(IRInstr::Return(t));
                        proof {
                            assert(self.code.deep_view() =~= before + seq![
                                self.code.deep_view().last(),
                            ]);
                            assert(final(self).code_view() =~= old(self).code_view() + gen_stmt(
                                stmt.deep_view(),
                                c,
                            ).1);
                        }
                    },
                    lit => {
                        let tmp = self.new_temp();
                        let ghost before = self.code.deep_view();
                        self.code.push(IRInstr::Assign(tmp.clone(), lit));
                        self.code.push(IRInstr::Return(tmp));
                        proof {
                            assert(self.code.deep_view() =~= before + seq![
                                self.code.deep_view()[self.code.deep_view().len() - 2],
                                self.code.deep_view().last(),
                            ]);
                            assert(final(self).code_view() =~= old(self).code_view() + gen_stmt(
                                stmt.deep_view(),
                                c,
                            ).1);
                        }
                    },
                }
            },
            Statement::Expr(expr) => {
                proof {
                    lemma_gen_expr_mono(expr.deep_view(), c);
                }
                let _ = self.generate_expression(expr);
                proof {
                    assert(final(self).code_view() =~= old(self).code_view() + gen_stmt(
                        stmt.deep_view(),
                        c,
                    ).1);
                }
            },
        }
    }

    /// Lower a whole function body, appending to any instructions already
    /// generated, and hand back a copy of the full list.
    pub fn generate_function(&mut self, func: &Function) -> (r: Vec<IRInstr>)
        requires
            gen_body(func.body.deep_view(), old(self).counter()).0 <= usize::MAX,
        ensures
            final(self).counter() == gen_body(func.body.deep_view(), old(self).counter()).0,
            final(self).code_view() == old(self).code_view() + gen_body(
                func.body.deep_view(),
                old(self).counter(),
            ).1,
            r.deep_view() == final(self).code_view(),
    {
        let n = func.body.len();
        let ghost body = func.body.deep_view();
        let ghost c0 = old(self).counter();
        let mut i: usize = 0;
        proof {
            assert(body.skip(0) =~= body);
            assert(old(self).code_view() + Seq::<IRInstrView>::empty() =~= old(self).code_view());
        }
        while i < n
            invariant
                0 <= i <= n,
                n == body.len(),
                body == func.body.deep_view(),
                gen_body(body, c0).0 <= usize::MAX,
                self.counter() == c0 + (gen_body(body.skip(i as int), self.counter()).0 - gen_body(
                    body,
                    c0,
                ).0) + (gen_body(body, c0).0 - c0) - (gen_body(
                    body.skip(i as int),
                    self.counter(),
                ).0 - self.counter()),
                gen_body(body.skip(i as int), self.counter()).0 == gen_body(body, c0).0,
                self.code_view() + gen_body(body.skip(i as int), self.counter()).1 == old(
                    self,
                ).code_view() + gen_body(body, c0).1,
            decreases n - i,
        {
            let ghost pre = body.skip(i as int);
            let ghost cc = self.counter();
            proof {
                assert(pre[0] == body[i as int]);
                assert(pre[0] == func.body.deep_view()[i as int]);
                assert(pre.skip(1) =~= body.skip(i + 1));
                lemma_gen_body_mono(pre.skip(1), gen_stmt(pre[0], cc).0);
            }
            self.generate_statement(&func.body[i]);
            proof {
                assert(self.code_view() + gen_body(body.skip(i + 1), self.counter()).1 =~= old(
                    self,
                ).code_view() + gen_body(body, c0).1);
            }
            i += 1;
        }
        proof {
            assert(body.skip(n as int) =~= Seq::<StatementView>::empty());
            assert(self.code_view() + Seq::<IRInstrView>::empty() =~= self.code_view());
        }
        clone_ir_list(&self.code)
    }
}

} // verus!
