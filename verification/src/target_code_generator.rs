//! The stack machine: bytecode instructions, deterministic lowering from IR,
//! and the interpreter. The interpreter's contract says it computes exactly
//! the specification-level run of its program.

use vstd::prelude::*;

use crate::intermediate_code_generator::{IRInstr, IRInstrView, IRValue, IRValueView};
use crate::numerals::i64_to_dec;
use crate::semantics::{
    add_values, concat_values, div_values, mul_values, sub_values, vm_run, vm_step_binary,
    stack_arg, EnvView, VmOutcome,
};
use crate::strmap::StrMap;
use crate::text::str_eq;

verus! {

/// One bytecode instruction. Execution is sequential; the set holds exactly
/// what the lowerer can produce.
#[derive(Debug)]
pub enum VMInstr {
    PushInt(i64),
    PushBool(bool),
    PushStr(String),
    /// Push the active frame's binding of a name.
    Load(String),
    /// Pop one value and bind it to a name in the active frame.
    Store(String),
    Add,
    Sub,
    Mul,
    Div,
    /// String-only concatenation.
    Concat,
    /// Halt, returning the top of the stack.
    Ret,
}

/// The mathematical image of a `VMInstr`.
pub enum VMInstrView {
    PushInt(i64),
    PushBool(bool),
    PushStr(Seq<char>),
    Load(Seq<char>),
    Store(Seq<char>),
    Add,
    Sub,
    Mul,
    Div,
    Concat,
    Ret,
}

impl DeepView for VMInstr {
    type V = VMInstrView;

    open spec fn deep_view(&self) -> VMInstrView {
        match self {
            VMInstr::PushInt(n) => VMInstrView::PushInt(*n),
            VMInstr::PushBool(b) => VMInstrView::PushBool(*b),
            VMInstr::PushStr(s) => VMInstrView::PushStr(s@),
            VMInstr::Load(x) => VMInstrView::Load(x@),
            VMInstr::Store(x) => VMInstrView::Store(x@),
            VMInstr::Add => VMInstrView::Add,
            VMInstr::Sub => VMInstrView::Sub,
            VMInstr::Mul => VMInstrView::Mul,
            VMInstr::Div => VMInstrView::Div,
            VMInstr::Concat => VMInstrView::Concat,
            VMInstr::Ret => VMInstrView::Ret,
        }
    }
}

impl Clone for VMInstr {
    fn clone(&self) -> (r: Self)
        ensures
            r == *self,
    {
        match self {
            VMInstr::PushInt(n) => VMInstr::PushInt(*n),
            VMInstr::PushBool(b) => VMInstr::PushBool(*b),
            VMInstr::PushStr(s) => VMInstr::PushStr(s.clone()),
            VMInstr::Load(x) => VMInstr::Load(x.clone()),
            VMInstr::Store(x) => VMInstr::Store(x.clone()),
            VMInstr::Add => VMInstr::Add,
            VMInstr::Sub => VMInstr::Sub,
            VMInstr::Mul => VMInstr::Mul,
            VMInstr::Div => VMInstr::Div,
            VMInstr::Concat => VMInstr::Concat,
            VMInstr::Ret => VMInstr::Ret,
        }
    }
}

/// A runtime value: the machine manipulates integers, booleans and strings.
#[derive(Debug, PartialEq)]
pub enum VMValue {
    Int(i64),
    Bool(bool),
    Str(String),
}

/// The mathematical image of a `VMValue`.
pub enum VMValueView {
    Int(i64),
    Bool(bool),
    Str(Seq<char>),
}

impl DeepView for VMValue {
    type V = VMValueView;

    open spec fn deep_view(&self) -> VMValueView {
        match self {
            VMValue::Int(n) => VMValueView::Int(*n),
            VMValue::Bool(b) => VMValueView::Bool(*b),
            VMValue::Str(s) => VMValueView::Str(s@),
        }
    }
}

impl Clone for VMValue {
    fn clone(&self) -> (r: Self)
        ensures
            r == *self,
    {
        match self {
            VMValue::Int(n) => VMValue::Int(*n),
            VMValue::Bool(b) => VMValue::Bool(*b),
            VMValue::Str(s) => VMValue::Str(s.clone()),
        }
    }
}

/// The four runtime fault kinds. Every fault aborts the run and is returned
/// to the caller; the machine never panics.
#[derive(Debug, Clone, Copy, PartialEq, Eq, Structural)]
pub enum VMFault {
    StackUnderflow,
    UnboundVariable,
    TypeMismatch,
    DivideByZero,
}

/// One call frame: the local bindings of one execution context.
pub struct Frame {
    locals: StrMap<VMValue>,
}

impl View for Frame {
    type V = EnvView;

    closed spec fn view(&self) -> EnvView {
        self.locals@
    }
}

impl Frame {
    pub closed spec fn wf(&self) -> bool {
        self.locals.wf()
    }

    /// A frame with no bindings.
    pub fn new() -> (r: Self)
        ensures
            r.wf(),
            r@ == Map::<Seq<char>, VMValueView>::empty(),
    {
        Frame { locals: StrMap::new() }
    }
}

/// An immutable bytecode program.
#[derive(Debug)]
pub struct VMProgram {
    pub instrs: Vec<VMInstr>,
}

impl View for VMProgram {
    type V = Seq<VMInstrView>;

    open spec fn view(&self) -> Seq<VMInstrView> {
        self.instrs.deep_view()
    }
}

/// The error of the lowerer: an operator outside the machine's set is
/// refused instead of being miscompiled.
#[derive(Debug)]
pub enum LowerError {
    UnknownOperator(String),
}

impl DeepView for LowerError {
    type V = Seq<char>;

    open spec fn deep_view(&self) -> Seq<char> {
        match self {
            LowerError::UnknownOperator(op) => op@,
        }
    }
}

/// The bytecode block of one IR instruction, or the operator the machine
/// cannot lower.
pub open spec fn lower_instr(i: IRInstrView) -> Result<Seq<VMInstrView>, Seq<char>> {
    match i {
        IRInstrView::Assign(t, v) => match v {
            IRValueView::Int(n) => Ok(seq![VMInstrView::PushInt(n), VMInstrView::Store(t)]),
            IRValueView::Bool(b) => Ok(seq![VMInstrView::PushBool(b), VMInstrView::Store(t)]),
            IRValueView::Str(s) => Ok(seq![VMInstrView::PushStr(s), VMInstrView::Store(t)]),
            IRValueView::Var(x) | IRValueView::Temp(x) => Ok(
                seq![VMInstrView::Load(x), VMInstrView::Store(t)],
            ),
        },
        IRInstrView::BinaryOp(r, l, op, rr) => match opcode_of(op) {
            Some(oc) => Ok(seq![VMInstrView::Load(l), VMInstrView::Load(rr), oc, VMInstrView::Store(r)]),
            None => Err(op),
        },
        IRInstrView::Return(n) => Ok(seq![VMInstrView::Load(n), VMInstrView::Ret]),
    }
}

/// The opcode of a textual operator, when the machine has one.
pub open spec fn opcode_of(op: Seq<char>) -> Option<VMInstrView> {
    if op == "+"@ {
        Some(VMInstrView::Add)
    } else if op == "-"@ {
        Some(VMInstrView::Sub)
    } else if op == "*"@ {
        Some(VMInstrView::Mul)
    } else if op == "/"@ {
        Some(VMInstrView::Div)
    } else {
        None
    }
}

/// The lowering of a whole IR list: the concatenation of the blocks of its
/// instructions, or the first operator that has no opcode.
pub open spec fn spec_lower(code: Seq<IRInstrView>) -> Result<Seq<VMInstrView>, Seq<char>>
    decreases code.len(),
{
    if code.len() == 0 {
        Ok(Seq::empty())
    } else {
        match lower_instr(code[0]) {
            Err(e) => Err(e),
            Ok(blk) => match spec_lower(code.skip(1)) {
                Err(e) => Err(e),
                Ok(rest) => Ok(blk + rest),
            },
        }
    }
}

/// Lower an IR list to a bytecode program, a single deterministic pass. An
/// operator outside `+ - * /` is a hard error, never a silent miscompile.
pub fn lower_ir_to_vm(ir: &Vec<IRInstr>) -> (r: Result<VMProgram, LowerError>)
    ensures
        match r {
            Ok(p) => spec_lower(ir.deep_view()) == Ok::<Seq<VMInstrView>, Seq<char>>(p@),
            Err(e) => spec_lower(ir.deep_view()) == Err::<Seq<VMInstrView>, Seq<char>>(
                e.deep_view(),
            ),
        },
{
    let n = ir.len();
    let mut instrs: Vec<VMInstr> = Vec::new();
    proof {
        assert(ir.deep_view().skip(0) =~= ir.deep_view());
        if spec_lower(ir.deep_view()) is Ok {
            assert(instrs.deep_view() + spec_lower(ir.deep_view())->Ok_0 =~= spec_lower(
                ir.deep_view(),
            )->Ok_0);
        }
    }
    let mut i: usize = 0;
    while i < n
        invariant
            0 <= i <= n,
            n == ir.deep_view().len(),
            spec_lower(ir.deep_view()) == match spec_lower(ir.deep_view().skip(i as int)) {
                Ok(rest) => Ok::<Seq<VMInstrView>, Seq<char>>(instrs.deep_view() + rest),
                Err(e) => Err::<Seq<VMInstrView>, Seq<char>>(e),
            },
        decreases n - i,
    {
        let ghost pre = ir.deep_view().skip(i as int);
        let ghost out0 = instrs.deep_view();
        proof {
            assert(pre[0] == ir.deep_view()[i as int]);
            assert(pre.skip(1) =~= ir.deep_view().skip(i + 1));
        }
        match &ir[i] {
            IRInstr::Assign(target, value) => {
                match value {
                    IRValue::Int(v) => instrs.push(VMInstr::PushInt(*v)),
                    IRValue::Bool(b) => instrs.push(VMInstr::PushBool(*b)),
                    IRValue::Str(s) => instrs.push(VMInstr::PushStr(s.clone())),
                    IRValue::Var(x) | IRValue::Temp(x) => instrs.push(VMInstr::Load(x.clone())),
                }
                instrs.push(VMInstr::Store(target.clone()));
                proof {
                    assert(instrs.deep_view() =~= out0 + lower_instr(pre[0])->Ok_0);
                }
            },
            IRInstr::BinaryOp(result, left, op, right) => {
                instrs.push(VMInstr::Load(left.clone()));
                instrs.push(VMInstr::Load(right.clone()));
                if str_eq(op.as_str(), "+") {
                    instrs.push(VMInstr::Add);
                } else if str_eq(op.as_str(), "-") {
                    instrs.push(VMInstr::Sub);
                } else if str_eq(op.as_str(), "*") {
                    instrs.push(VMInstr::Mul);
                } else if str_eq(op.as_str(), "/") {
                    instrs.push(VMInstr::Div);
                } else {
                    return Err(LowerError::UnknownOperator(op.clone()));
                }
                instrs.push(VMInstr::Store(result.clone()));
                proof {
                    assert(instrs.deep_view() =~= out0 + lower_instr(pre[0])->Ok_0);
                }
            },
            IRInstr::Return(name) => {
                instrs.push(VMInstr::Load(name.clone()));
                instrs.push(VMInstr::Ret);
                proof {
                    assert(instrs.deep_view() =~= out0 + lower_instr(pre[0])->Ok_0);
                }
            },
        }
        proof {
            if spec_lower(pre.skip(1)) is Ok {
                assert(instrs.deep_view() + spec_lower(pre.skip(1))->Ok_0 =~= out0 + spec_lower(
                    pre,
                )->Ok_0);
            }
        }
        i += 1;
    }
    proof {
        assert(ir.deep_view().skip(n as int) =~= Seq::<IRInstrView>::empty());
        assert(instrs.deep_view() + Seq::<VMInstrView>::empty() =~= instrs.deep_view());
    }
    Ok(VMProgram { instrs })
}

/// Wrap a runtime result for comparison against the specification.
pub open spec fn result_view(r: Result<VMValue, VMFault>) -> Result<VMValueView, VMFault> {
    match r {
        Ok(v) => Ok(v.deep_view()),
        Err(f) => Err(f),
    }
}

fn add_vm_values(a: VMValue, b: VMValue) -> (r: Result<VMValue, VMFault>)
    ensures
        result_view(r) == add_values(a.deep_view(), b.deep_view()),
{
    match (a, b) {
        (VMValue::Int(x), VMValue::Int(y)) => Ok(VMValue::Int(x.wrapping_add(y))),
        (VMValue::Str(x), VMValue::Str(y)) => Ok(VMValue::Str(x.concat(y.as_str()))),
        (VMValue::Str(x), VMValue::Int(y)) => Ok(VMValue::Str(x.concat(i64_to_dec(y).as_str()))),
        (VMValue::Int(x), VMValue::Str(y)) => Ok(VMValue::Str(i64_to_dec(x).concat(y.as_str()))),
        _ => Err(VMFault::TypeMismatch),
    }
}

fn sub_vm_values(a: VMValue, b: VMValue) -> (r: Result<VMValue, VMFault>)
    ensures
        result_view(r) == sub_values(a.deep_view(), b.deep_view()),
{
    match (a, b) {
        (VMValue::Int(x), VMValue::Int(y)) => Ok(VMValue::Int(x.wrapping_sub(y))),
        _ => Err(VMFault::TypeMismatch),
    }
}

fn mul_vm_values(a: VMValue, b: VMValue) -> (r: Result<VMValue, VMFault>)
    ensures
        result_view(r) == mul_values(a.deep_view(), b.deep_view()),
{
    match (a, b) {
        (VMValue::Int(x), VMValue::Int(y)) => Ok(VMValue::Int(x.wrapping_mul(y))),
        _ => Err(VMFault::TypeMismatch),
    }
}

fn div_vm_values(a: VMValue, b: VMValue) -> (r: Result<VMValue, VMFault>)
    ensures
        result_view(r) == div_values(a.deep_view(), b.deep_view()),
{
    match (a, b) {
        (VMValue::Int(x), VMValue::Int(y)) => {
            if y == 0 {
                Err(VMFault::DivideByZero)
            } else {
                match x.checked_div(y) {
                    Some(q) => Ok(VMValue::Int(q)),
                    None => Ok(VMValue::Int(i64::MIN)),
                }
            }
        },
        _ => Err(VMFault::TypeMismatch),
    }
}

fn concat_vm_values(a: VMValue, b: VMValue) -> (r: Result<VMValue, VMFault>)
    ensures
        result_view(r) == concat_values(a.deep_view(), b.deep_view()),
{
    match (a, b) {
        (VMValue::Str(x), VMValue::Str(y)) => Ok(VMValue::Str(x.concat(y.as_str()))),
        _ => Err(VMFault::TypeMismatch),
    }
}

/// The virtual machine: an evaluation stack, a frame stack that is never
/// empty, and an instruction pointer.
pub struct VM {
    stack: Vec<VMValue>,
    frames: Vec<Frame>,
    pub ip: usize,
}

impl VM {
    /// The frame stack is never empty and every frame is well formed.
    pub closed spec fn wf(&self) -> bool {
        &&& self.frames@.len() >= 1
        &&& forall|i: int| 0 <= i < self.frames@.len() ==> #[trigger] self.frames@[i].wf()
    }

    /// The bindings of the active frame.
    pub closed spec fn active_env(&self) -> EnvView {
        self.frames@.last()@
    }

    /// The evaluation stack, bottom first.
    pub closed spec fn stack_view(&self) -> Seq<VMValueView> {
        self.stack.deep_view()
    }

    /// A machine with an empty stack and one empty global frame.
    pub fn new() -> (r: Self)
        ensures
            r.wf(),
            r.stack_view() == Seq::<VMValueView>::empty(),
            r.active_env() == Map::<Seq<char>, VMValueView>::empty(),
    {
        let mut frames: Vec<Frame> = Vec::new();
        frames.push(Frame::new());
        let r = VM { stack: Vec::new(), frames, ip: 0 };
        proof {
            assert(r.stack.deep_view() =~= Seq::<VMValueView>::empty());
        }
        r
    }

    /// Push a value onto the evaluation stack.
    fn push(&mut self, v: VMValue)
        requires
            old(self).wf(),
        ensures
            final(self).wf(),
            final(self).stack_view() == old(self).stack_view().push(v.deep_view()),
            final(self).active_env() == old(self).active_env(),
            final(self).ip == old(self).ip,
            final(self).frames == old(self).frames,
    {
        self.stack.push(v);
        proof {
            assert(self.stack.deep_view() =~= old(self).stack.deep_view().push(v.deep_view()));
        }
    }

    /// Pop a value from the evaluation stack, if one is there.
    fn pop(&mut self) -> (r: Option<VMValue>)
        requires
            old(self).wf(),
        ensures
            final(self).wf(),
            final(self).active_env() == old(self).active_env(),
            final(self).ip == old(self).ip,
            final(self).frames == old(self).frames,
            match r {
                Some(v) => old(self).stack_view().len() > 0
                    && v.deep_view() == old(self).stack_view().last()
                    && final(self).stack_view() == old(self).stack_view().drop_last(),
                None => old(self).stack_view().len() == 0
                    && final(self).stack_view() == old(self).stack_view(),
            },
    {
        let r = self.stack.pop();
        proof {
            if old(self).stack@.len() > 0 {
                assert(self.stack.deep_view() =~= old(self).stack.deep_view().drop_last());
            }
        }
        r
    }

    /// Bind a name in the active frame, overwriting any earlier binding.
    fn set_var(&mut self, name: &String, val: VMValue)
        requires
            old(self).wf(),
        ensures
            final(self).wf(),
            final(self).active_env() == old(self).active_env().insert(name@, val.deep_view()),
            final(self).stack == old(self).stack,
            final(self).ip == old(self).ip,
    {
        proof {
            assert(old(self).frames@[old(self).frames@.len() - 1].wf());
        }
        let popped = self.frames.pop();
        match popped {
            Some(mut f) => {
                f.locals.insert(name.clone(), val);
                self.frames.push(f);
                proof {
                    assert(forall|i: int|
                        0 <= i < self.frames@.len() - 1
                            ==> self.frames@[i] == old(self).frames@[i]);
                }
            },
            None => {
                proof {
                    assert(false);
                }
            },
        }
    }

    /// Read a name from the active frame.
    fn get_var(&self, name: &String) -> (r: Option<VMValue>)
        requires
            self.wf(),
        ensures
            match r {
                Some(v) => self.active_env().contains_key(name@) && v.deep_view()
                    == self.active_env()[name@],
                None => !self.active_env().contains_key(name@),
            },
    {
        let idx = self.frames.len() - 1;
        proof {
            assert(self.frames@[idx as int].wf());
        }
        match self.frames[idx].locals.get(name) {
            Some(v) => Some(v.clone()),
            None => None,
        }
    }

    /// Pop the two operands of a binary opcode: the right operand is on top.
    fn pop2(&mut self) -> (r: Option<(VMValue, VMValue)>)
        requires
            old(self).wf(),
        ensures
            final(self).wf(),
            final(self).active_env() == old(self).active_env(),
            final(self).ip == old(self).ip,
            match r {
                Some(ab) => old(self).stack_view().len() >= 2
                    && ab.0.deep_view() == stack_arg(old(self).stack_view(), 1)
                    && ab.1.deep_view() == stack_arg(old(self).stack_view(), 0)
                    && final(self).stack_view() == old(self).stack_view().drop_last().drop_last(),
                None => old(self).stack_view().len() < 2,
            },
    {
        let b = match self.pop() {
            Some(v) => v,
            None => {
                return None;
            },
        };
        match self.pop() {
            Some(a) => Some((a, b)),
            None => {
                // The stack held exactly one value; the machine faults on the
                // instruction, and the popped value is gone with the run.
                None
            },
        }
    }

    /// Execute a program from its first instruction. The result is exactly
    /// the specification-level run from the machine's current state: the
    /// value of the first return instruction, `None` when the program runs
    /// off its end, or the first fault.
    pub fn run(&mut self, prog: &VMProgram) -> (r: Result<Option<VMValue>, VMFault>)
        requires
            old(self).wf(),
        ensures
            final(self).wf(),
            ({
                let oc = vm_run(prog@, old(self).stack_view(), old(self).active_env());
                match r {
                    Ok(Some(v)) => oc == VmOutcome::Done(v.deep_view()),
                    Ok(None) => oc == VmOutcome::Off(
                        final(self).stack_view(),
                        final(self).active_env(),
                    ),
                    Err(f) => oc == VmOutcome::Fault(f),
                }
            }),
    {
        self.ip = 0;
        let ghost stack0 = old(self).stack_view();
        let ghost env0 = old(self).active_env();
        proof {
            assert(prog@.skip(0) =~= prog@);
        }
        let n = prog.instrs.len();
        while self.ip < n
            invariant
                self.wf(),
                self.ip <= n,
                n == prog@.len(),
                stack0 == old(self).stack_view(),
                env0 == old(self).active_env(),
                vm_run(prog@, stack0, env0) == vm_run(
                    prog@.skip(self.ip as int),
                    self.stack_view(),
                    self.active_env(),
                ),
            decreases n - self.ip,
        {
            let ghost pre = prog@.skip(self.ip as int);
            let ghost st = self.stack_view();
            let ghost en = self.active_env();
            proof {
                assert(pre[0] == prog@[self.ip as int]);
                assert(pre.skip(1) =~= prog@.skip(self.ip + 1));
            }
            let instr = &prog.instrs[self.ip];
            self.ip = self.ip + 1;
            match instr {
                VMInstr::PushInt(v) => {
                    self.push(VMValue::Int(*v));
                },
                VMInstr::PushBool(b) => {
                    self.push(VMValue::Bool(*b));
                },
                VMInstr::PushStr(s) => {
                    self.push(VMValue::Str(s.clone()));
                },
                VMInstr::Load(name) => {
                    match self.get_var(name) {
                        Some(v) => {
                            self.push(v);
                        },
                        None => {
                            return Err(VMFault::UnboundVariable);
                        },
                    }
                },
                VMInstr::Store(name) => {
                    match self.pop() {
                        Some(v) => {
                            self.set_var(name, v);
                        },
                        None => {
                            return Err(VMFault::StackUnderflow);
                        },
                    }
                },
                VMInstr::Add => {
                    proof {
                        assert(vm_run(pre, st, en) == vm_step_binary(
                            pre.skip(1),
                            st,
                            en,
                            add_values(stack_arg(st, 1), stack_arg(st, 0)),
                        ));
                    }
                    match self.pop2() {
                        Some((a, b)) => match add_vm_values(a, b) {
                            Ok(v) => {
                                self.push(v);
                            },
                            Err(f) => {
                                return Err(f);
                            },
                        },
                        None => {
                            return Err(VMFault::StackUnderflow);
                        },
                    }
                },
                VMInstr::Sub => {
                    proof {
                        assert(vm_run(pre, st, en) == vm_step_binary(
                            pre.skip(1),
                            st,
                            en,
                            sub_values(stack_arg(st, 1), stack_arg(st, 0)),
                        ));
                    }
                    match self.pop2() {
                        Some((a, b)) => match sub_vm_values(a, b) {
                            Ok(v) => {
                                self.push(v);
                            },
                            Err(f) => {
                                return Err(f);
                            },
                        },
                        None => {
                            return Err(VMFault::StackUnderflow);
                        },
                    }
                },
                VMInstr::Mul => {
                    proof {
                        assert(vm_run(pre, st, en) == vm_step_binary(
                            pre.skip(1),
                            st,
                            en,
                            mul_values(stack_arg(st, 1), stack_arg(st, 0)),
                        ));
                    }
                    match self.pop2() {
                        Some((a, b)) => match mul_vm_values(a, b) {
                            Ok(v) => {
                                self.push(v);
                            },
                            Err(f) => {
                                return Err(f);
                            },
                        },
                        None => {
                            return Err(VMFault::StackUnderflow);
                        },
                    }
                },
                VMInstr::Div => {
                    proof {
                        assert(vm_run(pre, st, en) == vm_step_binary(
                            pre.skip(1),
                            st,
                            en,
                            div_values(stack_arg(st, 1), stack_arg(st, 0)),
                        ));
                    }
                    match self.pop2() {
                        Some((a, b)) => match div_vm_values(a, b) {
                            Ok(v) => {
                                self.push(v);
                            },
                            Err(f) => {
                                return Err(f);
                            },
                        },
                        None => {
                            return Err(VMFault::StackUnderflow);
                        },
                    }
                },
                VMInstr::Concat => {
                    proof {
                        assert(vm_run(pre, st, en) == vm_step_binary(
                            pre.skip(1),
                            st,
                            en,
                            concat_values(stack_arg(st, 1), stack_arg(st, 0)),
                        ));
                    }
                    match self.pop2() {
                        Some((a, b)) => match concat_vm_values(a, b) {
                            Ok(v) => {
                                self.push(v);
                            },
                            Err(f) => {
                                return Err(f);
                            },
                        },
                        None => {
                            return Err(VMFault::StackUnderflow);
                        },
                    }
                },
                VMInstr::Ret => {
                    match self.pop() {
                        Some(v) => {
                            return Ok(Some(v));
                        },
                        None => {
                            return Err(VMFault::StackUnderflow);
                        },
                    }
                },
            }
        }
        proof {
            assert(prog@.skip(n as int) =~= Seq::<VMInstrView>::empty());
        }
        Ok(None)
    }
}

/// The error of running IR end to end: the lowering can refuse an operator,
/// and the machine can fault.
#[derive(Debug)]
pub enum RunError {
    Lower(LowerError),
    Fault(VMFault),
}

/// Lower an IR list and execute it on a fresh machine.
pub fn run_ir_with_vm(ir: &Vec<IRInstr>) -> (r: Result<Option<VMValue>, RunError>)
    ensures
        match spec_lower(ir.deep_view()) {
            Err(e) => r matches Err(RunError::Lower(le)) && le.deep_view() == e,
            Ok(p) => match vm_run(p, Seq::empty(), Map::empty()) {
                VmOutcome::Done(v) => r matches Ok(Some(x)) && x.deep_view() == v,
                VmOutcome::Off(_, _) => r == Ok::<Option<VMValue>, RunError>(None),
                VmOutcome::Fault(f) => r == Err::<Option<VMValue>, RunError>(RunError::Fault(f)),
            },
        },
{
    let prog = match lower_ir_to_vm(ir) {
        Ok(p) => p,
        Err(e) => {
            return Err(RunError::Lower(e));
        },
    };
    let mut vm = VM::new();
    match vm.run(&prog) {
        Ok(v) => Ok(v),
        Err(f) => Err(RunError::Fault(f)),
    }
}

} // verus!
