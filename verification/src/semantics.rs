//! The meaning of IR lists and bytecode programs, as specification-level
//! interpreters. The optimizer's obligation (it preserves this meaning) and
//! the virtual machine's contract (it computes this meaning) both point here.

use vstd::prelude::*;

use crate::intermediate_code_generator::{IRInstrView, IRValueView};
use crate::target_code_generator::{VMFault, VMInstrView, VMValueView};
use crate::numerals::dec_text;

verus! {

/// A runtime environment: the bindings of the active frame.
pub type EnvView = Map<Seq<char>, VMValueView>;

/// Wrapped two's-complement addition, the machine's `+` on integers.
pub open spec fn wrap_add(a: i64, b: i64) -> i64 {
    vstd::wrapping::i64_specs::wrapping_add(a, b)
}

/// Wrapped two's-complement subtraction.
pub open spec fn wrap_sub(a: i64, b: i64) -> i64 {
    vstd::wrapping::i64_specs::wrapping_sub(a, b)
}

/// Wrapped two's-complement multiplication.
pub open spec fn wrap_mul(a: i64, b: i64) -> i64 {
    vstd::wrapping::i64_specs::wrapping_mul(a, b)
}

/// Truncating division, wrapping on the one overflowing case.
pub open spec fn wrap_div(a: i64, b: i64) -> i64
    recommends
        b != 0,
{
    match a.checked_div(b) {
        Some(q) => q,
        None => i64::MIN,
    }
}

/// What the machine's add does to two values: integer addition, or string
/// concatenation when either side is a string (an integer side is coerced to
/// its decimal text). Booleans never add.
pub open spec fn add_values(a: VMValueView, b: VMValueView) -> Result<VMValueView, VMFault> {
    match (a, b) {
        (VMValueView::Int(x), VMValueView::Int(y)) => Ok(VMValueView::Int(wrap_add(x, y))),
        (VMValueView::Str(x), VMValueView::Str(y)) => Ok(VMValueView::Str(x + y)),
        (VMValueView::Str(x), VMValueView::Int(y)) => Ok(VMValueView::Str(x + dec_text(y as int))),
        (VMValueView::Int(x), VMValueView::Str(y)) => Ok(VMValueView::Str(dec_text(x as int) + y)),
        _ => Err(VMFault::TypeMismatch),
    }
}

/// Integer-only subtraction.
pub open spec fn sub_values(a: VMValueView, b: VMValueView) -> Result<VMValueView, VMFault> {
    match (a, b) {
        (VMValueView::Int(x), VMValueView::Int(y)) => Ok(VMValueView::Int(wrap_sub(x, y))),
        _ => Err(VMFault::TypeMismatch),
    }
}

/// Integer-only multiplication.
pub open spec fn mul_values(a: VMValueView, b: VMValueView) -> Result<VMValueView, VMFault> {
    match (a, b) {
        (VMValueView::Int(x), VMValueView::Int(y)) => Ok(VMValueView::Int(wrap_mul(x, y))),
        _ => Err(VMFault::TypeMismatch),
    }
}

/// Integer-only division; a zero divisor is a fault.
pub open spec fn div_values(a: VMValueView, b: VMValueView) -> Result<VMValueView, VMFault> {
    match (a, b) {
        (VMValueView::Int(x), VMValueView::Int(y)) => if y == 0 {
            Err(VMFault::DivideByZero)
        } else {
            Ok(VMValueView::Int(wrap_div(x, y)))
        },
        _ => Err(VMFault::TypeMismatch),
    }
}

/// String-only concatenation, the dedicated concat opcode.
pub open spec fn concat_values(a: VMValueView, b: VMValueView) -> Result<VMValueView, VMFault> {
    match (a, b) {
        (VMValueView::Str(x), VMValueView::Str(y)) => Ok(VMValueView::Str(x + y)),
        _ => Err(VMFault::TypeMismatch),
    }
}

/// What a textual operator does to two values. An operator outside the
/// machine's set never computes; it is a mismatch at this level, and the
/// lowerer refuses it before anything runs.
pub open spec fn eval_binop(op: Seq<char>, a: VMValueView, b: VMValueView) -> Result<
    VMValueView,
    VMFault,
> {
    if op == "+"@ {
        add_values(a, b)
    } else if op == "-"@ {
        sub_values(a, b)
    } else if op == "*"@ {
        mul_values(a, b)
    } else if op == "/"@ {
        div_values(a, b)
    } else {
        Err(VMFault::TypeMismatch)
    }
}

/// The value of an IR operand under an environment.
pub open spec fn eval_ir_value(v: IRValueView, env: EnvView) -> Result<VMValueView, VMFault> {
    match v {
        IRValueView::Int(n) => Ok(VMValueView::Int(n)),
        IRValueView::Bool(b) => Ok(VMValueView::Bool(b)),
        IRValueView::Str(s) => Ok(VMValueView::Str(s)),
        IRValueView::Var(x) | IRValueView::Temp(x) => if env.contains_key(x) {
            Ok(env[x])
        } else {
            Err(VMFault::UnboundVariable)
        },
    }
}

/// The end of one IR execution: a returned value, the final environment when
/// the list runs out without a return, or a fault.
pub enum IrOutcome {
    Done(VMValueView),
    End(EnvView),
    Fault(VMFault),
}

/// Execute an IR list from an environment.
pub open spec fn ir_run(code: Seq<IRInstrView>, env: EnvView) -> IrOutcome
    decreases code.len(),
{
    if code.len() == 0 {
        IrOutcome::End(env)
    } else {
        match code[0] {
            IRInstrView::Assign(t, v) => match eval_ir_value(v, env) {
                Ok(val) => ir_run(code.skip(1), env.insert(t, val)),
                Err(f) => IrOutcome::Fault(f),
            },
            IRInstrView::BinaryOp(r, l, op, rr) => if !env.contains_key(l) {
                IrOutcome::Fault(VMFault::UnboundVariable)
            } else if !env.contains_key(rr) {
                IrOutcome::Fault(VMFault::UnboundVariable)
            } else {
                match eval_binop(op, env[l], env[rr]) {
                    Ok(val) => ir_run(code.skip(1), env.insert(r, val)),
                    Err(f) => IrOutcome::Fault(f),
                }
            },
            IRInstrView::Return(n) => if env.contains_key(n) {
                IrOutcome::Done(env[n])
            } else {
                IrOutcome::Fault(VMFault::UnboundVariable)
            },
        }
    }
}

/// The end of one bytecode execution: a returned value, the machine state
/// when the program runs off its end, or a fault.
pub enum VmOutcome {
    Done(VMValueView),
    Off(Seq<VMValueView>, EnvView),
    Fault(VMFault),
}

/// Execute a bytecode sequence against a stack and an environment.
pub open spec fn vm_run(code: Seq<VMInstrView>, stack: Seq<VMValueView>, env: EnvView) -> VmOutcome
    decreases code.len(), 0int,
{
    if code.len() == 0 {
        VmOutcome::Off(stack, env)
    } else {
        let rest = code.skip(1);
        match code[0] {
            VMInstrView::PushInt(n) => vm_run(rest, stack.push(VMValueView::Int(n)), env),
            VMInstrView::PushBool(b) => vm_run(rest, stack.push(VMValueView::Bool(b)), env),
            VMInstrView::PushStr(s) => vm_run(rest, stack.push(VMValueView::Str(s)), env),
            VMInstrView::Load(x) => if env.contains_key(x) {
                vm_run(rest, stack.push(env[x]), env)
            } else {
                VmOutcome::Fault(VMFault::UnboundVariable)
            },
            VMInstrView::Store(x) => if stack.len() == 0 {
                VmOutcome::Fault(VMFault::StackUnderflow)
            } else {
                vm_run(rest, stack.drop_last(), env.insert(x, stack.last()))
            },
            VMInstrView::Add => vm_step_binary(rest, stack, env, add_values(stack_arg(stack, 1), stack_arg(stack, 0))),
            VMInstrView::Sub => vm_step_binary(rest, stack, env, sub_values(stack_arg(stack, 1), stack_arg(stack, 0))),
            VMInstrView::Mul => vm_step_binary(rest, stack, env, mul_values(stack_arg(stack, 1), stack_arg(stack, 0))),
            VMInstrView::Div => vm_step_binary(rest, stack, env, div_values(stack_arg(stack, 1), stack_arg(stack, 0))),
            VMInstrView::Concat => vm_step_binary(rest, stack, env, concat_values(stack_arg(stack, 1), stack_arg(stack, 0))),
            VMInstrView::Ret => if stack.len() == 0 {
                VmOutcome::Fault(VMFault::StackUnderflow)
            } else {
                VmOutcome::Done(stack.last())
            },
        }
    }
}

/// The stack value `d` places below the top.
pub open spec fn stack_arg(stack: Seq<VMValueView>, d: int) -> VMValueView
    recommends
        d < stack.len(),
{
    stack[stack.len() - 1 - d]
}

/// One binary opcode: pop two operands, right on top, push the result.
pub open spec fn vm_step_binary(
    rest: Seq<VMInstrView>,
    stack: Seq<VMValueView>,
    env: EnvView,
    computed: Result<VMValueView, VMFault>,
) -> VmOutcome
    decreases rest.len(), 1int,
{
    if stack.len() < 2 {
        VmOutcome::Fault(VMFault::StackUnderflow)
    } else {
        match computed {
            Ok(v) => vm_run(rest, stack.drop_last().drop_last().push(v), env),
            Err(f) => VmOutcome::Fault(f),
        }
    }
}

} // verus!
