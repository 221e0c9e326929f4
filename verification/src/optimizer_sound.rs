//! Soundness of the optimizer: each pass preserves what the IR means, so
//! running the optimized list gives the outcome of the original — the same
//! returned value, or the same fault. Folding and copy propagation preserve
//! the meaning of every program; elimination preserves it for every program
//! whose run does not fault on an unbound variable, which covers in
//! particular every program free of unbound-variable and divide-by-zero
//! conditions.

use vstd::prelude::*;

use crate::intermediate_code_generator::{IRInstrView, IRValueView};
use crate::optimizer::{
    canonical_return, copy_step, dce_keep, dce_round_rec, fold_binop_val, fold_step, is_used,
    reads_name, resolve1, resolve_const, spec_copy, spec_dce, spec_dce_round, spec_fold,
    spec_pipeline, ConstsView, CopiesView,
};
use crate::optimizer_laws::lit_consts;
use crate::semantics::{
    add_values, concat_values, div_values, eval_binop, eval_ir_value, ir_run, mul_values,
    stack_arg, sub_values, vm_run, vm_step_binary, EnvView, IrOutcome, VmOutcome,
};
use crate::target_code_generator::{
    lower_instr, opcode_of, spec_lower, VMFault, VMInstrView, VMValueView,
};

verus! {

/// The runtime value of a literal operand.
pub open spec fn lit_value(v: IRValueView) -> VMValueView
    recommends
        v.is_literal(),
{
    match v {
        IRValueView::Int(n) => VMValueView::Int(n),
        IRValueView::Bool(b) => VMValueView::Bool(b),
        IRValueView::Str(s) => VMValueView::Str(s),
        _ => VMValueView::Bool(false),
    }
}

/// Every table binding is realized in the environment.
pub open spec fn consts_consistent(c: ConstsView, env: EnvView) -> bool {
    forall|n: Seq<char>| #[trigger]
        c.contains_key(n) ==> env.contains_key(n) && env[n] == lit_value(c[n])
}

/// Folding preserves the meaning of every program exactly, from any
/// constant table the environment realizes.
pub proof fn lemma_fold_sound(
    code: Seq<IRInstrView>,
    c: ConstsView,
    p: Option<IRInstrView>,
    env: EnvView,
)
    requires
        lit_consts(c),
        consts_consistent(c, env),
    ensures
        ir_run(spec_fold(code, c, p), env) == ir_run(code, env),
    decreases code.len(),
{
    if code.len() == 0 {
    } else {
        let x = code[0];
        let rest = code.skip(1);
        let step = fold_step(x, c, p);
        let emit = step.0;
        let cb = step.1;
        let out = spec_fold(code, c, p);
        let tail = spec_fold(rest, cb, Some(emit.last()));
        assert(out == emit + tail);
        match x {
            IRInstrView::Assign(t, v) => {
                match resolve_const(v, c) {
                    Some(cv) => {
                        assert(cv.is_literal()) by {
                            match v {
                                IRValueView::Var(s) | IRValueView::Temp(s) => {
                                    assert(c.contains_key(s) && c[s] == cv);
                                },
                                _ => {},
                            }
                        }
                        // both runs bind the same value
                        assert(eval_ir_value(v, env) == Ok::<VMValueView, VMFault>(
                            lit_value(cv),
                        )) by {
                            match v {
                                IRValueView::Var(s) | IRValueView::Temp(s) => {
                                    assert(c.contains_key(s));
                                },
                                _ => {},
                            }
                        }
                        let env2 = env.insert(t, lit_value(cv));
                        assert(consts_consistent(cb, env2));
                        lemma_fold_sound(rest, cb, Some(emit.last()), env2);
                        assert(out.skip(1) =~= tail);
                        assert(ir_run(out, env) == ir_run(tail, env2));
                        assert(ir_run(code, env) == ir_run(rest, env2));
                    },
                    None => {
                        assert(emit == seq![x] && cb == c.remove(t));
                        assert(out.skip(1) =~= tail);
                        match eval_ir_value(v, env) {
                            Ok(val) => {
                                let env2 = env.insert(t, val);
                                assert(consts_consistent(cb, env2));
                                lemma_fold_sound(rest, cb, Some(emit.last()), env2);
                            },
                            Err(f) => {},
                        }
                    },
                }
            },
            IRInstrView::BinaryOp(r, l, op, rr) => {
                if c.contains_key(l) && c.contains_key(rr) && fold_binop_val(c[l], op, c[rr])
                    is Some {
                    let cv = fold_binop_val(c[l], op, c[rr])->0;
                    assert(emit == seq![IRInstrView::Assign(r, cv)]);
                    assert(cb == c.insert(r, cv));
                    assert(env.contains_key(l) && env[l] == lit_value(c[l]));
                    assert(env.contains_key(rr) && env[rr] == lit_value(c[rr]));
                    // the folded constant is exactly what the machine computes
                    assert(eval_binop(op, env[l], env[rr]) == Ok::<VMValueView, VMFault>(
                        lit_value(cv),
                    ));
                    assert(cv.is_literal());
                    let env2 = env.insert(r, lit_value(cv));
                    assert(consts_consistent(cb, env2));
                    lemma_fold_sound(rest, cb, Some(emit.last()), env2);
                    assert(out.skip(1) =~= tail);
                    assert(ir_run(out, env) == ir_run(tail, env2));
                    assert(ir_run(code, env) == ir_run(rest, env2));
                } else {
                    assert(emit == seq![x] && cb == c.remove(r));
                    assert(out.skip(1) =~= tail);
                    if env.contains_key(l) && env.contains_key(rr) {
                        match eval_binop(op, env[l], env[rr]) {
                            Ok(val) => {
                                let env2 = env.insert(r, val);
                                assert(consts_consistent(cb, env2));
                                lemma_fold_sound(rest, cb, Some(emit.last()), env2);
                            },
                            Err(f) => {},
                        }
                    }
                }
            },
            IRInstrView::Return(n) => {
                if c.contains_key(n) {
                    assert(env.contains_key(n) && env[n] == lit_value(c[n]));
                    if canonical_return(p, n) {
                        assert(emit == seq![x]);
                        assert(out.skip(1) =~= tail);
                    } else {
                        let cv = c[n];
                        assert(emit == seq![IRInstrView::Assign(n, cv), IRInstrView::Return(n)]);
                        // re-binding the name to the value it already holds
                        let env2 = env.insert(n, lit_value(cv));
                        assert(out[0] == IRInstrView::Assign(n, cv));
                        assert(out.skip(1) =~= seq![IRInstrView::Return(n)] + tail);
                        assert(ir_run(out, env) == ir_run(
                            seq![IRInstrView::Return(n)] + tail,
                            env2,
                        ));
                        assert(env2.contains_key(n) && env2[n] == env[n]);
                        assert(ir_run(seq![IRInstrView::Return(n)] + tail, env2)
                            == IrOutcome::Done(env[n]));
                    }
                } else {
                    assert(emit == seq![x]);
                    assert(out.skip(1) =~= tail);
                }
            },
        }
    }
}

/// Every recorded copy is realized in the environment: the copy and its
/// source are both bound, to the same value.
pub open spec fn copies_consistent(m: CopiesView, env: EnvView) -> bool {
    forall|k: Seq<char>| #[trigger]
        m.contains_key(k) ==> env.contains_key(k) && env.contains_key(m[k]) && env[k] == env[m[k]]
}

/// Copy propagation preserves the meaning of every program exactly, from
/// any copy table the environment realizes.
pub proof fn lemma_copy_sound(code: Seq<IRInstrView>, m: CopiesView, env: EnvView)
    requires
        copies_consistent(m, env),
    ensures
        ir_run(spec_copy(code, m), env) == ir_run(code, env),
    decreases code.len(),
{
    if code.len() == 0 {
    } else {
        let x = code[0];
        let rest = code.skip(1);
        let step = copy_step(x, m);
        let emit = step.0;
        let mb = step.1;
        let out = spec_copy(code, m);
        let tail = spec_copy(rest, mb);
        assert(out == emit + tail);
        assert(out.skip(1) =~= tail);
        // resolving a name never changes its value or its boundness
        assert forall|y: Seq<char>| true implies (env.contains_key(resolve1(m, y))
            == env.contains_key(y)) && (env.contains_key(y) ==> env[resolve1(m, y)] == env[y]) by {
            if m.contains_key(y) {
                assert(env.contains_key(y) && env.contains_key(m[y]) && env[y] == env[m[y]]);
            }
        }
        match x {
            IRInstrView::Assign(t, v) => {
                match v {
                    IRValueView::Var(s) | IRValueView::Temp(s) => {
                        let s2 = resolve1(m, s);
                        if env.contains_key(s) {
                            let val = env[s];
                            let env2 = env.insert(t, val);
                            assert(copies_consistent(mb, env2)) by {
                                lemma_drop_consistent(m, t, s2, env2, env);
                            }
                            lemma_copy_sound(rest, mb, env2);
                            assert(ir_run(out, env) == ir_run(tail, env2));
                        } else {
                            // both runs fault on the unbound source
                            assert(!env.contains_key(s2));
                        }
                    },
                    _ => {
                        match eval_ir_value(v, env) {
                            Ok(val) => {
                                let env2 = env.insert(t, val);
                                assert(copies_consistent(mb, env2)) by {
                                    lemma_drop_consistent(m, t, t, env2, env);
                                }
                                lemma_copy_sound(rest, mb, env2);
                            },
                            Err(f) => {},
                        }
                    },
                }
            },
            IRInstrView::BinaryOp(r, l, op, rr) => {
                let l2 = resolve1(m, l);
                let rr2 = resolve1(m, rr);
                if env.contains_key(l) && env.contains_key(rr) {
                    match eval_binop(op, env[l], env[rr]) {
                        Ok(val) => {
                            let env2 = env.insert(r, val);
                            assert(copies_consistent(mb, env2)) by {
                                lemma_drop_consistent(m, r, r, env2, env);
                            }
                            lemma_copy_sound(rest, mb, env2);
                        },
                        Err(f) => {},
                    }
                }
            },
            IRInstrView::Return(n) => {
            },
        }
    }
}

/// Dropping the entries that mention a redefined name keeps the table
/// realized, whatever value the name now holds.
proof fn lemma_drop_consistent(
    m: CopiesView,
    t: Seq<char>,
    s2: Seq<char>,
    env2: EnvView,
    env: EnvView,
)
    requires
        copies_consistent(m, env),
        forall|n: Seq<char>|
            n != t ==> (#[trigger] env2.contains_key(n) == env.contains_key(n) && (
            env.contains_key(n) ==> env2[n] == env[n])),
        env2.contains_key(t),
        s2 != t ==> (env2.contains_key(s2) && env2[t] == env2[s2]),
    ensures
        copies_consistent(crate::strmap::drop_key_and_value(m, t), env2),
        s2 != t ==> copies_consistent(
            crate::strmap::drop_key_and_value(m, t).insert(t, s2),
            env2,
        ),
{
}

/// Two runs end alike: the same returned value, the same fault, or both
/// run off the end (their final bindings may differ at names the program
/// never reads).
pub open spec fn outcomes_agree(o1: IrOutcome, o2: IrOutcome) -> bool {
    match (o1, o2) {
        (IrOutcome::Done(v1), IrOutcome::Done(v2)) => v1 == v2,
        (IrOutcome::End(_), IrOutcome::End(_)) => true,
        (IrOutcome::Fault(f1), IrOutcome::Fault(f2)) => f1 == f2,
        _ => false,
    }
}

/// The run faults on an unbound variable.
pub open spec fn unbound_fault(o: IrOutcome) -> bool {
    o == IrOutcome::Fault(VMFault::UnboundVariable)
}

/// Two environments agree on every name the list reads.
pub open spec fn envs_agree_used(e1: EnvView, e2: EnvView, full: Seq<IRInstrView>) -> bool {
    forall|n: Seq<char>| #[trigger]
        is_used(full, n) ==> ((e1.contains_key(n) <==> e2.contains_key(n)) && (e1.contains_key(n)
            ==> e1[n] == e2[n]))
}

/// One elimination round preserves the outcome of any run that never faults
/// on an unbound variable: a dropped assignment binds a name the program
/// never reads, so dropping it can only change bindings nothing looks at.
pub proof fn lemma_dce_round_sound(full: Seq<IRInstrView>, i: int, ef: EnvView, es: EnvView)
    requires
        0 <= i <= full.len(),
        envs_agree_used(ef, es, full),
        !unbound_fault(ir_run(full.skip(i), ef)),
    ensures
        outcomes_agree(ir_run(dce_round_rec(full, i), es), ir_run(full.skip(i), ef)),
        ir_run(full.skip(i), ef) is End ==> envs_agree_used(
            ir_run(full.skip(i), ef)->End_0,
            ir_run(dce_round_rec(full, i), es)->End_0,
            full,
        ),
    decreases full.len() - i,
{
    if i == full.len() {
        assert(full.skip(i) =~= Seq::<IRInstrView>::empty());
        assert(dce_round_rec(full, i) =~= Seq::<IRInstrView>::empty());
    } else {
        let x = full[i];
        let suffix = full.skip(i);
        assert(suffix[0] == x);
        assert(suffix.skip(1) =~= full.skip(i + 1));
        assert forall|n: Seq<char>| reads_name(x, n) implies is_used(full, n) by {
            assert(reads_name(full[i], n));
        }
        if dce_keep(full, x) {
            let rr2 = dce_round_rec(full, i + 1);
            assert(dce_round_rec(full, i) == seq![x] + rr2);
            assert((seq![x] + rr2)[0] == x);
            assert((seq![x] + rr2).skip(1) =~= rr2);
            match x {
                IRInstrView::Assign(t, v) => {
                    match v {
                        IRValueView::Var(s) | IRValueView::Temp(s) => {
                            assert(is_used(full, s));
                            assert(ef.contains_key(s));
                            let val = ef[s];
                            assert(es.contains_key(s) && es[s] == val);
                            assert(envs_agree_used(ef.insert(t, val), es.insert(t, val), full));
                            lemma_dce_round_sound(full, i + 1, ef.insert(t, val), es.insert(t, val));
                        },
                        _ => {
                            let val = eval_ir_value(v, ef)->Ok_0;
                            assert(eval_ir_value(v, es) == eval_ir_value(v, ef));
                            assert(envs_agree_used(ef.insert(t, val), es.insert(t, val), full));
                            lemma_dce_round_sound(full, i + 1, ef.insert(t, val), es.insert(t, val));
                        },
                    }
                },
                IRInstrView::BinaryOp(r, l, op, rr) => {
                    assert(is_used(full, l) && is_used(full, rr));
                    assert(ef.contains_key(l) && ef.contains_key(rr));
                    assert(es.contains_key(l) && es[l] == ef[l]);
                    assert(es.contains_key(rr) && es[rr] == ef[rr]);
                    match eval_binop(op, ef[l], ef[rr]) {
                        Ok(val) => {
                            assert(envs_agree_used(ef.insert(r, val), es.insert(r, val), full));
                            lemma_dce_round_sound(full, i + 1, ef.insert(r, val), es.insert(r, val));
                        },
                        Err(f) => {},
                    }
                },
                IRInstrView::Return(n) => {
                    assert(is_used(full, n));
                    assert(ef.contains_key(n));
                    assert(es.contains_key(n) && es[n] == ef[n]);
                },
            }
        } else {
            let t = match x {
                IRInstrView::Assign(t, _) => t,
                _ => Seq::empty(),
            };
            assert(x is Assign && !is_used(full, t));
            let v = x->Assign_1;
            // the dropped assignment cannot fault, else the whole run would
            // fault on an unbound variable
            match eval_ir_value(v, ef) {
                Ok(val) => {
                    let ef2 = ef.insert(t, val);
                    assert(envs_agree_used(ef2, es, full)) by {
                        assert forall|n: Seq<char>| is_used(full, n) implies ((
                        ef2.contains_key(n) <==> es.contains_key(n)) && (ef2.contains_key(n)
                            ==> ef2[n] == es[n])) by {
                            assert(n != t);
                        }
                    }
                    lemma_dce_round_sound(full, i + 1, ef2, es);
                    assert(dce_round_rec(full, i) =~= dce_round_rec(full, i + 1));
                },
                Err(f) => {
                    assert(unbound_fault(ir_run(suffix, ef)));
                },
            }
        }
    }
}

/// The whole elimination fixpoint preserves the outcome of any run that
/// never faults on an unbound variable.
pub proof fn lemma_dce_sound(y: Seq<IRInstrView>, env: EnvView)
    requires
        !unbound_fault(ir_run(y, env)),
    ensures
        outcomes_agree(ir_run(spec_dce(y), env), ir_run(y, env)),
    decreases y.len(),
{
    assert(y.skip(0) =~= y);
    lemma_dce_round_sound(y, 0, env, env);
    let r = spec_dce_round(y);
    crate::optimizer::lemma_dce_round_len(y, 0);
    if r.len() < y.len() {
        lemma_dce_sound(r, env);
    }
}

/// Optimizer soundness: for any program whose run does not fault on an
/// unbound variable — in particular, for any program free of
/// unbound-variable and divide-by-zero conditions — running the optimized
/// list gives the outcome of the original: the same returned value, the
/// same fault, or no value from either.
pub proof fn lemma_optimizer_sound(ir: Seq<IRInstrView>)
    requires
        !unbound_fault(ir_run(ir, Map::empty())),
    ensures
        outcomes_agree(
            ir_run(spec_pipeline(ir), Map::empty()),
            ir_run(ir, Map::empty()),
        ),
{
    let a = spec_fold(ir, Map::empty(), None);
    let b = spec_copy(a, Map::empty());
    lemma_fold_sound(ir, Map::empty(), None, Map::empty());
    lemma_copy_sound(a, Map::empty(), Map::empty());
    lemma_dce_sound(b, Map::empty());
}

/// Running a concatenation runs the first part, and where it runs off its
/// end, continues into the second from the state it reached.
pub proof fn lemma_vm_append(
    s1: Seq<VMInstrView>,
    s2: Seq<VMInstrView>,
    stack: Seq<VMValueView>,
    env: EnvView,
)
    ensures
        vm_run(s1 + s2, stack, env) == (match vm_run(s1, stack, env) {
            VmOutcome::Off(st, en) => vm_run(s2, st, en),
            VmOutcome::Done(v) => VmOutcome::Done(v),
            VmOutcome::Fault(f) => VmOutcome::Fault(f),
        }),
    decreases s1.len(),
{
    reveal_with_fuel(vm_run, 3);
    if s1.len() == 0 {
        assert(s1 + s2 =~= s2);
    } else {
        assert((s1 + s2)[0] == s1[0]);
        assert((s1 + s2).skip(1) =~= s1.skip(1) + s2);
        match s1[0] {
            VMInstrView::PushInt(n) => {
                lemma_vm_append(s1.skip(1), s2, stack.push(VMValueView::Int(n)), env);
            },
            VMInstrView::PushBool(b) => {
                lemma_vm_append(s1.skip(1), s2, stack.push(VMValueView::Bool(b)), env);
            },
            VMInstrView::PushStr(st) => {
                lemma_vm_append(s1.skip(1), s2, stack.push(VMValueView::Str(st)), env);
            },
            VMInstrView::Load(x) => {
                if env.contains_key(x) {
                    lemma_vm_append(s1.skip(1), s2, stack.push(env[x]), env);
                }
            },
            VMInstrView::Store(x) => {
                if stack.len() > 0 {
                    lemma_vm_append(s1.skip(1), s2, stack.drop_last(), env.insert(x, stack.last()));
                }
            },
            VMInstrView::Add => {
                if stack.len() >= 2 && add_values(stack_arg(stack, 1), stack_arg(stack, 0)) is Ok {
                    let v = add_values(stack_arg(stack, 1), stack_arg(stack, 0))->Ok_0;
                    lemma_vm_append(s1.skip(1), s2, stack.drop_last().drop_last().push(v), env);
                }
            },
            VMInstrView::Sub => {
                if stack.len() >= 2 && sub_values(stack_arg(stack, 1), stack_arg(stack, 0)) is Ok {
                    let v = sub_values(stack_arg(stack, 1), stack_arg(stack, 0))->Ok_0;
                    lemma_vm_append(s1.skip(1), s2, stack.drop_last().drop_last().push(v), env);
                }
            },
            VMInstrView::Mul => {
                if stack.len() >= 2 && mul_values(stack_arg(stack, 1), stack_arg(stack, 0)) is Ok {
                    let v = mul_values(stack_arg(stack, 1), stack_arg(stack, 0))->Ok_0;
                    lemma_vm_append(s1.skip(1), s2, stack.drop_last().drop_last().push(v), env);
                }
            },
            VMInstrView::Div => {
                if stack.len() >= 2 && div_values(stack_arg(stack, 1), stack_arg(stack, 0)) is Ok {
                    let v = div_values(stack_arg(stack, 1), stack_arg(stack, 0))->Ok_0;
                    lemma_vm_append(s1.skip(1), s2, stack.drop_last().drop_last().push(v), env);
                }
            },
            VMInstrView::Concat => {
                if stack.len() >= 2 && concat_values(stack_arg(stack, 1), stack_arg(stack, 0))
                    is Ok {
                    let v = concat_values(stack_arg(stack, 1), stack_arg(stack, 0))->Ok_0;
                    lemma_vm_append(s1.skip(1), s2, stack.drop_last().drop_last().push(v), env);
                }
            },
            VMInstrView::Ret => {},
        }
    }
}

/// Executing one push-like instruction then a store binds the pushed value
/// and leaves the stack as it was.
proof fn lemma_run_push_store(
    p: VMInstrView,
    t: Seq<char>,
    val: VMValueView,
    stack: Seq<VMValueView>,
    env: EnvView,
)
    requires
        match p {
            VMInstrView::PushInt(n) => val == VMValueView::Int(n),
            VMInstrView::PushBool(b) => val == VMValueView::Bool(b),
            VMInstrView::PushStr(sv) => val == VMValueView::Str(sv),
            VMInstrView::Load(y) => env.contains_key(y) && val == env[y],
            _ => false,
        },
    ensures
        vm_run(seq![p, VMInstrView::Store(t)], stack, env) == VmOutcome::Off(
            stack,
            env.insert(t, val),
        ),
{
    reveal_with_fuel(vm_run, 4);
    let blk = seq![p, VMInstrView::Store(t)];
    let st2 = stack.push(val);
    assert(blk.skip(1) =~= seq![VMInstrView::Store(t)]);
    assert(blk.skip(1).skip(1) =~= Seq::<VMInstrView>::empty());
    assert(st2.len() > 0 && st2.last() == val);
    assert(st2.drop_last() =~= stack);
}

/// Executing two loads, a binary opcode and a store computes the operation
/// on the two bindings, faults as it faults, and binds its result.
proof fn lemma_run_binop_block(
    l: Seq<char>,
    rr: Seq<char>,
    oc: VMInstrView,
    r: Seq<char>,
    stack: Seq<VMValueView>,
    env: EnvView,
)
    requires
        env.contains_key(l),
        env.contains_key(rr),
        oc is Add || oc is Sub || oc is Mul || oc is Div,
    ensures
        ({
            let computed = match oc {
                VMInstrView::Add => add_values(env[l], env[rr]),
                VMInstrView::Sub => sub_values(env[l], env[rr]),
                VMInstrView::Mul => mul_values(env[l], env[rr]),
                _ => div_values(env[l], env[rr]),
            };
            vm_run(
                seq![VMInstrView::Load(l), VMInstrView::Load(rr), oc, VMInstrView::Store(r)],
                stack,
                env,
            ) == (match computed {
                Ok(val) => VmOutcome::Off(stack, env.insert(r, val)),
                Err(f) => VmOutcome::Fault(f),
            })
        }),
{
    reveal_with_fuel(vm_run, 6);
    reveal_with_fuel(vm_step_binary, 2);
    let blk = seq![VMInstrView::Load(l), VMInstrView::Load(rr), oc, VMInstrView::Store(r)];
    let st2 = stack.push(env[l]).push(env[rr]);
    assert(blk.skip(1) =~= seq![VMInstrView::Load(rr), oc, VMInstrView::Store(r)]);
    assert(blk.skip(1).skip(1) =~= seq![oc, VMInstrView::Store(r)]);
    assert(blk.skip(1).skip(1).skip(1) =~= seq![VMInstrView::Store(r)]);
    assert(blk.skip(1).skip(1).skip(1).skip(1) =~= Seq::<VMInstrView>::empty());
    assert(st2.len() >= 2);
    assert(stack_arg(st2, 1) == env[l] && stack_arg(st2, 0) == env[rr]);
    let computed = match oc {
        VMInstrView::Add => add_values(env[l], env[rr]),
        VMInstrView::Sub => sub_values(env[l], env[rr]),
        VMInstrView::Mul => mul_values(env[l], env[rr]),
        _ => div_values(env[l], env[rr]),
    };
    match computed {
        Ok(val) => {
            let st3 = st2.drop_last().drop_last().push(val);
            assert(st2.drop_last().drop_last() =~= stack);
            assert(st3.len() > 0 && st3.last() == val);
            assert(st3.drop_last() =~= stack);
        },
        Err(f) => {},
    }
}

/// Lowering is correct: the machine, run on the lowered program from any
/// stack, ends exactly as the IR run does — the same returned
/// value, the machine state with the final bindings when the program runs
/// off its end, or the same fault.
pub proof fn lemma_lower_correct(code: Seq<IRInstrView>, stack: Seq<VMValueView>, env: EnvView)
    requires
        spec_lower(code) is Ok,
    ensures
        vm_run(spec_lower(code)->Ok_0, stack, env) == (match ir_run(code, env) {
            IrOutcome::Done(v) => VmOutcome::Done(v),
            IrOutcome::End(en) => VmOutcome::Off(stack, en),
            IrOutcome::Fault(f) => VmOutcome::Fault(f),
        }),
    decreases code.len(),
{
    if code.len() == 0 {
        assert(spec_lower(code)->Ok_0 =~= Seq::<VMInstrView>::empty());
    } else {
        let x = code[0];
        let rest = code.skip(1);
        let blk = lower_instr(x)->Ok_0;
        let restl = spec_lower(rest)->Ok_0;
        assert(spec_lower(code)->Ok_0 == blk + restl);
        lemma_vm_append(blk, restl, stack, env);
        match x {
            IRInstrView::Assign(t, v) => {
                match v {
                    IRValueView::Int(n) => {
                        lemma_run_push_store(
                            VMInstrView::PushInt(n),
                            t,
                            VMValueView::Int(n),
                            stack,
                            env,
                        );
                        lemma_lower_correct(rest, stack, env.insert(t, VMValueView::Int(n)));
                    },
                    IRValueView::Bool(b) => {
                        lemma_run_push_store(
                            VMInstrView::PushBool(b),
                            t,
                            VMValueView::Bool(b),
                            stack,
                            env,
                        );
                        lemma_lower_correct(rest, stack, env.insert(t, VMValueView::Bool(b)));
                    },
                    IRValueView::Str(sv) => {
                        lemma_run_push_store(
                            VMInstrView::PushStr(sv),
                            t,
                            VMValueView::Str(sv),
                            stack,
                            env,
                        );
                        lemma_lower_correct(rest, stack, env.insert(t, VMValueView::Str(sv)));
                    },
                    IRValueView::Var(y) | IRValueView::Temp(y) => {
                        if env.contains_key(y) {
                            lemma_run_push_store(VMInstrView::Load(y), t, env[y], stack, env);
                            lemma_lower_correct(rest, stack, env.insert(t, env[y]));
                        } else {
                            assert(blk[0] == VMInstrView::Load(y));
                            assert(vm_run(blk, stack, env) == VmOutcome::Fault(
                                VMFault::UnboundVariable,
                            ));
                        }
                    },
                }
            },
            IRInstrView::BinaryOp(r, l, op, rr) => {
                let oc = opcode_of(op)->0;
                assert(blk == seq![VMInstrView::Load(l), VMInstrView::Load(rr), oc, VMInstrView::Store(r)]);
                if !env.contains_key(l) {
                    assert(blk[0] == VMInstrView::Load(l));
                    assert(vm_run(blk, stack, env) == VmOutcome::Fault(VMFault::UnboundVariable));
                } else if !env.contains_key(rr) {
                    reveal_with_fuel(vm_run, 3);
                    assert(blk.skip(1) =~= seq![VMInstrView::Load(rr), oc, VMInstrView::Store(r)]);
                    assert(vm_run(blk, stack, env) == VmOutcome::Fault(VMFault::UnboundVariable));
                } else {
                    lemma_run_binop_block(l, rr, oc, r, stack, env);
                    assert(eval_binop(op, env[l], env[rr]) == (match oc {
                        VMInstrView::Add => add_values(env[l], env[rr]),
                        VMInstrView::Sub => sub_values(env[l], env[rr]),
                        VMInstrView::Mul => mul_values(env[l], env[rr]),
                        _ => div_values(env[l], env[rr]),
                    }));
                    match eval_binop(op, env[l], env[rr]) {
                        Ok(val) => {
                            lemma_lower_correct(rest, stack, env.insert(r, val));
                        },
                        Err(f) => {},
                    }
                }
            },
            IRInstrView::Return(n) => {
                reveal_with_fuel(vm_run, 3);
                assert(blk == seq![VMInstrView::Load(n), VMInstrView::Ret]);
                assert(blk.skip(1) =~= seq![VMInstrView::Ret]);
                if env.contains_key(n) {
                    let st2 = stack.push(env[n]);
                    assert(st2.len() > 0 && st2.last() == env[n]);
                } else {
                    assert(vm_run(blk, stack, env) == VmOutcome::Fault(VMFault::UnboundVariable));
                }
            },
        }
    }
}

/// Two machine runs end alike: the same returned value, the same fault, or
/// both run off the end of their programs.
pub open spec fn vm_outcomes_agree(o1: VmOutcome, o2: VmOutcome) -> bool {
    match (o1, o2) {
        (VmOutcome::Done(v1), VmOutcome::Done(v2)) => v1 == v2,
        (VmOutcome::Off(_, _), VmOutcome::Off(_, _)) => true,
        (VmOutcome::Fault(f1), VmOutcome::Fault(f2)) => f1 == f2,
        _ => false,
    }
}

/// Optimizer soundness, through the virtual machine: for any lowerable
/// program whose run does not fault on an unbound variable — in particular,
/// any program free of unbound-variable and divide-by-zero conditions —
/// executing the un-optimized IR and the optimized IR through the machine
/// gives the same terminal value, the same fault, or no value from either.
pub proof fn lemma_optimizer_sound_on_vm(ir: Seq<IRInstrView>)
    requires
        !unbound_fault(ir_run(ir, Map::empty())),
        spec_lower(ir) is Ok,
    ensures
        spec_lower(spec_pipeline(ir)) is Ok,
        vm_outcomes_agree(
            vm_run(spec_lower(spec_pipeline(ir))->Ok_0, Seq::empty(), Map::empty()),
            vm_run(spec_lower(ir)->Ok_0, Seq::empty(), Map::empty()),
        ),
{
    lemma_lowerable(ir);
    lemma_pipeline_keeps_ops_known(ir);
    lemma_lowerable(spec_pipeline(ir));
    lemma_optimizer_sound(ir);
    lemma_lower_correct(ir, Seq::empty(), Map::empty());
    lemma_lower_correct(spec_pipeline(ir), Seq::empty(), Map::empty());
}

/// Every operator in the list has an opcode.
pub open spec fn ops_known(code: Seq<IRInstrView>) -> bool {
    forall|i: int|
        0 <= i < code.len() ==> match #[trigger] code[i] {
            IRInstrView::BinaryOp(_, _, op, _) => opcode_of(op) is Some,
            _ => true,
        }
}

/// A list lowers exactly when every operator in it has an opcode.
pub proof fn lemma_lowerable(code: Seq<IRInstrView>)
    ensures
        spec_lower(code) is Ok <==> ops_known(code),
    decreases code.len(),
{
    if code.len() == 0 {
    } else {
        lemma_lowerable(code.skip(1));
        assert forall|i: int|
            0 <= i < code.len() && spec_lower(code) is Ok implies match #[trigger] code[i] {
            IRInstrView::BinaryOp(_, _, op, _) => opcode_of(op) is Some,
            _ => true,
        } by {
            if i > 0 {
                assert(code.skip(1)[i - 1] == code[i]);
            }
        }
        if ops_known(code) {
            assert(ops_known(code.skip(1))) by {
                assert forall|i: int|
                    0 <= i < code.skip(1).len() implies match #[trigger] code.skip(1)[i] {
                    IRInstrView::BinaryOp(_, _, op, _) => opcode_of(op) is Some,
                    _ => true,
                } by {
                    assert(code.skip(1)[i] == code[i + 1]);
                }
            }
        }
    }
}

/// No pass invents an operator: folding re-emits or folds operations away,
/// copy propagation keeps operator texts, and elimination only removes.
pub proof fn lemma_pipeline_keeps_ops_known(ir: Seq<IRInstrView>)
    requires
        ops_known(ir),
    ensures
        ops_known(spec_pipeline(ir)),
{
    let a = spec_fold(ir, Map::empty(), None);
    let b = spec_copy(a, Map::empty());
    lemma_fold_keeps_ops(ir, Map::empty(), None);
    lemma_copy_keeps_ops(a, Map::empty());
    lemma_dce_keeps_ops(b);
}

proof fn lemma_fold_keeps_ops(code: Seq<IRInstrView>, c: ConstsView, p: Option<IRInstrView>)
    requires
        ops_known(code),
    ensures
        ops_known(spec_fold(code, c, p)),
    decreases code.len(),
{
    if code.len() > 0 {
        let step = fold_step(code[0], c, p);
        let emit = step.0;
        let rest = code.skip(1);
        assert(ops_known(rest)) by {
            assert(forall|i: int|
                0 <= i < rest.len() ==> #[trigger] rest[i] == code[i + 1]);
        }
        lemma_fold_keeps_ops(rest, step.1, Some(emit.last()));
        let tail = spec_fold(rest, step.1, Some(emit.last()));
        assert(ops_known(emit)) by {
            assert(forall|i: int|
                0 <= i < emit.len() ==> emit[i] == code[0] || !(#[trigger] emit[i] is BinaryOp));
        }
        assert forall|i: int|
            0 <= i < (emit + tail).len() implies match #[trigger] (emit + tail)[i] {
            IRInstrView::BinaryOp(_, _, op, _) => opcode_of(op) is Some,
            _ => true,
        } by {
            if i < emit.len() {
                assert((emit + tail)[i] == emit[i]);
            } else {
                assert((emit + tail)[i] == tail[i - emit.len()]);
            }
        }
    }
}

proof fn lemma_copy_keeps_ops(code: Seq<IRInstrView>, m: CopiesView)
    requires
        ops_known(code),
    ensures
        ops_known(spec_copy(code, m)),
    decreases code.len(),
{
    if code.len() > 0 {
        let step = copy_step(code[0], m);
        let emit = step.0;
        let rest = code.skip(1);
        assert(ops_known(rest)) by {
            assert(forall|i: int|
                0 <= i < rest.len() ==> #[trigger] rest[i] == code[i + 1]);
        }
        lemma_copy_keeps_ops(rest, step.1);
        let tail = spec_copy(rest, step.1);
        assert forall|i: int|
            0 <= i < (emit + tail).len() implies match #[trigger] (emit + tail)[i] {
            IRInstrView::BinaryOp(_, _, op, _) => opcode_of(op) is Some,
            _ => true,
        } by {
            if i < emit.len() {
                assert((emit + tail)[i] == emit[i]);
            } else {
                assert((emit + tail)[i] == tail[i - emit.len()]);
            }
        }
    }
}

proof fn lemma_dce_round_keeps_ops(full: Seq<IRInstrView>, i: int)
    requires
        0 <= i <= full.len(),
        ops_known(full),
    ensures
        ops_known(dce_round_rec(full, i)),
    decreases full.len() - i,
{
    if i < full.len() {
        lemma_dce_round_keeps_ops(full, i + 1);
        let rr2 = dce_round_rec(full, i + 1);
        if dce_keep(full, full[i]) {
            assert forall|k: int|
                0 <= k < (seq![full[i]] + rr2).len() implies match #[trigger] (seq![full[i]]
                + rr2)[k] {
                IRInstrView::BinaryOp(_, _, op, _) => opcode_of(op) is Some,
                _ => true,
            } by {
                if k > 0 {
                    assert((seq![full[i]] + rr2)[k] == rr2[k - 1]);
                }
            }
        } else {
            assert(dce_round_rec(full, i) =~= rr2);
        }
    }
}

proof fn lemma_dce_keeps_ops(y: Seq<IRInstrView>)
    requires
        ops_known(y),
    ensures
        ops_known(spec_dce(y)),
    decreases y.len(),
{
    lemma_dce_round_keeps_ops(y, 0);
    let r = spec_dce_round(y);
    crate::optimizer::lemma_dce_round_len(y, 0);
    assert(y.skip(0) =~= y);
    if r.len() < y.len() {
        lemma_dce_keeps_ops(r);
    }
}

} // verus!
