//! Definition before use. In well-formed IR every name an instruction reads
//! was bound by some earlier instruction; every optimizer pass keeps that,
//! and lowering turns it into the bytecode invariant that every load is
//! preceded by a store of its name.

use vstd::prelude::*;

use crate::intermediate_code_generator::{gen_body, gen_expr, gen_stmt, spill, IRInstrView, IRValueView};
use crate::optimizer::{
    copy_step, dce_keep, dce_round_rec, fold_step, is_used, reads_name, resolve1, resolve_const,
    spec_copy, spec_dce, spec_dce_round, spec_fold, spec_pipeline, ConstsView, CopiesView,
};
use crate::optimizer_laws::lit_consts;
use crate::optimizer_sound::{outcomes_agree, unbound_fault};
use crate::semantics::{eval_binop, eval_ir_value, ir_run, EnvView};
use crate::semantic_analyzer::{spec_check_body, spec_check_stmt, spec_type_of, Type};
use crate::syntax_analyzer::{ExpressionView, StatementView};
use crate::target_code_generator::{lower_instr, spec_lower, VMInstrView};

verus! {

/// Does this instruction bind the name `n`?
pub open spec fn defines_name(instr: IRInstrView, n: Seq<char>) -> bool {
    match instr {
        IRInstrView::Assign(t, _) => t == n,
        IRInstrView::BinaryOp(r, _, _, _) => r == n,
        IRInstrView::Return(_) => false,
    }
}

/// Is `n` bound by some instruction before position `i`?
pub open spec fn defined_before(code: Seq<IRInstrView>, i: int, n: Seq<char>) -> bool {
    exists|j: int| 0 <= j < i && defines_name(#[trigger] code[j], n)
}

/// Every read of a name not in `base` is preceded by a binding of it.
pub open spec fn wf_from(code: Seq<IRInstrView>, base: Set<Seq<char>>) -> bool {
    forall|i: int, n: Seq<char>|
        0 <= i < code.len() && #[trigger] reads_name(code[i], n) ==> base.contains(n)
            || defined_before(code, i, n)
}

/// Well-formed IR: every read is preceded by a binding.
pub open spec fn wf_ir(code: Seq<IRInstrView>) -> bool {
    wf_from(code, Set::empty())
}

/// The names a list binds somewhere.
pub open spec fn defined_set(code: Seq<IRInstrView>) -> Set<Seq<char>> {
    Set::new(|n: Seq<char>| exists|j: int| 0 <= j < code.len() && defines_name(#[trigger] code[j], n))
}

/// The head of a well-formed list reads only base names, and the rest is
/// well formed once the head's binding joins the base.
pub proof fn lemma_wf_step(code: Seq<IRInstrView>, base: Set<Seq<char>>)
    requires
        code.len() > 0,
        wf_from(code, base),
    ensures
        forall|n: Seq<char>| reads_name(code[0], n) ==> base.contains(n),
        wf_from(code.skip(1), base.union(defined_set(seq![code[0]]))),
{
    assert forall|n: Seq<char>| reads_name(code[0], n) implies base.contains(n) by {
        assert(reads_name(code[0], n));
        assert(!defined_before(code, 0, n));
    }
    let base2 = base.union(defined_set(seq![code[0]]));
    assert forall|i: int, n: Seq<char>|
        0 <= i < code.skip(1).len() && #[trigger] reads_name(code.skip(1)[i], n) implies
        base2.contains(n) || defined_before(code.skip(1), i, n) by {
        assert(code.skip(1)[i] == code[i + 1]);
        assert(reads_name(code[i + 1], n));
        if !base.contains(n) {
            let j = choose|j: int| 0 <= j < i + 1 && defines_name(code[j], n);
            if j == 0 {
                assert(defines_name(seq![code[0]][0], n));
                assert(defined_set(seq![code[0]]).contains(n));
            } else {
                assert(code.skip(1)[j - 1] == code[j]);
                assert(defines_name(code.skip(1)[j - 1], n));
            }
        }
    }
}

/// Gluing: a well-formed head block whose bindings cover what the tail
/// borrows makes the concatenation well formed.
pub proof fn lemma_wf_concat(
    a: Seq<IRInstrView>,
    b: Seq<IRInstrView>,
    base: Set<Seq<char>>,
    mid: Set<Seq<char>>,
)
    requires
        wf_from(a, base),
        wf_from(b, mid),
        forall|n: Seq<char>| mid.contains(n) ==> base.contains(n) || defined_set(a).contains(n),
    ensures
        wf_from(a + b, base),
{
    assert forall|i: int, n: Seq<char>|
        0 <= i < (a + b).len() && #[trigger] reads_name((a + b)[i], n) implies base.contains(n)
        || defined_before(a + b, i, n) by {
        if i < a.len() {
            assert((a + b)[i] == a[i]);
            if !base.contains(n) {
                let j = choose|j: int| 0 <= j < i && defines_name(a[j], n);
                assert((a + b)[j] == a[j]);
            }
        } else {
            assert((a + b)[i] == b[i - a.len()]);
            if !base.contains(n) {
                if mid.contains(n) {
                    let j = choose|j: int| 0 <= j < a.len() && defines_name(a[j], n);
                    assert((a + b)[j] == a[j]);
                } else {
                    let j = choose|j: int|
                        0 <= j < i - a.len() && defines_name(b[j], n);
                    assert((a + b)[j + a.len()] == b[j]);
                }
            }
        }
    }
}

/// Folding keeps a list well formed: folded instructions read less, keep
/// their targets, and a rewritten return reads the name its own fresh
/// assignment just bound.
pub proof fn lemma_fold_keeps_wf(
    code: Seq<IRInstrView>,
    c: ConstsView,
    p: Option<IRInstrView>,
    base: Set<Seq<char>>,
)
    requires
        lit_consts(c),
        wf_from(code, base),
    ensures
        wf_from(spec_fold(code, c, p), base),
    decreases code.len(),
{
    if code.len() == 0 {
        assert(spec_fold(code, c, p) =~= Seq::<IRInstrView>::empty());
    } else {
        let x = code[0];
        let rest = code.skip(1);
        let step = fold_step(x, c, p);
        let emit = step.0;
        let cb = step.1;
        let tail = spec_fold(rest, cb, Some(emit.last()));
        lemma_wf_step(code, base);
        let base2 = base.union(defined_set(seq![x]));
        lemma_fold_keeps_wf(rest, cb, Some(emit.last()), base2);
        // the emitted block is well formed and binds what the head bound
        assert(wf_from(emit, base) && (forall|n: Seq<char>|
            defines_name(x, n) ==> defined_set(emit).contains(n))) by {
            match x {
                IRInstrView::Assign(t, v) => {
                    assert(defines_name(emit[0], t));
                    assert forall|i: int, n: Seq<char>|
                        0 <= i < emit.len() && #[trigger] reads_name(emit[i], n) implies
                        base.contains(n) || defined_before(emit, i, n) by {
                        assert(i == 0);
                        match resolve_const(v, c) {
                            Some(cv) => {
                                assert(cv.is_literal()) by {
                                    match v {
                                        crate::intermediate_code_generator::IRValueView::Var(sy)
                                        | crate::intermediate_code_generator::IRValueView::Temp(
                                            sy,
                                        ) => {
                                            assert(c.contains_key(sy) && c[sy] == cv);
                                        },
                                        _ => {},
                                    }
                                }
                                assert(!reads_name(emit[0], n));
                            },
                            None => {
                                assert(reads_name(x, n));
                            },
                        }
                    }
                },
                IRInstrView::BinaryOp(r, l, op, rr) => {
                    assert(defines_name(emit[0], r));
                    assert forall|i: int, n: Seq<char>|
                        0 <= i < emit.len() && #[trigger] reads_name(emit[i], n) implies
                        base.contains(n) || defined_before(emit, i, n) by {
                        assert(i == 0);
                        if emit[0] == x {
                            assert(reads_name(x, n));
                        }
                    }
                },
                IRInstrView::Return(n0) => {
                    assert forall|i: int, n: Seq<char>|
                        0 <= i < emit.len() && #[trigger] reads_name(emit[i], n) implies
                        base.contains(n) || defined_before(emit, i, n) by {
                        if emit.len() == 1 {
                            assert(i == 0);
                            assert(reads_name(x, n));
                        } else {
                            // the rewritten pair: the fresh assignment reads
                            // nothing (the pinned constant is a literal), and
                            // the return reads the name it just bound
                            assert(c.contains_key(n0));
                            assert(c[n0].is_literal());
                            assert(emit[0] == IRInstrView::Assign(n0, c[n0]));
                            if i == 0 {
                                assert(!reads_name(emit[0], n));
                            } else {
                                assert(i == 1);
                                assert(n == n0);
                                assert(defines_name(emit[0], n0));
                            }
                        }
                    }
                },
            }
        }
        lemma_wf_concat(emit, tail, base, base2);
    }
}

/// Copy propagation keeps a list well formed, from any table whose sources
/// are all in the base.
pub proof fn lemma_copy_keeps_wf(code: Seq<IRInstrView>, m: CopiesView, base: Set<Seq<char>>)
    requires
        wf_from(code, base),
        forall|k: Seq<char>| #[trigger] m.contains_key(k) ==> base.contains(m[k]),
    ensures
        wf_from(spec_copy(code, m), base),
    decreases code.len(),
{
    if code.len() == 0 {
        assert(spec_copy(code, m) =~= Seq::<IRInstrView>::empty());
    } else {
        let x = code[0];
        let rest = code.skip(1);
        let step = copy_step(x, m);
        let emit = step.0;
        let mb = step.1;
        let tail = spec_copy(rest, mb);
        lemma_wf_step(code, base);
        let base2 = base.union(defined_set(seq![x]));
        assert forall|y: Seq<char>| base.contains(y) implies base.contains(resolve1(m, y)) by {
            if m.contains_key(y) {
                assert(base.contains(m[y]));
            }
        }
        assert(forall|k: Seq<char>| #[trigger] mb.contains_key(k) ==> base2.contains(mb[k])) by {
            assert forall|k: Seq<char>| #[trigger] mb.contains_key(k) implies base2.contains(
                mb[k],
            ) by {
                if m.contains_key(k) && m[k] == mb[k] {
                } else {
                    // a fresh entry records a resolved read of the head
                    match x {
                        IRInstrView::Assign(t, v) => {
                            match v {
                                crate::intermediate_code_generator::IRValueView::Var(s)
                                | crate::intermediate_code_generator::IRValueView::Temp(s) => {
                                    assert(reads_name(x, s));
                                },
                                _ => {},
                            }
                        },
                        _ => {},
                    }
                }
            }
        }
        lemma_copy_keeps_wf(rest, mb, base2);
        assert(wf_from(emit, base) && (forall|n: Seq<char>|
            defines_name(x, n) ==> defined_set(emit).contains(n))) by {
            assert forall|i: int, n: Seq<char>|
                0 <= i < emit.len() && #[trigger] reads_name(emit[i], n) implies base.contains(n)
                || defined_before(emit, i, n) by {
                assert(i == 0);
            }
            match x {
                IRInstrView::Assign(t, v) => {
                    assert(defines_name(emit[0], t));
                },
                IRInstrView::BinaryOp(r, l, op, rr) => {
                    assert(defines_name(emit[0], r));
                },
                IRInstrView::Return(n0) => {},
            }
        }
        lemma_wf_concat(emit, tail, base, base2);
    }
}

/// One elimination round keeps a list well formed: the binding of any read
/// name is itself read-protected and stays.
pub proof fn lemma_dce_round_keeps_wf(full: Seq<IRInstrView>, i: int, base: Set<Seq<char>>)
    requires
        0 <= i <= full.len(),
        wf_from(full.skip(i), base),
    ensures
        wf_from(dce_round_rec(full, i), base),
    decreases full.len() - i,
{
    if i == full.len() {
        assert(dce_round_rec(full, i) =~= Seq::<IRInstrView>::empty());
    } else {
        let suffix = full.skip(i);
        let x = full[i];
        assert(suffix[0] == x);
        assert(suffix.skip(1) =~= full.skip(i + 1));
        lemma_wf_step(suffix, base);
        let base2 = base.union(defined_set(seq![x]));
        if dce_keep(full, x) {
            lemma_dce_round_keeps_wf(full, i + 1, base2);
            let emit = seq![x];
            assert(wf_from(emit, base)) by {
                assert forall|k: int, n: Seq<char>|
                    0 <= k < emit.len() && #[trigger] reads_name(emit[k], n) implies base.contains(
                    n,
                ) || defined_before(emit, k, n) by {
                    assert(k == 0);
                    assert(reads_name(suffix[0], n));
                }
            }
            assert(forall|n: Seq<char>|
                defines_name(x, n) ==> #[trigger] defined_set(emit).contains(n)) by {
                assert(forall|n: Seq<char>| defines_name(x, n) ==> defines_name(emit[0], n));
            }
            lemma_wf_concat(emit, dce_round_rec(full, i + 1), base, base2);
            assert(dce_round_rec(full, i) == emit + dce_round_rec(full, i + 1));
        } else {
            let t = x->Assign_0;
            assert(!is_used(full, t));
            assert(wf_from(full.skip(i + 1), base)) by {
                assert forall|k: int, n: Seq<char>|
                    0 <= k < full.skip(i + 1).len() && #[trigger] reads_name(
                        full.skip(i + 1)[k],
                        n,
                    ) implies base.contains(n) || defined_before(full.skip(i + 1), k, n) by {
                    assert(full.skip(i + 1)[k] == full[i + 1 + k]);
                    assert(reads_name(full[i + 1 + k], n));
                    assert(is_used(full, n));
                    assert(n != t);
                    if base2.contains(n) && !base.contains(n) {
                        assert(defined_set(seq![x]).contains(n));
                        assert(defines_name(x, n));
                    }
                }
            }
            lemma_dce_round_keeps_wf(full, i + 1, base);
            assert(dce_round_rec(full, i) =~= dce_round_rec(full, i + 1));
        }
    }
}

/// The whole elimination fixpoint keeps a list well formed.
pub proof fn lemma_dce_keeps_wf(y: Seq<IRInstrView>, base: Set<Seq<char>>)
    requires
        wf_from(y, base),
    ensures
        wf_from(spec_dce(y), base),
    decreases y.len(),
{
    assert(y.skip(0) =~= y);
    lemma_dce_round_keeps_wf(y, 0, base);
    let r = spec_dce_round(y);
    crate::optimizer::lemma_dce_round_len(y, 0);
    if r.len() < y.len() {
        lemma_dce_keeps_wf(r, base);
    }
}

/// Does this bytecode instruction load the name `n`?
pub open spec fn loads_name(instr: VMInstrView, n: Seq<char>) -> bool {
    instr == VMInstrView::Load(n)
}

/// Does this bytecode instruction store the name `n`?
pub open spec fn stores_name(instr: VMInstrView, n: Seq<char>) -> bool {
    instr == VMInstrView::Store(n)
}

/// Every load of a name not already stored is preceded by a store of it.
pub open spec fn wf_bc_from(prog: Seq<VMInstrView>, stored: Set<Seq<char>>) -> bool {
    forall|i: int, n: Seq<char>|
        0 <= i < prog.len() && #[trigger] loads_name(prog[i], n) ==> stored.contains(n) || (
        exists|j: int| 0 <= j < i && stores_name(#[trigger] prog[j], n))
}

/// The straight-line bytecode invariant: every name a load reads was
/// written by some preceding store.
pub open spec fn wf_bytecode(prog: Seq<VMInstrView>) -> bool {
    wf_bc_from(prog, Set::empty())
}

/// Gluing for bytecode: a block whose stores cover what the rest borrows.
proof fn lemma_wfbc_concat(
    a: Seq<VMInstrView>,
    b: Seq<VMInstrView>,
    stored: Set<Seq<char>>,
    mid: Set<Seq<char>>,
)
    requires
        wf_bc_from(a, stored),
        wf_bc_from(b, mid),
        forall|n: Seq<char>| mid.contains(n) ==> stored.contains(n) || (exists|j: int|
            0 <= j < a.len() && stores_name(#[trigger] a[j], n)),
    ensures
        wf_bc_from(a + b, stored),
{
    assert forall|i: int, n: Seq<char>|
        0 <= i < (a + b).len() && #[trigger] loads_name((a + b)[i], n) implies stored.contains(n)
        || (exists|j: int| 0 <= j < i && stores_name(#[trigger] (a + b)[j], n)) by {
        if i < a.len() {
            assert((a + b)[i] == a[i]);
            assert(loads_name(a[i], n));
            if !stored.contains(n) {
                let j = choose|j: int| 0 <= j < i && stores_name(a[j], n);
                assert((a + b)[j] == a[j]);
                assert(stores_name((a + b)[j], n));
            }
        } else {
            assert((a + b)[i] == b[i - a.len()]);
            assert(loads_name(b[i - a.len()], n));
            if !stored.contains(n) {
                if mid.contains(n) {
                    let j = choose|j: int| 0 <= j < a.len() && stores_name(a[j], n);
                    assert((a + b)[j] == a[j]);
                    assert(stores_name((a + b)[j], n));
                } else {
                    let j = choose|j: int|
                        0 <= j < i - a.len() && stores_name(b[j], n);
                    assert((a + b)[j + a.len()] == b[j]);
                    assert(stores_name((a + b)[j + a.len()], n));
                }
            }
        }
    }
}

/// Lowering turns well-formed IR into bytecode where every load is covered
/// by a preceding store.
pub proof fn lemma_lower_keeps_wf(code: Seq<IRInstrView>, base: Set<Seq<char>>)
    requires
        wf_from(code, base),
        spec_lower(code) is Ok,
    ensures
        wf_bc_from(spec_lower(code)->Ok_0, base),
    decreases code.len(),
{
    if code.len() == 0 {
        assert(spec_lower(code)->Ok_0 =~= Seq::<VMInstrView>::empty());
    } else {
        let x = code[0];
        let rest = code.skip(1);
        let blk = lower_instr(x)->Ok_0;
        let restl = spec_lower(rest)->Ok_0;
        assert(spec_lower(code)->Ok_0 == blk + restl);
        lemma_wf_step(code, base);
        let base2 = base.union(defined_set(seq![x]));
        lemma_lower_keeps_wf(rest, base2);
        // the block's loads read the head's reads, all in the base; its
        // stores bind the head's target
        assert(wf_bc_from(blk, base) && (forall|n: Seq<char>|
            defines_name(x, n) ==> exists|j: int|
                0 <= j < blk.len() && stores_name(#[trigger] blk[j], n))) by {
            match x {
                IRInstrView::Assign(t, v) => {
                    assert(stores_name(blk[1], t));
                    assert forall|i: int, n: Seq<char>|
                        0 <= i < blk.len() && #[trigger] loads_name(blk[i], n) implies
                        base.contains(n) || (exists|j: int|
                        0 <= j < i && stores_name(#[trigger] blk[j], n)) by {
                        assert(i == 0);
                        assert(reads_name(x, n));
                    }
                },
                IRInstrView::BinaryOp(r, l, op, rr) => {
                    assert(stores_name(blk[3], r));
                    assert forall|i: int, n: Seq<char>|
                        0 <= i < blk.len() && #[trigger] loads_name(blk[i], n) implies
                        base.contains(n) || (exists|j: int|
                        0 <= j < i && stores_name(#[trigger] blk[j], n)) by {
                        assert(i == 0 || i == 1);
                        assert(reads_name(x, n));
                    }
                },
                IRInstrView::Return(n0) => {
                    assert forall|i: int, n: Seq<char>|
                        0 <= i < blk.len() && #[trigger] loads_name(blk[i], n) implies
                        base.contains(n) || (exists|j: int|
                        0 <= j < i && stores_name(#[trigger] blk[j], n)) by {
                        assert(i == 0);
                        assert(reads_name(x, n));
                    }
                },
            }
        }
        lemma_wfbc_concat(blk, restl, base, base2);
    }
}

/// Definition before use, end to end: the bytecode lowered from the
/// optimized form of any well-formed IR list stores every name before any
/// load of it. A violation would be a defect inside the compiler, never
/// something a source program can cause.
pub proof fn lemma_stores_precede_loads(ir: Seq<IRInstrView>)
    requires
        wf_ir(ir),
        spec_lower(spec_pipeline(ir)) is Ok,
    ensures
        wf_bytecode(spec_lower(spec_pipeline(ir))->Ok_0),
{
    let a = spec_fold(ir, Map::empty(), None);
    let b = spec_copy(a, Map::empty());
    lemma_fold_keeps_wf(ir, Map::empty(), None, Set::empty());
    lemma_copy_keeps_wf(a, Map::empty(), Set::empty());
    lemma_dce_keeps_wf(b, Set::empty());
    lemma_lower_keeps_wf(spec_pipeline(ir), Set::empty());
}

/// What a concatenation binds is what its parts bind.
proof fn lemma_defined_concat(a: Seq<IRInstrView>, b: Seq<IRInstrView>)
    ensures
        forall|n: Seq<char>|
            (defined_set(a).contains(n) || defined_set(b).contains(n)) <==> #[trigger] defined_set(
                a + b,
            ).contains(n),
{
    assert forall|n: Seq<char>|
        (defined_set(a).contains(n) || defined_set(b).contains(n)) <==> #[trigger] defined_set(
            a + b,
        ).contains(n) by {
        if defined_set(a).contains(n) {
            let j = choose|j: int| 0 <= j < a.len() && defines_name(a[j], n);
            assert((a + b)[j] == a[j]);
            assert(defines_name((a + b)[j], n));
        }
        if defined_set(b).contains(n) {
            let j = choose|j: int| 0 <= j < b.len() && defines_name(b[j], n);
            assert((a + b)[j + a.len()] == b[j]);
            assert(defines_name((a + b)[j + a.len()], n));
        }
        if defined_set(a + b).contains(n) {
            let j = choose|j: int| 0 <= j < (a + b).len() && defines_name((a + b)[j], n);
            if j < a.len() {
                assert(a[j] == (a + b)[j]);
            } else {
                assert(b[j - a.len()] == (a + b)[j]);
            }
        }
    }
}

/// The code lowered from a checked expression is well formed over the
/// declared names, and the value it denotes refers to a declared name or to
/// one the code itself binds.
proof fn lemma_gen_expr_wf(
    e: ExpressionView,
    syms: Map<Seq<char>, Type>,
    c: nat,
    base: Set<Seq<char>>,
)
    requires
        spec_type_of(e, syms) is Ok,
        forall|n: Seq<char>| #[trigger] syms.contains_key(n) ==> base.contains(n),
    ensures
        wf_from(gen_expr(e, c).2, base),
        !gen_expr(e, c).0.is_literal() ==> base.contains(gen_expr(e, c).0.ref_name())
            || defined_set(gen_expr(e, c).2).contains(gen_expr(e, c).0.ref_name()),
    decreases e,
{
    match e {
        ExpressionView::Integer(_) => {},
        ExpressionView::Boolean(_) => {},
        ExpressionView::String(_) => {},
        ExpressionView::Ident(x) => {
            assert(syms.contains_key(x));
        },
        ExpressionView::BinaryOp { left, op, right } => {
            let (lv, c1, k1) = gen_expr(*left, c);
            let (rv, c2, k2) = gen_expr(*right, c1);
            let tmp = crate::intermediate_code_generator::temp_name(c2 + 1);
            let (ln, c4, k3) = spill(lv, c2 + 1);
            let (rn, c5, k4) = spill(rv, c4);
            lemma_gen_expr_wf(*left, syms, c, base);
            lemma_gen_expr_wf(*right, syms, c1, base);
            let a2 = k1 + k2;
            let a3 = a2 + k3;
            let a4 = a3 + k4;
            let last = seq![IRInstrView::BinaryOp(tmp, ln, op, rn)];
            assert(gen_expr(e, c).2 == a4 + last);
            lemma_wf_concat(k1, k2, base, base);
            // spilled literals read nothing
            assert(wf_from(k3, base) && wf_from(k4, base)) by {
                assert(forall|i: int, n: Seq<char>|
                    0 <= i < k3.len() ==> !(#[trigger] reads_name(k3[i], n)));
                assert(forall|i: int, n: Seq<char>|
                    0 <= i < k4.len() ==> !(#[trigger] reads_name(k4[i], n)));
            }
            lemma_wf_concat(a2, k3, base, base);
            lemma_wf_concat(a3, k4, base, base);
            lemma_defined_concat(k1, k2);
            lemma_defined_concat(a2, k3);
            lemma_defined_concat(a3, k4);
            lemma_defined_concat(a4, last);
            // each operand name is declared or bound within the code so far
            let mid = base.union(defined_set(a4));
            assert(base.contains(ln) || defined_set(a4).contains(ln)) by {
                match lv {
                    IRValueView::Var(_) | IRValueView::Temp(_) => {
                        assert(ln == lv.ref_name());
                    },
                    _ => {
                        assert(defines_name(k3[0], ln));
                        assert(defined_set(k3).contains(ln));
                    },
                }
            }
            assert(base.contains(rn) || defined_set(a4).contains(rn)) by {
                match rv {
                    IRValueView::Var(_) | IRValueView::Temp(_) => {
                        assert(rn == rv.ref_name());
                    },
                    _ => {
                        assert(defines_name(k4[0], rn));
                        assert(defined_set(k4).contains(rn));
                    },
                }
            }
            assert(wf_from(last, mid)) by {
                assert(forall|n: Seq<char>|
                    #[trigger] reads_name(last[0], n) ==> n == ln || n == rn);
            }
            lemma_wf_concat(a4, last, base, mid);
            assert(defines_name(last[0], tmp));
            assert(defined_set(gen_expr(e, c).2).contains(tmp));
        },
    }
}

/// The code lowered from a checked statement is well formed over the
/// declared names, and afterwards every declared name is either older or
/// bound by this code.
proof fn lemma_gen_stmt_wf(
    st: StatementView,
    syms: Map<Seq<char>, Type>,
    c: nat,
    base: Set<Seq<char>>,
)
    requires
        spec_check_stmt(st, syms) is Ok,
        forall|n: Seq<char>| #[trigger] syms.contains_key(n) ==> base.contains(n),
    ensures
        wf_from(gen_stmt(st, c).1, base),
        forall|n: Seq<char>| #[trigger]
            spec_check_stmt(st, syms)->Ok_0.contains_key(n) ==> base.contains(n) || defined_set(
                gen_stmt(st, c).1,
            ).contains(n),
{
    match st {
        StatementView::VarDecl { name, value } => {
            let (v, c1, k) = gen_expr(value, c);
            lemma_gen_expr_wf(value, syms, c, base);
            let last = seq![IRInstrView::Assign(name, v)];
            let mid = base.union(defined_set(k));
            assert(wf_from(last, mid)) by {
                assert(forall|n: Seq<char>|
                    #[trigger] reads_name(last[0], n) ==> !v.is_literal() && n == v.ref_name());
            }
            lemma_wf_concat(k, last, base, mid);
            lemma_defined_concat(k, last);
            assert(defines_name(last[0], name));
        },
        StatementView::Return(e) => {
            let (v, c1, k) = gen_expr(e, c);
            lemma_gen_expr_wf(e, syms, c, base);
            match v {
                IRValueView::Var(x) | IRValueView::Temp(x) => {
                    let last = seq![IRInstrView::Return(x)];
                    let mid = base.union(defined_set(k));
                    assert(wf_from(last, mid)) by {
                        assert(forall|n: Seq<char>|
                            #[trigger] reads_name(last[0], n) ==> n == x);
                    }
                    lemma_wf_concat(k, last, base, mid);
                    lemma_defined_concat(k, last);
                },
                _ => {
                    let tn = crate::intermediate_code_generator::temp_name(c1 + 1);
                    let pair = seq![
                        IRInstrView::Assign(tn, v),
                        IRInstrView::Return(tn),
                    ];
                    let mid = base.union(defined_set(k));
                    assert(wf_from(pair, mid)) by {
                        assert(!reads_name(pair[0], tn) && defines_name(pair[0], tn));
                        assert(forall|n: Seq<char>| !(#[trigger] reads_name(pair[0], n)));
                        assert(forall|n: Seq<char>|
                            #[trigger] reads_name(pair[1], n) ==> n == tn && defined_before(
                                pair,
                                1,
                                n,
                            ));
                    }
                    lemma_wf_concat(k, pair, base, mid);
                    lemma_defined_concat(k, pair);
                },
            }
        },
        StatementView::Expr(e) => {
            lemma_gen_expr_wf(e, syms, c, base);
        },
    }
}

/// The code lowered from a checked body is well formed over the declared
/// names.
proof fn lemma_gen_body_wf(
    body: Seq<StatementView>,
    syms: Map<Seq<char>, Type>,
    c: nat,
    base: Set<Seq<char>>,
)
    requires
        spec_check_body(body, syms) is Ok,
        forall|n: Seq<char>| #[trigger] syms.contains_key(n) ==> base.contains(n),
    ensures
        wf_from(gen_body(body, c).1, base),
    decreases body.len(),
{
    if body.len() == 0 {
        assert(gen_body(body, c).1 =~= Seq::<IRInstrView>::empty());
    } else {
        lemma_gen_stmt_wf(body[0], syms, c, base);
        let syms2 = spec_check_stmt(body[0], syms)->Ok_0;
        let base2 = base.union(defined_set(gen_stmt(body[0], c).1));
        lemma_gen_body_wf(body.skip(1), syms2, gen_stmt(body[0], c).0, base2);
        lemma_wf_concat(gen_stmt(body[0], c).1, gen_body(body.skip(1), gen_stmt(body[0], c).0).1, base, base2);
    }
}

/// The generator's output on a checked function body is well-formed IR: a
/// validated program can never make the backend read a name before binding
/// it.
pub proof fn lemma_generated_ir_wf(body: Seq<StatementView>, c: nat)
    requires
        spec_check_body(body, Map::empty()) is Ok,
    ensures
        wf_ir(gen_body(body, c).1),
{
    lemma_gen_body_wf(body, Map::empty(), c, Set::empty());
}

/// Definition before use, from the source language down: the bytecode
/// lowered from the optimized IR of any checked function body stores every
/// name before any load of it.
pub proof fn lemma_checked_program_stores_precede_loads(body: Seq<StatementView>, c: nat)
    requires
        spec_check_body(body, Map::empty()) is Ok,
        spec_lower(gen_body(body, c).1) is Ok,
    ensures
        spec_lower(spec_pipeline(gen_body(body, c).1)) is Ok,
        wf_bytecode(spec_lower(spec_pipeline(gen_body(body, c).1))->Ok_0),
{
    let ir = gen_body(body, c).1;
    crate::optimizer_sound::lemma_lowerable(ir);
    crate::optimizer_sound::lemma_pipeline_keeps_ops_known(ir);
    crate::optimizer_sound::lemma_lowerable(spec_pipeline(ir));
    lemma_generated_ir_wf(body, c);
    lemma_stores_precede_loads(ir);
}

/// Running well-formed IR from an environment that binds its base can fault
/// on a zero divisor or mismatched types, but never on an unbound variable:
/// every read name was bound by an earlier instruction or by the
/// environment.
pub proof fn lemma_wf_run_no_unbound(
    code: Seq<IRInstrView>,
    env: EnvView,
    base: Set<Seq<char>>,
)
    requires
        wf_from(code, base),
        forall|n: Seq<char>| base.contains(n) ==> env.contains_key(n),
    ensures
        !unbound_fault(ir_run(code, env)),
    decreases code.len(),
{
    if code.len() > 0 {
        let x = code[0];
        lemma_wf_step(code, base);
        let base2 = base.union(defined_set(seq![x]));
        match x {
            IRInstrView::Assign(t, v) => {
                match v {
                    IRValueView::Var(y) | IRValueView::Temp(y) => {
                        assert(reads_name(x, y));
                        assert(env.contains_key(y));
                    },
                    _ => {},
                }
                let val = eval_ir_value(v, env)->Ok_0;
                assert(forall|n: Seq<char>|
                    base2.contains(n) ==> env.insert(t, val).contains_key(n)) by {
                    assert(defines_name(seq![x][0], t));
                }
                lemma_wf_run_no_unbound(code.skip(1), env.insert(t, val), base2);
            },
            IRInstrView::BinaryOp(r, l, op, rr) => {
                assert(reads_name(x, l) && reads_name(x, rr));
                assert(env.contains_key(l) && env.contains_key(rr));
                match eval_binop(op, env[l], env[rr]) {
                    Ok(val) => {
                        assert(forall|n: Seq<char>|
                            base2.contains(n) ==> env.insert(r, val).contains_key(n)) by {
                            assert(defines_name(seq![x][0], r));
                        }
                        lemma_wf_run_no_unbound(code.skip(1), env.insert(r, val), base2);
                    },
                    Err(f) => {
                        // only a zero divisor or a type mismatch
                        assert(f != crate::target_code_generator::VMFault::UnboundVariable);
                    },
                }
            },
            IRInstrView::Return(n) => {
                assert(reads_name(x, n));
                assert(env.contains_key(n));
            },
        }
    }
}

/// For a checked function body, the optimizer preserves the outcome
/// outright: a validated program can never reach the unbound-variable fault
/// that elimination must otherwise be guarded against.
pub proof fn lemma_checked_program_optimizes_soundly(body: Seq<StatementView>, c: nat)
    requires
        spec_check_body(body, Map::empty()) is Ok,
    ensures
        outcomes_agree(
            ir_run(spec_pipeline(gen_body(body, c).1), Map::empty()),
            ir_run(gen_body(body, c).1, Map::empty()),
        ),
{
    let ir = gen_body(body, c).1;
    lemma_generated_ir_wf(body, c);
    lemma_wf_run_no_unbound(ir, Map::empty(), Set::empty());
    crate::optimizer_sound::lemma_optimizer_sound(ir);
}

} // verus!
