//! Stability of the optimizer: each pass leaves its own output unchanged,
//! and so does the whole pipeline. This is what makes the pipeline's
//! fixpoint iteration stop, and it is the idempotence the library promises.

use vstd::prelude::*;

use crate::intermediate_code_generator::{IRInstrView, IRValueView};
use crate::strmap::drop_key_and_value;
use crate::optimizer::{
    canonical_return, copy_step, dce_keep, dce_round_rec, fold_binop_val, fold_step, is_used,
    reads_name, resolve1, resolve_const, spec_copy, spec_dce, spec_dce_round, spec_fold,
    spec_pipeline, ConstsView, CopiesView,
};

verus! {

/// Every constant in the table is a literal.
pub open spec fn lit_consts(c: ConstsView) -> bool {
    forall|n: Seq<char>| c.contains_key(n) ==> (#[trigger] c[n]).is_literal()
}

/// Two constant tables agree on every name the code reads.
pub open spec fn consts_agree_on(c1: ConstsView, c2: ConstsView, code: Seq<IRInstrView>) -> bool {
    forall|n: Seq<char>| #[trigger]
        is_used(code, n) ==> ((c1.contains_key(n) <==> c2.contains_key(n)) && (c1.contains_key(n)
            ==> c1[n] == c2[n]))
}

/// A name is used in a list exactly when the head reads it or the rest uses
/// it.
pub proof fn lemma_used_step(code: Seq<IRInstrView>, n: Seq<char>)
    requires
        code.len() > 0,
    ensures
        is_used(code, n) <==> (reads_name(code[0], n) || is_used(code.skip(1), n)),
{
    if is_used(code, n) {
        let i = choose|i: int| 0 <= i < code.len() && reads_name(code[i], n);
        if i > 0 {
            assert(code.skip(1)[i - 1] == code[i]);
            assert(reads_name(code.skip(1)[i - 1], n));
        }
    }
    if code.len() > 0 && is_used(code.skip(1), n) {
        let i = choose|i: int| 0 <= i < code.skip(1).len() && reads_name(code.skip(1)[i], n);
        assert(code[i + 1] == code.skip(1)[i]);
        assert(reads_name(code[i + 1], n));
    }
}

/// The folding pass never shortens a list.
pub proof fn lemma_fold_len_ge(code: Seq<IRInstrView>, c: ConstsView, p: Option<IRInstrView>)
    ensures
        spec_fold(code, c, p).len() >= code.len(),
    decreases code.len(),
{
    if code.len() > 0 {
        let step = fold_step(code[0], c, p);
        lemma_fold_len_ge(code.skip(1), step.1, Some(step.0.last()));
    }
}

/// Folding a fold output changes nothing, whenever the two runs' tables
/// agree on every name the code reads.
pub proof fn lemma_fold_idem(
    code: Seq<IRInstrView>,
    c1: ConstsView,
    c2: ConstsView,
    p: Option<IRInstrView>,
)
    requires
        consts_agree_on(c1, c2, code),
        lit_consts(c1),
    ensures
        spec_fold(spec_fold(code, c1, p), c2, p) == spec_fold(code, c1, p),
    decreases code.len(), 2int,
{
    if code.len() == 0 {
        assert(spec_fold(code, c1, p) =~= Seq::<IRInstrView>::empty());
    } else {
        let x = code[0];
        let rest = code.skip(1);
        let step = fold_step(x, c1, p);
        let emit = step.0;
        let c1b = step.1;
        let out = spec_fold(code, c1, p);
        let tail = spec_fold(rest, c1b, Some(emit.last()));
        assert(out == emit + tail);
        assert forall|n: Seq<char>| reads_name(x, n) implies is_used(code, n) by {
            assert(reads_name(code[0], n));
        }
        match x {
            IRInstrView::Assign(t, v) => {
                let resolved = resolve_const(v, c1);
                // The two tables resolve the assigned value alike.
                assert(resolve_const(v, c2) == resolved) by {
                    match v {
                        IRValueView::Var(s) | IRValueView::Temp(s) => {
                            assert(reads_name(x, s));
                        },
                        _ => {},
                    }
                }
                let c2b = fold_step(emit[0], c2, p).1;
                match resolved {
                    Some(cv) => {
                        assert(emit == seq![IRInstrView::Assign(t, cv)]);
                        assert(cv.is_literal()) by {
                            match v {
                                IRValueView::Var(s) | IRValueView::Temp(s) => {
                                    assert(c1.contains_key(s) && c1[s] == cv);
                                },
                                _ => {},
                            }
                        }
                        assert(fold_step(emit[0], c2, p) == (
                            seq![IRInstrView::Assign(t, cv)],
                            c2.insert(t, cv),
                        ));
                        assert(c1b == c1.insert(t, cv));
                    },
                    None => {
                        assert(emit == seq![x]);
                        assert(c1b == c1.remove(t));
                        assert(c2b == c2.remove(t));
                    },
                }
                assert(consts_agree_on(c1b, c2b, rest)) by {
                    assert forall|n: Seq<char>| is_used(rest, n) implies (
                        (c1b.contains_key(n) <==> c2b.contains_key(n)) && (c1b.contains_key(n)
                            ==> c1b[n] == c2b[n])) by {
                        lemma_used_step(code, n);
                    }
                }
                finish_one(code, c1, c2, p, emit, c1b, c2b);
            },
            IRInstrView::BinaryOp(r, l, op, rr) => {
                assert(reads_name(x, l) && reads_name(x, rr));
                if c1.contains_key(l) && c1.contains_key(rr) {
                    assert(c2.contains_key(l) && c2[l] == c1[l]);
                    assert(c2.contains_key(rr) && c2[rr] == c1[rr]);
                    match fold_binop_val(c1[l], op, c1[rr]) {
                        Some(cv) => {
                            assert(emit == seq![IRInstrView::Assign(r, cv)]);
                            assert(c1b == c1.insert(r, cv));
                            assert(fold_step(emit[0], c2, p) == (
                                seq![IRInstrView::Assign(r, cv)],
                                c2.insert(r, cv),
                            ));
                        },
                        None => {
                            assert(emit == seq![x] && c1b == c1.remove(r));
                            assert(fold_step(emit[0], c2, p) == (seq![x], c2.remove(r)));
                        },
                    }
                } else {
                    assert(!(c2.contains_key(l) && c2.contains_key(rr)));
                    assert(emit == seq![x] && c1b == c1.remove(r));
                    assert(fold_step(emit[0], c2, p) == (seq![x], c2.remove(r)));
                }
                let c2b = fold_step(emit[0], c2, p).1;
                assert(consts_agree_on(c1b, c2b, rest)) by {
                    assert forall|n: Seq<char>| is_used(rest, n) implies (
                        (c1b.contains_key(n) <==> c2b.contains_key(n)) && (c1b.contains_key(n)
                            ==> c1b[n] == c2b[n])) by {
                        lemma_used_step(code, n);
                    }
                }
                finish_one(code, c1, c2, p, emit, c1b, c2b);
            },
            IRInstrView::Return(n) => {
                assert(reads_name(x, n));
                assert(is_used(code, n));
                if !c1.contains_key(n) {
                    assert(emit == seq![x] && c1b == c1);
                    assert(!c2.contains_key(n));
                    assert(fold_step(emit[0], c2, p) == (seq![x], c2));
                    assert(consts_agree_on(c1, c2, rest)) by {
                        assert forall|m: Seq<char>| is_used(rest, m) implies (
                            (c1.contains_key(m) <==> c2.contains_key(m)) && (c1.contains_key(m)
                                ==> c1[m] == c2[m])) by {
                            lemma_used_step(code, m);
                        }
                    }
                    finish_one(code, c1, c2, p, emit, c1b, c2);
                } else if canonical_return(p, n) {
                    assert(emit == seq![x] && c1b == c1);
                    assert(c2.contains_key(n));
                    assert(fold_step(emit[0], c2, p) == (seq![x], c2));
                    assert(consts_agree_on(c1, c2, rest)) by {
                        assert forall|m: Seq<char>| is_used(rest, m) implies (
                            (c1.contains_key(m) <==> c2.contains_key(m)) && (c1.contains_key(m)
                                ==> c1[m] == c2[m])) by {
                            lemma_used_step(code, m);
                        }
                    }
                    finish_one(code, c1, c2, p, emit, c1b, c2);
                } else {
                    // the rewritten pair: a literal assignment, then the
                    // return, which the second run finds canonical.
                    let cv = c1[n];
                    assert(cv.is_literal());
                    assert(emit == seq![IRInstrView::Assign(n, cv), IRInstrView::Return(n)]);
                    assert(c1b == c1);
                    let pe = Some(emit.last());
                    assert(out[0] == IRInstrView::Assign(n, cv));
                    assert(fold_step(out[0], c2, p) == (
                        seq![IRInstrView::Assign(n, cv)],
                        c2.insert(n, cv),
                    ));
                    let c2x = c2.insert(n, cv);
                    let mid = out.skip(1);
                    assert(mid =~= seq![IRInstrView::Return(n)] + tail);
                    assert(spec_fold(out, c2, p) == seq![IRInstrView::Assign(n, cv)] + spec_fold(
                        mid,
                        c2x,
                        Some(IRInstrView::Assign(n, cv)),
                    ));
                    assert(mid[0] == IRInstrView::Return(n));
                    assert(canonical_return(Some(IRInstrView::Assign(n, cv)), n));
                    assert(c2x.contains_key(n));
                    assert(fold_step(mid[0], c2x, Some(IRInstrView::Assign(n, cv))) == (
                        seq![IRInstrView::Return(n)],
                        c2x,
                    ));
                    assert(mid.skip(1) =~= tail);
                    assert(spec_fold(mid, c2x, Some(IRInstrView::Assign(n, cv)))
                        == seq![IRInstrView::Return(n)] + spec_fold(
                        tail,
                        c2x,
                        Some(IRInstrView::Return(n)),
                    ));
                    assert(consts_agree_on(c1, c2x, rest)) by {
                        assert forall|m: Seq<char>| is_used(rest, m) implies (
                            (c1.contains_key(m) <==> c2x.contains_key(m)) && (c1.contains_key(m)
                                ==> c1[m] == c2x[m])) by {
                            lemma_used_step(code, m);
                        }
                    }
                    lemma_fold_idem(rest, c1, c2x, Some(IRInstrView::Return(n)));
                    assert(spec_fold(tail, c2x, Some(IRInstrView::Return(n))) == tail);
                    assert(seq![IRInstrView::Assign(n, cv)] + (seq![IRInstrView::Return(n)] + tail)
                        =~= out);
                }
            },
        }
    }
}

/// Finish the single-instruction cases of `lemma_fold_idem`: the second run
/// re-emits the one emitted instruction and the runs continue in agreement.
proof fn finish_one(
    code: Seq<IRInstrView>,
    c1: ConstsView,
    c2: ConstsView,
    p: Option<IRInstrView>,
    emit: Seq<IRInstrView>,
    c1b: ConstsView,
    c2b: ConstsView,
)
    requires
        code.len() > 0,
        fold_step(code[0], c1, p) == (emit, c1b),
        emit.len() == 1,
        fold_step(emit[0], c2, p) == (seq![emit[0]], c2b),
        consts_agree_on(c1b, c2b, code.skip(1)),
        lit_consts(c1b),
    ensures
        spec_fold(spec_fold(code, c1, p), c2, p) == spec_fold(code, c1, p),
    decreases code.len(), 1int,
{
    let rest = code.skip(1);
    let tail = spec_fold(rest, c1b, Some(emit.last()));
    let out = spec_fold(code, c1, p);
    assert(out == emit + tail);
    assert(out[0] == emit[0]);
    assert(out.skip(1) =~= tail);
    assert(emit =~= seq![emit[0]]);
    assert(spec_fold(out, c2, p) == seq![emit[0]] + spec_fold(tail, c2b, Some(emit[0])));
    assert(emit.last() == emit[0]);
    lemma_fold_idem(rest, c1b, c2b, Some(emit[0]));
    assert(seq![emit[0]] + tail =~= out);
}

/// No recorded copy source is itself recorded as a copy: the table maps
/// names to roots only, so resolution is one lookup and chains never form.
pub open spec fn root_map(m: CopiesView) -> bool {
    forall|k: Seq<char>| #[trigger] m.contains_key(k) ==> !m.contains_key(m[k])
}

/// Dropping every entry that mentions a redefined name, then recording a
/// root as the new source, keeps the table mapping to roots only.
pub proof fn lemma_root_drop(m: CopiesView, t: Seq<char>)
    requires
        root_map(m),
    ensures
        root_map(drop_key_and_value(m, t)),
{
}

pub proof fn lemma_root_update(m: CopiesView, t: Seq<char>, s2: Seq<char>)
    requires
        root_map(m),
        !m.contains_key(s2),
        s2 != t,
    ensures
        root_map(drop_key_and_value(m, t).insert(t, s2)),
{
}

/// A resolved name is a root: resolving it again changes nothing.
pub proof fn lemma_resolve_root(m: CopiesView, x: Seq<char>)
    requires
        root_map(m),
    ensures
        !m.contains_key(resolve1(m, x)) || resolve1(m, x) == x,
{
}

/// Running copy propagation on its own output changes nothing, from any
/// table that maps to roots only.
pub proof fn lemma_copy_idem(code: Seq<IRInstrView>, m: CopiesView)
    requires
        root_map(m),
    ensures
        spec_copy(spec_copy(code, m), m) == spec_copy(code, m),
    decreases code.len(),
{
    if code.len() == 0 {
        assert(spec_copy(code, m) =~= Seq::<IRInstrView>::empty());
    } else {
        let x = code[0];
        let rest = code.skip(1);
        let step = copy_step(x, m);
        let emit = step.0;
        let m1 = step.1;
        let out = spec_copy(code, m);
        let tail = spec_copy(rest, m1);
        assert(out == emit + tail);
        // The second run makes the same step and reaches the same table.
        assert(copy_step(emit[0], m) == (emit, m1) && root_map(m1)) by {
            match x {
                IRInstrView::Assign(t, v) => {
                    match v {
                        IRValueView::Var(s) | IRValueView::Temp(s) => {
                            let s2 = resolve1(m, s);
                            lemma_resolve_root(m, s);
                            if s2 == t {
                                lemma_root_drop(m, t);
                            } else {
                                lemma_root_update(m, t, s2);
                            }
                        },
                        _ => {
                            lemma_root_drop(m, t);
                        },
                    }
                },
                IRInstrView::BinaryOp(r, l, op, rr) => {
                    lemma_resolve_root(m, l);
                    lemma_resolve_root(m, rr);
                    lemma_root_drop(m, r);
                },
                IRInstrView::Return(n) => {
                    lemma_resolve_root(m, n);
                },
            }
        }
        lemma_copy_idem(rest, m1);
        assert(out[0] == emit[0]);
        assert(out.skip(1) =~= tail);
        assert(spec_copy(out, m) == emit + spec_copy(tail, m1));
        assert(emit + tail =~= out);
    }
}

/// Copy propagation emits exactly one instruction per instruction.
pub proof fn lemma_copy_len(code: Seq<IRInstrView>, m: CopiesView)
    ensures
        spec_copy(code, m).len() == code.len(),
    decreases code.len(),
{
    if code.len() > 0 {
        let step = copy_step(code[0], m);
        lemma_copy_len(code.skip(1), step.1);
    }
}

/// In a fold-stable list, the head folds to itself and the tail is stable.
pub proof fn lemma_fold_stable_head(x: Seq<IRInstrView>, c: ConstsView, p: Option<IRInstrView>)
    requires
        x.len() > 0,
        spec_fold(x, c, p) == x,
    ensures
        fold_step(x[0], c, p).0 == seq![x[0]],
        spec_fold(x.skip(1), fold_step(x[0], c, p).1, Some(x[0])) == x.skip(1),
{
    let step = fold_step(x[0], c, p);
    let emit = step.0;
    let tail = spec_fold(x.skip(1), step.1, Some(emit.last()));
    assert(spec_fold(x, c, p) == emit + tail);
    lemma_fold_len_ge(x.skip(1), step.1, Some(emit.last()));
    assert(emit.len() == 1 || emit.len() == 2) by {
        match x[0] {
            IRInstrView::Assign(t, v) => {},
            IRInstrView::BinaryOp(r, l, op, rr) => {},
            IRInstrView::Return(n) => {},
        }
    }
    assert(emit.len() == 1);
    assert(emit =~= seq![(emit + tail)[0]]);
    assert(tail =~= x.skip(1)) by {
        assert(forall|j: int| 0 <= j < tail.len() ==> tail[j] == (emit + tail)[j + 1]);
    }
    assert(Some(emit.last()) == Some(x[0]));
}

/// In a copy-stable list, the head is emitted unchanged and the tail is
/// stable.
pub proof fn lemma_copy_stable_head(x: Seq<IRInstrView>, m: CopiesView)
    requires
        x.len() > 0,
        spec_copy(x, m) == x,
    ensures
        copy_step(x[0], m).0 == seq![x[0]],
        spec_copy(x.skip(1), copy_step(x[0], m).1) == x.skip(1),
{
    let step = copy_step(x[0], m);
    let emit = step.0;
    let tail = spec_copy(x.skip(1), step.1);
    assert(spec_copy(x, m) == emit + tail);
    assert(emit.len() == 1) by {
        match x[0] {
            IRInstrView::Assign(t, v) => {},
            IRInstrView::BinaryOp(r, l, op, rr) => {},
            IRInstrView::Return(n) => {},
        }
    }
    assert(emit =~= seq![(emit + tail)[0]]);
    assert(tail =~= x.skip(1)) by {
        assert(forall|j: int| 0 <= j < tail.len() ==> tail[j] == (emit + tail)[j + 1]);
    }
}

/// No recorded copy source is a name the constant table binds. The copy
/// table drops every entry that mentions a name when that name is redefined,
/// and only a literal definition can bind a name in the constant table, so
/// the two stay disjoint in this sense.
pub open spec fn copy_vals_unbound(m: CopiesView, c: ConstsView) -> bool {
    forall|k: Seq<char>| #[trigger] m.contains_key(k) ==> !c.contains_key(m[k])
}

/// Two previous-instruction views that satisfy the canonical-return test for
/// exactly the same names.
pub open spec fn canon_equiv(p1: Option<IRInstrView>, p2: Option<IRInstrView>) -> bool {
    forall|n: Seq<char>|
        #![trigger canonical_return(p1, n)]
        #![trigger canonical_return(p2, n)]
        canonical_return(p1, n) == canonical_return(p2, n)
}

/// Copy propagation keeps a list fold-stable: a rewritten use points at a
/// name the constant table cannot bind, so no new folding opportunity
/// appears.
pub proof fn lemma_copy_keeps_fold_stable(
    x: Seq<IRInstrView>,
    c: ConstsView,
    m: CopiesView,
    p1: Option<IRInstrView>,
    p2: Option<IRInstrView>,
)
    requires
        spec_fold(x, c, p1) == x,
        lit_consts(c),
        copy_vals_unbound(m, c),
        canon_equiv(p1, p2),
    ensures
        spec_fold(spec_copy(x, m), c, p2) == spec_copy(x, m),
    decreases x.len(),
{
    if x.len() == 0 {
        assert(spec_copy(x, m) =~= Seq::<IRInstrView>::empty());
    } else {
        let x0 = x[0];
        let rest = x.skip(1);
        lemma_fold_stable_head(x, c, p1);
        let cb = fold_step(x0, c, p1).1;
        let stepc = copy_step(x0, m);
        let emitc = stepc.0;
        let m1 = stepc.1;
        let outc = spec_copy(x, m);
        let tailc = spec_copy(rest, m1);
        assert(outc == emitc + tailc);
        // The fold of the rewritten head emits it unchanged and updates the
        // constant table exactly as the fold of the original head did.
        assert(fold_step(emitc[0], c, p2) == (emitc, cb) && copy_vals_unbound(m1, cb)
            && canon_equiv(Some(x0), Some(emitc[0]))) by {
            match x0 {
                IRInstrView::Assign(t, v) => {
                    match v {
                        IRValueView::Var(s) | IRValueView::Temp(s) => {
                            // stability means the source is not a constant
                            assert(!c.contains_key(s)) by {
                                if c.contains_key(s) {
                                    assert(fold_step(x0, c, p1).0 == seq![
                                        IRInstrView::Assign(t, c[s]),
                                    ]);
                                    assert(c[s].is_literal());
                                }
                            }
                            let s2 = resolve1(m, s);
                            if s2 == t {
                                assert(emitc == seq![x0]);
                            } else {
                                assert(emitc == seq![IRInstrView::Assign(t, IRValueView::Var(s2))]);
                                assert(!c.contains_key(s2));
                            }
                        },
                        _ => {},
                    }
                },
                IRInstrView::BinaryOp(r, l, op, rr) => {
                    let l2 = resolve1(m, l);
                    let rr2 = resolve1(m, rr);
                    assert(emitc == seq![IRInstrView::BinaryOp(r, l2, op, rr2)]);
                    if c.contains_key(l2) && c.contains_key(rr2) {
                        assert(l2 == l && rr2 == rr);
                        assert(fold_binop_val(c[l], op, c[rr]) is None) by {
                            if fold_binop_val(c[l], op, c[rr]) is Some {
                                assert(fold_step(x0, c, p1).0 == seq![
                                    IRInstrView::Assign(r, fold_binop_val(c[l], op, c[rr])->0),
                                ]);
                            }
                        }
                    }
                },
                IRInstrView::Return(n) => {
                    let n2 = resolve1(m, n);
                    assert(emitc == seq![IRInstrView::Return(n2)]);
                    if m.contains_key(n) {
                        assert(!c.contains_key(n2));
                    } else {
                        assert(n2 == n);
                        if c.contains_key(n) {
                            // stability means the return was already canonical
                            assert(canonical_return(p1, n)) by {
                                if !canonical_return(p1, n) {
                                    assert(fold_step(x0, c, p1).0.len() == 2);
                                }
                            }
                            assert(canonical_return(p2, n));
                        }
                    }
                },
            }
        }
        lemma_copy_keeps_fold_stable(rest, cb, m1, Some(x0), Some(emitc[0]));
        assert(outc[0] == emitc[0]);
        assert(outc.skip(1) =~= tailc);
        assert(spec_fold(outc, c, p2) == emitc + spec_fold(tailc, cb, Some(emitc[0])));
        assert(emitc + tailc =~= outc);
    }
}

/// Constant tables that agree on every name the whole list reads.
pub open spec fn consts_agree_used(c1: ConstsView, c2: ConstsView, full: Seq<IRInstrView>) -> bool {
    forall|n: Seq<char>| #[trigger]
        is_used(full, n) ==> ((c1.contains_key(n) <==> c2.contains_key(n)) && (c1.contains_key(n)
            ==> c1[n] == c2[n]))
}

/// One elimination round keeps a list fold-stable. The sub-run's table can
/// miss the bindings of dropped assignments, but a dropped assignment's
/// target is read nowhere, so no decision ever looks at them; and the
/// literal assignment that makes a constant return canonical is itself kept,
/// because the return reads its name.
pub proof fn lemma_dce_round_keeps_fold_stable(
    full: Seq<IRInstrView>,
    i: int,
    cf: ConstsView,
    cs: ConstsView,
    pf: Option<IRInstrView>,
    ps: Option<IRInstrView>,
)
    requires
        0 <= i <= full.len(),
        spec_fold(full.skip(i), cf, pf) == full.skip(i),
        lit_consts(cf),
        consts_agree_used(cf, cs, full),
        forall|n: Seq<char>|
            canonical_return(pf, n) && is_used(full, n) ==> #[trigger] canonical_return(ps, n),
    ensures
        spec_fold(dce_round_rec(full, i), cs, ps) == dce_round_rec(full, i),
    decreases full.len() - i,
{
    if i == full.len() {
        assert(dce_round_rec(full, i) =~= Seq::<IRInstrView>::empty());
    } else {
        let x = full[i];
        let suffix = full.skip(i);
        assert(suffix[0] == x);
        assert(suffix.skip(1) =~= full.skip(i + 1));
        lemma_fold_stable_head(suffix, cf, pf);
        let cfb = fold_step(x, cf, pf).1;
        assert forall|n: Seq<char>| reads_name(x, n) implies is_used(full, n) by {
            assert(reads_name(full[i], n));
        }
        if dce_keep(full, x) {
            // The sub-run makes the same decision on the kept instruction.
            let csb = fold_step(x, cs, ps).1;
            assert(fold_step(x, cs, ps) == (seq![x], csb) && consts_agree_used(cfb, csb, full)
                && lit_consts(cfb)) by {
                match x {
                    IRInstrView::Assign(t, v) => {
                        match v {
                            IRValueView::Var(s) | IRValueView::Temp(s) => {
                                assert(is_used(full, s)) by {
                                    assert(reads_name(full[i], s));
                                }
                                assert(!cf.contains_key(s)) by {
                                    if cf.contains_key(s) {
                                        assert(fold_step(x, cf, pf).0 == seq![
                                            IRInstrView::Assign(t, cf[s]),
                                        ]);
                                        assert(cf[s].is_literal());
                                    }
                                }
                                assert(!cs.contains_key(s));
                            },
                            _ => {},
                        }
                    },
                    IRInstrView::BinaryOp(r, l, op, rr) => {
                        assert(is_used(full, l) && is_used(full, rr)) by {
                            assert(reads_name(full[i], l));
                            assert(reads_name(full[i], rr));
                        }
                        if cf.contains_key(l) && cf.contains_key(rr) {
                            assert(cs.contains_key(l) && cs[l] == cf[l]);
                            assert(cs.contains_key(rr) && cs[rr] == cf[rr]);
                            assert(fold_binop_val(cf[l], op, cf[rr]) is None) by {
                                if fold_binop_val(cf[l], op, cf[rr]) is Some {
                                    assert(fold_step(x, cf, pf).0 == seq![
                                        IRInstrView::Assign(
                                            r,
                                            fold_binop_val(cf[l], op, cf[rr])->0,
                                        ),
                                    ]);
                                }
                            }
                        } else {
                            assert(!(cs.contains_key(l) && cs.contains_key(rr)));
                        }
                    },
                    IRInstrView::Return(n) => {
                        assert(is_used(full, n)) by {
                            assert(reads_name(full[i], n));
                        }
                        if cf.contains_key(n) {
                            assert(canonical_return(pf, n)) by {
                                if !canonical_return(pf, n) {
                                    assert(fold_step(x, cf, pf).0.len() == 2);
                                }
                            }
                            assert(canonical_return(ps, n));
                            assert(cs.contains_key(n));
                        } else {
                            assert(!cs.contains_key(n));
                        }
                    },
                }
            }
            assert forall|n: Seq<char>|
                canonical_return(Some(x), n) && is_used(full, n) implies #[trigger]
                canonical_return(Some(x), n) by {}
            lemma_dce_round_keeps_fold_stable(full, i + 1, cfb, csb, Some(x), Some(x));
            let rr2 = dce_round_rec(full, i + 1);
            assert(dce_round_rec(full, i) == seq![x] + rr2);
            assert((seq![x] + rr2)[0] == x);
            assert((seq![x] + rr2).skip(1) =~= rr2);
            assert(spec_fold(seq![x] + rr2, cs, ps) == seq![x] + spec_fold(rr2, csb, Some(x)));
        } else {
            // A dropped assignment binds a name that is never read.
            let t = match x {
                IRInstrView::Assign(t, _) => t,
                _ => Seq::empty(),
            };
            assert(x is Assign && !is_used(full, t));
            assert(consts_agree_used(cfb, cs, full)) by {
                assert forall|n: Seq<char>| is_used(full, n) implies ((cfb.contains_key(n)
                    <==> cs.contains_key(n)) && (cfb.contains_key(n) ==> cfb[n] == cs[n])) by {
                    assert(n != t);
                }
            }
            assert forall|n: Seq<char>|
                canonical_return(Some(x), n) && is_used(full, n) implies #[trigger]
                canonical_return(ps, n) by {
                assert(n == t);
            }
            lemma_dce_round_keeps_fold_stable(full, i + 1, cfb, cs, Some(x), ps);
            assert(dce_round_rec(full, i) =~= dce_round_rec(full, i + 1));
        }
    }
}

/// The whole elimination fixpoint keeps a list fold-stable.
pub proof fn lemma_dce_keeps_fold_stable(y: Seq<IRInstrView>)
    requires
        spec_fold(y, Map::empty(), None) == y,
    ensures
        spec_fold(spec_dce(y), Map::empty(), None) == spec_dce(y),
    decreases y.len(),
{
    assert(y.skip(0) =~= y);
    lemma_dce_round_keeps_fold_stable(y, 0, Map::empty(), Map::empty(), None, None);
    let r = spec_dce_round(y);
    if r.len() < y.len() {
        lemma_dce_keeps_fold_stable(r);
    }
}

/// Copy tables that agree on every name the whole list reads.
pub open spec fn copies_agree_used(m1: CopiesView, m2: CopiesView, full: Seq<IRInstrView>) -> bool {
    forall|n: Seq<char>| #[trigger]
        is_used(full, n) ==> ((m1.contains_key(n) <==> m2.contains_key(n)) && (m1.contains_key(n)
            ==> m1[n] == m2[n]))
}

/// Every recorded copy source is a name the list reads somewhere.
pub open spec fn copy_vals_used(m: CopiesView, full: Seq<IRInstrView>) -> bool {
    forall|k: Seq<char>| #[trigger] m.contains_key(k) ==> is_used(full, m[k])
}

/// One elimination round keeps a list copy-stable.
pub proof fn lemma_dce_round_keeps_copy_stable(
    full: Seq<IRInstrView>,
    i: int,
    mf: CopiesView,
    ms: CopiesView,
)
    requires
        0 <= i <= full.len(),
        spec_copy(full.skip(i), mf) == full.skip(i),
        copies_agree_used(mf, ms, full),
        copy_vals_used(mf, full),
        copy_vals_used(ms, full),
    ensures
        spec_copy(dce_round_rec(full, i), ms) == dce_round_rec(full, i),
    decreases full.len() - i,
{
    if i == full.len() {
        assert(dce_round_rec(full, i) =~= Seq::<IRInstrView>::empty());
    } else {
        let x = full[i];
        let suffix = full.skip(i);
        assert(suffix[0] == x);
        assert(suffix.skip(1) =~= full.skip(i + 1));
        lemma_copy_stable_head(suffix, mf);
        let mfb = copy_step(x, mf).1;
        assert forall|n: Seq<char>| reads_name(x, n) implies is_used(full, n) by {
            assert(reads_name(full[i], n));
        }
        if dce_keep(full, x) {
            let msb = copy_step(x, ms).1;
            assert(copy_step(x, ms) == (seq![x], msb) && copies_agree_used(mfb, msb, full)
                && copy_vals_used(mfb, full) && copy_vals_used(msb, full)) by {
                match x {
                    IRInstrView::Assign(t, v) => {
                        match v {
                            IRValueView::Var(s) | IRValueView::Temp(s) => {
                                assert(is_used(full, s)) by {
                                    assert(reads_name(full[i], s));
                                }
                                assert(resolve1(ms, s) == resolve1(mf, s));
                                let s2 = resolve1(mf, s);
                                if s2 == t {
                                    assert(copy_step(x, mf).0 == seq![x]);
                                } else {
                                    // stability: the emitted value equals the original
                                    assert(IRValueView::Var(s2) == v) by {
                                        assert(copy_step(x, mf).0 == seq![
                                            IRInstrView::Assign(t, IRValueView::Var(s2)),
                                        ]);
                                    }
                                    assert(is_used(full, s2));
                                }
                            },
                            _ => {},
                        }
                    },
                    IRInstrView::BinaryOp(r, l, op, rr) => {
                        assert(is_used(full, l) && is_used(full, rr)) by {
                            assert(reads_name(full[i], l));
                            assert(reads_name(full[i], rr));
                        }
                        assert(copy_step(x, mf).0 == seq![
                            IRInstrView::BinaryOp(r, resolve1(mf, l), op, resolve1(mf, rr)),
                        ]);
                        assert(resolve1(mf, l) == l && resolve1(mf, rr) == rr);
                        assert(resolve1(ms, l) == l && resolve1(ms, rr) == rr);
                    },
                    IRInstrView::Return(n) => {
                        assert(is_used(full, n)) by {
                            assert(reads_name(full[i], n));
                        }
                        assert(copy_step(x, mf).0 == seq![IRInstrView::Return(resolve1(mf, n))]);
                        assert(resolve1(mf, n) == n);
                        assert(resolve1(ms, n) == n);
                    },
                }
            }
            lemma_dce_round_keeps_copy_stable(full, i + 1, mfb, msb);
            let rr2 = dce_round_rec(full, i + 1);
            assert(dce_round_rec(full, i) == seq![x] + rr2);
            assert((seq![x] + rr2)[0] == x);
            assert((seq![x] + rr2).skip(1) =~= rr2);
            assert(spec_copy(seq![x] + rr2, ms) == seq![x] + spec_copy(rr2, msb));
        } else {
            let t = match x {
                IRInstrView::Assign(t, _) => t,
                _ => Seq::empty(),
            };
            assert(x is Assign && !is_used(full, t));
            assert(copies_agree_used(mfb, ms, full) && copy_vals_used(mfb, full)) by {
                assert forall|n: Seq<char>| is_used(full, n) implies ((mfb.contains_key(n)
                    <==> ms.contains_key(n)) && (mfb.contains_key(n) ==> mfb[n] == ms[n])) by {
                    assert(n != t);
                    if mf.contains_key(n) {
                        assert(is_used(full, mf[n]));
                        assert(mf[n] != t);
                    }
                }
                match x {
                    IRInstrView::Assign(t2, v) => match v {
                        IRValueView::Var(s) | IRValueView::Temp(s) => {
                            assert(reads_name(x, s));
                            if mf.contains_key(s) {
                                assert(is_used(full, mf[s]));
                            }
                        },
                        _ => {},
                    },
                    _ => {},
                }
            }
            lemma_dce_round_keeps_copy_stable(full, i + 1, mfb, ms);
            assert(dce_round_rec(full, i) =~= dce_round_rec(full, i + 1));
        }
    }
}

/// The whole elimination fixpoint keeps a list copy-stable.
pub proof fn lemma_dce_keeps_copy_stable(y: Seq<IRInstrView>)
    requires
        spec_copy(y, Map::empty()) == y,
    ensures
        spec_copy(spec_dce(y), Map::empty()) == spec_dce(y),
    decreases y.len(),
{
    assert(y.skip(0) =~= y);
    lemma_dce_round_keeps_copy_stable(y, 0, Map::empty(), Map::empty());
    let r = spec_dce_round(y);
    if r.len() < y.len() {
        lemma_dce_keeps_copy_stable(r);
    }
}

/// Eliminating dead code from an already-eliminated list changes nothing.
pub proof fn lemma_dce_idem(y: Seq<IRInstrView>)
    ensures
        spec_dce(spec_dce(y)) == spec_dce(y),
    decreases y.len(),
{
    let r = spec_dce_round(y);
    crate::optimizer::lemma_dce_round_len(y, 0);
    if r.len() < y.len() {
        lemma_dce_idem(r);
    } else {
        assert(y.skip(0) =~= y);
        assert(r == y);
        assert(spec_dce(y) == y);
    }
}

/// Idempotence: one pipeline iteration reaches a stable fixpoint, and
/// running the pipeline on already-optimized IR changes nothing further.
pub proof fn lemma_pipeline_idempotent(code: Seq<IRInstrView>)
    ensures
        spec_pipeline(spec_pipeline(code)) == spec_pipeline(code),
{
    let a = spec_fold(code, Map::empty(), None);
    let b = spec_copy(a, Map::empty());
    let z = spec_dce(b);
    // z is fold-stable
    lemma_fold_idem(code, Map::empty(), Map::empty(), None);
    lemma_copy_keeps_fold_stable(a, Map::empty(), Map::empty(), None, None);
    lemma_dce_keeps_fold_stable(b);
    // z is copy-stable
    lemma_copy_idem(a, Map::empty());
    lemma_dce_keeps_copy_stable(b);
    // z is elimination-stable
    lemma_dce_idem(b);
    assert(spec_pipeline(z) == z);
}

} // verus!
