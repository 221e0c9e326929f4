//! The optimizer: a pipeline of three passes — constant fold and propagate,
//! copy propagation, dead-code elimination — iterated until the instruction
//! count is stable. Each pass is a pure list-to-list transform whose contract
//! says exactly which list it produces.

use vstd::prelude::*;

use crate::intermediate_code_generator::{clone_ir_list, IRInstr, IRInstrView, IRValue, IRValueView};
use crate::numerals::is_digit_char;
use crate::semantics::{wrap_add, wrap_div, wrap_mul, wrap_sub};
use crate::strmap::{drop_key_and_value, StrMap};
use crate::text::{chars_of_str, str_eq};

verus! {

/// A constant table: the names currently known to hold a literal.
pub type ConstsView = Map<Seq<char>, IRValueView>;

/// A copy table: the names currently known to be copies of another name.
pub type CopiesView = Map<Seq<char>, Seq<char>>;

/// The constant an assigned value resolves to: a literal resolves to itself,
/// a name to its entry in the table.
pub open spec fn resolve_const(v: IRValueView, consts: ConstsView) -> Option<IRValueView> {
    match v {
        IRValueView::Int(_) | IRValueView::Bool(_) | IRValueView::Str(_) => Some(v),
        IRValueView::Var(x) | IRValueView::Temp(x) => if consts.contains_key(x) {
            Some(consts[x])
        } else {
            None
        },
    }
}

/// Is the previously emitted instruction already a literal assignment to the
/// returned name? Then the return needs no further rewriting.
pub open spec fn canonical_return(prev: Option<IRInstrView>, n: Seq<char>) -> bool {
    match prev {
        Some(IRInstrView::Assign(m, v)) => m == n && v.is_literal(),
        _ => false,
    }
}

/// What the folding pass makes of one instruction under a constant table:
/// the instructions it emits and the table afterwards.
pub open spec fn fold_step(instr: IRInstrView, consts: ConstsView, prev: Option<IRInstrView>) -> (
    Seq<IRInstrView>,
    ConstsView,
) {
    match instr {
        IRInstrView::Assign(t, v) => match resolve_const(v, consts) {
            Some(cv) => (seq![IRInstrView::Assign(t, cv)], consts.insert(t, cv)),
            None => (seq![instr], consts.remove(t)),
        },
        IRInstrView::BinaryOp(r, l, op, rr) => {
            if consts.contains_key(l) && consts.contains_key(rr) {
                fold_binop(instr, r, consts[l], op, consts[rr], consts)
            } else {
                (seq![instr], consts.remove(r))
            }
        },
        IRInstrView::Return(n) => if consts.contains_key(n) {
            if canonical_return(prev, n) {
                (seq![instr], consts)
            } else {
                (seq![IRInstrView::Assign(n, consts[n]), IRInstrView::Return(n)], consts)
            }
        } else {
            (seq![instr], consts)
        },
    }
}

/// The constant a binary operation folds to, when it folds: integer
/// arithmetic folds with the machine's own wrapped operations — except a
/// division by a known zero, which is deliberately left as a runtime
/// operation — and string `+` folds to concatenation. Every other
/// combination (booleans, mixed types, an unrecognized operator) does not
/// fold.
pub open spec fn fold_binop_val(a: IRValueView, op: Seq<char>, b: IRValueView) -> Option<
    IRValueView,
> {
    match (a, b) {
        (IRValueView::Int(x), IRValueView::Int(y)) => {
            if op == "+"@ {
                Some(IRValueView::Int(wrap_add(x, y)))
            } else if op == "-"@ {
                Some(IRValueView::Int(wrap_sub(x, y)))
            } else if op == "*"@ {
                Some(IRValueView::Int(wrap_mul(x, y)))
            } else if op == "/"@ {
                if y == 0 {
                    None
                } else {
                    Some(IRValueView::Int(wrap_div(x, y)))
                }
            } else {
                None
            }
        },
        (IRValueView::Str(x), IRValueView::Str(y)) => if op == "+"@ {
            Some(IRValueView::Str(x + y))
        } else {
            None
        },
        _ => None,
    }
}

/// Folding of one binary operation whose operands are both known: fold when
/// the operation folds, else leave it and clear the result's binding.
pub open spec fn fold_binop(
    instr: IRInstrView,
    r: Seq<char>,
    a: IRValueView,
    op: Seq<char>,
    b: IRValueView,
    consts: ConstsView,
) -> (Seq<IRInstrView>, ConstsView) {
    match fold_binop_val(a, op, b) {
        Some(cv) => fold_to(r, cv, consts),
        None => (seq![instr], consts.remove(r)),
    }
}

/// Emit a folded constant assignment and record it.
pub open spec fn fold_to(r: Seq<char>, folded: IRValueView, consts: ConstsView) -> (
    Seq<IRInstrView>,
    ConstsView,
) {
    (seq![IRInstrView::Assign(r, folded)], consts.insert(r, folded))
}

/// The previously emitted instruction, for the canonical-return test.
pub open spec fn prev_of(emitted: Seq<IRInstrView>) -> Option<IRInstrView> {
    if emitted.len() == 0 {
        None
    } else {
        Some(emitted.last())
    }
}

/// The folding pass over a whole list.
pub open spec fn spec_fold(
    code: Seq<IRInstrView>,
    consts: ConstsView,
    prev: Option<IRInstrView>,
) -> Seq<IRInstrView>
    decreases code.len(),
{
    if code.len() == 0 {
        Seq::empty()
    } else {
        let (emit, consts2) = fold_step(code[0], consts, prev);
        emit + spec_fold(code.skip(1), consts2, Some(emit.last()))
    }
}

/// Constant folding and propagation: a single left-to-right scan that keeps
/// a name-to-constant table. A returned name known to be constant is pinned
/// by a literal assignment immediately before the return, unless one is
/// already there, so the pass has a stable fixpoint.
pub fn constant_fold_and_propagate(code: &Vec<IRInstr>) -> (r: Vec<IRInstr>)
    ensures
        r.deep_view() == spec_fold(code.deep_view(), Map::empty(), None),
{
    let n = code.len();
    let mut out: Vec<IRInstr> = Vec::new();
    let mut consts: StrMap<IRValue> = StrMap::new();
    proof {
        assert(code.deep_view().skip(0) =~= code.deep_view());
        assert(Seq::<IRInstrView>::empty() + spec_fold(code.deep_view(), Map::empty(), None)
            =~= spec_fold(code.deep_view(), Map::empty(), None));
    }
    let mut i: usize = 0;
    while i < n
        invariant
            0 <= i <= n,
            n == code.deep_view().len(),
            consts.wf(),
            spec_fold(code.deep_view(), Map::empty(), None) == out.deep_view() + spec_fold(
                code.deep_view().skip(i as int),
                consts@,
                prev_of(out.deep_view()),
            ),
        decreases n - i,
    {
        let ghost pre = code.deep_view().skip(i as int);
        let ghost out0 = out.deep_view();
        let ghost cmap0 = consts@;
        let ghost prev0 = prev_of(out.deep_view());
        proof {
            assert(pre[0] == code.deep_view()[i as int]);
            assert(pre.skip(1) =~= code.deep_view().skip(i + 1));
        }
        match &code[i] {
            IRInstr::Assign(target, value) => {
                let resolved: Option<IRValue> = match value {
                    IRValue::Int(_) | IRValue::Bool(_) | IRValue::Str(_) => Some(value.clone()),
                    IRValue::Temp(t) | IRValue::Var(t) => match consts.get(t) {
                        Some(cv) => Some(cv.clone()),
                        None => None,
                    },
                };
                match resolved {
                    Some(cv) => {
                        out.push(IRInstr::Assign(target.clone(), cv.clone()));
                        consts.insert(target.clone(), cv);
                    },
                    None => {
                        out.push(IRInstr::Assign(target.clone(), value.clone()));
                        consts.remove(target);
                    },
                }
            },
            IRInstr::BinaryOp(result, left, op, right) => {
                let folded: Option<IRValue> = match (consts.get(left), consts.get(right)) {
                    (Some(IRValue::Int(a)), Some(IRValue::Int(b))) => {
                        let x = *a;
                        let y = *b;
                        if str_eq(op.as_str(), "+") {
                            Some(IRValue::Int(x.wrapping_add(y)))
                        } else if str_eq(op.as_str(), "-") {
                            Some(IRValue::Int(x.wrapping_sub(y)))
                        } else if str_eq(op.as_str(), "*") {
                            Some(IRValue::Int(x.wrapping_mul(y)))
                        } else if str_eq(op.as_str(), "/") {
                            if y == 0 {
                                None
                            } else {
                                match x.checked_div(y) {
                                    Some(q) => Some(IRValue::Int(q)),
                                    None => Some(IRValue::Int(i64::MIN)),
                                }
                            }
                        } else {
                            None
                        }
                    },
                    (Some(IRValue::Str(a)), Some(IRValue::Str(b))) => {
                        if str_eq(op.as_str(), "+") {
                            Some(IRValue::Str(a.clone().concat(b.as_str())))
                        } else {
                            None
                        }
                    },
                    _ => None,
                };
                match folded {
                    Some(cv) => {
                        out.push(IRInstr::Assign(result.clone(), cv.clone()));
                        consts.insert(result.clone(), cv);
                    },
                    None => {
                        out.push(
                            IRInstr::BinaryOp(
                                result.clone(),
                                left.clone(),
                                op.clone(),
                                right.clone(),
                            ),
                        );
                        consts.remove(result);
                    },
                }
            },
            IRInstr::Return(name) => {
                let is_canon = if out.len() > 0 {
                    match &out[out.len() - 1] {
                        IRInstr::Assign(m, v) => {
                            let lit = matches!(
                                v,
                                IRValue::Int(_) | IRValue::Bool(_) | IRValue::Str(_)
                            );
                            lit && *m == *name
                        },
                        _ => false,
                    }
                } else {
                    false
                };
                proof {
                    assert(out0.len() > 0 ==> out0.last() == out.deep_view()[out.deep_view().len()
                        - 1]);
                    assert(is_canon == canonical_return(prev0, name@));
                }
                match consts.get(name) {
                    Some(cv0) => {
                        let cv = cv0.clone();
                        if is_canon {
                            out.push(IRInstr::Return(name.clone()));
                        } else {
                            out.push(IRInstr::Assign(name.clone(), cv));
                            out.push(IRInstr::Return(name.clone()));
                        }
                    },
                    None => {
                        out.push(IRInstr::Return(name.clone()));
                    },
                }
            },
        }
        proof {
            let step = fold_step(pre[0], cmap0, prev0);
            assert(out.deep_view() =~= out0 + step.0);
            assert(consts@ =~= step.1);
            assert(prev_of(out.deep_view()) == Some(step.0.last()));
            assert(out0 + (step.0 + spec_fold(pre.skip(1), step.1, Some(step.0.last()))) =~= (out0
                + step.0) + spec_fold(pre.skip(1), step.1, Some(step.0.last())));
        }
        i += 1;
    }
    proof {
        assert(code.deep_view().skip(n as int) =~= Seq::<IRInstrView>::empty());
        assert(out.deep_view() + Seq::<IRInstrView>::empty() =~= out.deep_view());
    }
    out
}

/// Does a name match the reserved temporary pattern: the letter `t`
/// followed only by digits, the shape the generator mints?
pub open spec fn is_temp_name(n: Seq<char>) -> bool {
    &&& n.len() >= 1
    &&& n[0] == 't'
    &&& forall|i: int| 1 <= i < n.len() ==> is_digit_char(#[trigger] n[i])
}

/// The reserved temporary pattern, on a string. Only assignments to such
/// names are ever eliminated as dead code.
pub fn is_temporary_name(name: &str) -> (r: bool)
    ensures
        r == is_temp_name(name@),
{
    let cs = chars_of_str(name);
    let n = cs.len();
    if n == 0 {
        return false;
    }
    if !(cs[0] == 't') {
        return false;
    }
    let mut i: usize = 1;
    while i < n
        invariant
            1 <= i <= n,
            n == cs@.len(),
            cs@ == name@,
            forall|j: int| 1 <= j < i ==> is_digit_char(#[trigger] cs@[j]),
        decreases n - i,
    {
        let c = cs[i] as u32;
        if !(48 <= c && c <= 57) {
            return false;
        }
        i += 1;
    }
    true
}

/// A name resolved through the copy table: its recorded source, or itself.
pub open spec fn resolve1(m: CopiesView, x: Seq<char>) -> Seq<char> {
    if m.contains_key(x) {
        m[x]
    } else {
        x
    }
}

/// What copy propagation makes of one instruction under a copy table. Every
/// use is rewritten to its recorded source; a definition of a name first
/// drops every table entry that mentions it, so no entry is ever stale; a
/// copy whose source resolves to the target itself is kept unchanged, never
/// rewritten into a self-copy.
pub open spec fn copy_step(instr: IRInstrView, m: CopiesView) -> (Seq<IRInstrView>, CopiesView) {
    match instr {
        IRInstrView::Assign(t, v) => match v {
            IRValueView::Var(s) | IRValueView::Temp(s) => {
                let s2 = resolve1(m, s);
                if s2 == t {
                    (seq![instr], drop_key_and_value(m, t))
                } else {
                    (
                        seq![IRInstrView::Assign(t, IRValueView::Var(s2))],
                        drop_key_and_value(m, t).insert(t, s2),
                    )
                }
            },
            _ => (seq![instr], drop_key_and_value(m, t)),
        },
        IRInstrView::BinaryOp(r, l, op, rr) => (
            seq![IRInstrView::BinaryOp(r, resolve1(m, l), op, resolve1(m, rr))],
            drop_key_and_value(m, r),
        ),
        IRInstrView::Return(n) => (seq![IRInstrView::Return(resolve1(m, n))], m),
    }
}

/// The copy-propagation pass over a whole list: a single forward walk that
/// updates the copy table incrementally in program order.
pub open spec fn spec_copy(code: Seq<IRInstrView>, m: CopiesView) -> Seq<IRInstrView>
    decreases code.len(),
{
    if code.len() == 0 {
        Seq::empty()
    } else {
        let (emit, m2) = copy_step(code[0], m);
        emit + spec_copy(code.skip(1), m2)
    }
}

fn resolve_copy(m: &StrMap<String>, name: &String) -> (r: String)
    requires
        m.wf(),
    ensures
        r@ == resolve1(m@, name@),
{
    match m.get(name) {
        Some(s) => s.clone(),
        None => name.clone(),
    }
}

/// Copy propagation: rewrite every use of a name that is a plain copy of
/// another name to that source. The table is maintained in program order, so
/// a later redefinition of a source cannot be propagated past.
pub fn copy_propagation(code: &Vec<IRInstr>) -> (r: Vec<IRInstr>)
    ensures
        r.deep_view() == spec_copy(code.deep_view(), Map::empty()),
{
    let n = code.len();
    let mut out: Vec<IRInstr> = Vec::new();
    let mut copies: StrMap<String> = StrMap::new();
    proof {
        assert(code.deep_view().skip(0) =~= code.deep_view());
        assert(Seq::<IRInstrView>::empty() + spec_copy(code.deep_view(), Map::empty())
            =~= spec_copy(code.deep_view(), Map::empty()));
    }
    let mut i: usize = 0;
    while i < n
        invariant
            0 <= i <= n,
            n == code.deep_view().len(),
            copies.wf(),
            spec_copy(code.deep_view(), Map::empty()) == out.deep_view() + spec_copy(
                code.deep_view().skip(i as int),
                copies@,
            ),
        decreases n - i,
    {
        let ghost pre = code.deep_view().skip(i as int);
        let ghost out0 = out.deep_view();
        let ghost m0 = copies@;
        proof {
            assert(pre[0] == code.deep_view()[i as int]);
            assert(pre.skip(1) =~= code.deep_view().skip(i + 1));
        }
        match &code[i] {
            IRInstr::Assign(target, value) => {
                match value {
                    IRValue::Var(s) | IRValue::Temp(s) => {
                        let resolved = resolve_copy(&copies, s);
                        if resolved == *target {
                            out.push(IRInstr::Assign(target.clone(), value.clone()));
                            copies.drop_through(target);
                        } else {
                            out.push(
                                IRInstr::Assign(target.clone(), IRValue::Var(resolved.clone())),
                            );
                            copies.drop_through(target);
                            copies.insert(target.clone(), resolved);
                        }
                    },
                    _ => {
                        out.push(IRInstr::Assign(target.clone(), value.clone()));
                        copies.drop_through(target);
                    },
                }
            },
            IRInstr::BinaryOp(result, left, op, right) => {
                let new_l = resolve_copy(&copies, left);
                let new_r = resolve_copy(&copies, right);
                out.push(IRInstr::BinaryOp(result.clone(), new_l, op.clone(), new_r));
                copies.drop_through(result);
            },
            IRInstr::Return(name) => {
                let new_name = resolve_copy(&copies, name);
                out.push(IRInstr::Return(new_name));
            },
        }
        proof {
            let step = copy_step(pre[0], m0);
            assert(out.deep_view() =~= out0 + step.0);
            assert(copies@ =~= step.1);
            assert(out0 + (step.0 + spec_copy(pre.skip(1), step.1)) =~= (out0 + step.0)
                + spec_copy(pre.skip(1), step.1));
        }
        i += 1;
    }
    proof {
        assert(code.deep_view().skip(n as int) =~= Seq::<IRInstrView>::empty());
        assert(out.deep_view() + Seq::<IRInstrView>::empty() =~= out.deep_view());
    }
    out
}

/// Does this instruction read the name `n`?
pub open spec fn reads_name(instr: IRInstrView, n: Seq<char>) -> bool {
    match instr {
        IRInstrView::Assign(_, v) => match v {
            IRValueView::Var(s) | IRValueView::Temp(s) => s == n,
            _ => false,
        },
        IRInstrView::BinaryOp(_, l, _, rr) => l == n || rr == n,
        IRInstrView::Return(m) => m == n,
    }
}

/// Is the name `n` read anywhere in the list?
pub open spec fn is_used(code: Seq<IRInstrView>, n: Seq<char>) -> bool {
    exists|i: int| 0 <= i < code.len() && reads_name(#[trigger] code[i], n)
}

/// Does one elimination round keep this instruction? Only an assignment to
/// an unread name of the reserved temporary pattern is dropped; assignments
/// to other unread names may be externally observable and always stay.
pub open spec fn dce_keep(code: Seq<IRInstrView>, instr: IRInstrView) -> bool {
    match instr {
        IRInstrView::Assign(t, _) => is_used(code, t) || !is_temp_name(t),
        _ => true,
    }
}

pub open spec fn dce_round_rec(code: Seq<IRInstrView>, i: int) -> Seq<IRInstrView>
    decreases code.len() - i,
{
    if 0 <= i < code.len() {
        (if dce_keep(code, code[i]) {
            seq![code[i]]
        } else {
            Seq::empty()
        }) + dce_round_rec(code, i + 1)
    } else {
        Seq::empty()
    }
}

/// One round of dead-code elimination, with uses counted over the whole
/// current list.
pub open spec fn spec_dce_round(code: Seq<IRInstrView>) -> Seq<IRInstrView> {
    dce_round_rec(code, 0)
}

/// The elimination fixpoint: rounds repeat until one removes nothing.
pub open spec fn spec_dce(code: Seq<IRInstrView>) -> Seq<IRInstrView>
    decreases code.len(),
{
    let r = spec_dce_round(code);
    if r.len() < code.len() {
        spec_dce(r)
    } else {
        r
    }
}

pub proof fn lemma_dce_round_len(code: Seq<IRInstrView>, i: int)
    requires
        0 <= i <= code.len(),
    ensures
        dce_round_rec(code, i).len() <= code.len() - i,
        dce_round_rec(code, i).len() == code.len() - i ==> dce_round_rec(code, i) == code.skip(i),
    decreases code.len() - i,
{
    if i < code.len() {
        lemma_dce_round_len(code, i + 1);
        if dce_round_rec(code, i).len() == code.len() - i {
            assert(dce_round_rec(code, i + 1) == code.skip(i + 1));
            assert(seq![code[i]] + code.skip(i + 1) =~= code.skip(i));
        }
    } else {
        assert(code.skip(i) =~= Seq::<IRInstrView>::empty());
    }
}

fn name_is_used(code: &Vec<IRInstr>, name: &String) -> (r: bool)
    ensures
        r == is_used(code.deep_view(), name@),
{
    let n = code.len();
    let mut i: usize = 0;
    while i < n
        invariant
            0 <= i <= n,
            n == code.deep_view().len(),
            forall|j: int| 0 <= j < i ==> !reads_name(#[trigger] code.deep_view()[j], name@),
        decreases n - i,
    {
        let hit = match &code[i] {
            IRInstr::Assign(_, value) => match value {
                IRValue::Var(s) | IRValue::Temp(s) => *s == *name,
                _ => false,
            },
            IRInstr::BinaryOp(_, l, _, rr) => *l == *name || *rr == *name,
            IRInstr::Return(m) => *m == *name,
        };
        if hit {
            proof {
                assert(reads_name(code.deep_view()[i as int], name@));
            }
            return true;
        }
        i += 1;
    }
    false
}

fn dce_round(code: &Vec<IRInstr>) -> (r: Vec<IRInstr>)
    ensures
        r.deep_view() == spec_dce_round(code.deep_view()),
{
    let n = code.len();
    let mut out: Vec<IRInstr> = Vec::new();
    proof {
        assert(Seq::<IRInstrView>::empty() + dce_round_rec(code.deep_view(), 0) =~= dce_round_rec(
            code.deep_view(),
            0,
        ));
    }
    let mut i: usize = 0;
    while i < n
        invariant
            0 <= i <= n,
            n == code.deep_view().len(),
            dce_round_rec(code.deep_view(), 0) == out.deep_view() + dce_round_rec(
                code.deep_view(),
                i as int,
            ),
        decreases n - i,
    {
        let ghost out0 = out.deep_view();
        let keep = match &code[i] {
            IRInstr::Assign(target, _) => {
                is_temporary_name(target.as_str()) == false || name_is_used(code, target)
            },
            _ => true,
        };
        if keep {
            out.push(code[i].clone());
        }
        proof {
            assert(dce_keep(code.deep_view(), code.deep_view()[i as int]) == keep);
            if keep {
                assert(out.deep_view() =~= out0 + seq![code.deep_view()[i as int]]);
            }
            assert(out0 + ((if keep {
                seq![code.deep_view()[i as int]]
            } else {
                Seq::<IRInstrView>::empty()
            }) + dce_round_rec(code.deep_view(), i + 1)) =~= out.deep_view() + dce_round_rec(
                code.deep_view(),
                i + 1,
            ));
        }
        i += 1;
    }
    out
}

/// Dead-code elimination: iteratively drop assignments to unread names of
/// the reserved temporary pattern, until a round removes nothing.
pub fn dead_code_elimination(code: &Vec<IRInstr>) -> (r: Vec<IRInstr>)
    ensures
        r.deep_view() == spec_dce(code.deep_view()),
{
    let mut cur = clone_ir_list(code);
    let mut removed = true;
    while removed
        invariant
            removed ==> spec_dce(code.deep_view()) == spec_dce(cur.deep_view()),
            !removed ==> spec_dce(code.deep_view()) == cur.deep_view(),
        decreases cur@.len() + (if removed {
            1int
        } else {
            0int
        }),
    {
        let next = dce_round(&cur);
        proof {
            lemma_dce_round_len(cur.deep_view(), 0);
            assert(cur.deep_view().skip(0) =~= cur.deep_view());
        }
        removed = next.len() < cur.len();
        cur = next;
    }
    cur
}

/// One full iteration of the pass pipeline.
pub open spec fn spec_pipeline(code: Seq<IRInstrView>) -> Seq<IRInstrView> {
    spec_dce(spec_copy(spec_fold(code, Map::empty(), None), Map::empty()))
}

/// Optimize an IR list: run the three-pass pipeline until the instruction
/// count is stable across one full iteration. One iteration already reaches
/// a content-stable fixpoint, so iterating never changes the result further.
pub fn optimize_ir(code: Vec<IRInstr>) -> (r: Vec<IRInstr>)
    ensures
        r.deep_view() == spec_pipeline(code.deep_view()),
{
    let mut cur = code;
    let ghost orig = cur.deep_view();
    let mut done = false;
    let ghost mut first: bool = true;
    while !done
        invariant
            first ==> !done && cur.deep_view() == orig,
            !first ==> cur.deep_view() == spec_pipeline(orig),
        decreases (if first {
            1int
        } else {
            0int
        }) + (if done {
            0int
        } else {
            1int
        }),
    {
        let before = cur.len();
        let folded = constant_fold_and_propagate(&cur);
        let copied = copy_propagation(&folded);
        let cleaned = dead_code_elimination(&copied);
        proof {
            if !first {
                crate::optimizer_laws::lemma_pipeline_idempotent(orig);
                assert(cleaned.deep_view() == spec_pipeline(orig));
                assert(cleaned.deep_view().len() == cur.deep_view().len());
            }
        }
        done = cleaned.len() == before;
        cur = cleaned;
        proof {
            first = false;
        }
    }
    cur
}

} // verus!
