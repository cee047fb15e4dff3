//! What statements do once they are lowered.
//!
//! The laws here relate the lowering of a statement to the lowering of the expressions in it: which
//! instruction it adds, at the end of which block, on which value, and where the variables that it
//! binds live.

use vstd::prelude::*;

use crate::hir::body;
use crate::hir::body::{ArithBinOp, Expr, FieldIndex, FieldInit, Partial, Stmt};
use crate::hir::ids::{ExprId, PatId, PathId, StmtId, TypeId};
use crate::hir::typed::{FieldAccessInfo, FieldSlot, LocalBinding, VariantId};
use crate::mir::flow;
use crate::mir::frame;
use crate::mir::growth;
use crate::mir::input::CheckedBody;
use crate::mir::ir::{
    AddressSpaceKind, BasicBlockId, CoreHelper, InstModel, MirInst, Terminator, TerminatorModel,
    ValueId,
};
use crate::mir::laws;
use crate::mir::meaning;
use crate::mir::paths;
use crate::mir::rules;
use crate::mir::rules::Aggregate;
use crate::mir::sound;
use crate::mir::state::State;

verus! {

/// From `s` to `t`, every block but `block` stays as it is.
pub open spec fn keeps_others(s: State, block: BasicBlockId, t: State) -> bool {
    &&& block.0 < s.blocks.len()
    &&& t.blocks.len() == s.blocks.len()
    &&& forall|i: int|
        0 <= i < s.blocks.len() && i != block.0 ==> #[trigger] t.blocks[i] == s.blocks[i]
}

/// From `s` to `t`, the instruction `inst` is added at the end of `block`, and no other block
/// changes.
pub open spec fn appends(s: State, block: BasicBlockId, inst: InstModel, t: State) -> bool {
    &&& keeps_others(s, block, t)
    &&& t.blocks[block.0 as int].insts == s.blocks[block.0 as int].insts.push(inst)
    &&& t.blocks[block.0 as int].terminator == s.blocks[block.0 as int].terminator
}

/// From `s` to `t`, `block` ends with `end`, and no other block changes.
pub open spec fn ends(s: State, block: BasicBlockId, end: TerminatorModel, t: State) -> bool {
    &&& keeps_others(s, block, t)
    &&& t.blocks[block.0 as int].insts == s.blocks[block.0 as int].insts
    &&& t.blocks[block.0 as int].terminator == Some(end)
}

/// From `s` to `t`, nothing changes but blocks and where variables live.
pub open spec fn keeps_rest(s: State, t: State) -> bool {
    &&& t.values == s.values
    &&& t.expr_values == s.expr_values
    &&& t.loop_headers == s.loop_headers
    &&& t.array_index_info == s.array_index_info
    &&& t.loop_stack == s.loop_stack
    &&& t.value_spaces == s.value_spaces
}

/// From `s` to `t`, the variable of `pat` moves to `space`, and no other variable moves.
pub open spec fn moves(s: State, pat: PatId, space: AddressSpaceKind, t: State) -> bool {
    &&& t.pat_spaces.contains_key(pat.0)
    &&& t.pat_spaces[pat.0] == space
    &&& forall|other: usize|
        other != pat.0 ==> (#[trigger] t.pat_spaces.contains_key(other)
            <==> s.pat_spaces.contains_key(other))
    &&& forall|other: usize|
        other != pat.0 && s.pat_spaces.contains_key(other) ==> #[trigger] t.pat_spaces[other]
            == s.pat_spaces[other]
}

// Declarations.

/// `let pat = init` evaluates `init` and, where control goes on, declares the variable with the
/// value of `init`. The variable lives where that value lives.
pub proof fn lemma_let_binds(
    cx: CheckedBody,
    s: State,
    block: BasicBlockId,
    stmt: StmtId,
    pat: PatId,
    ty: Option<TypeId>,
    init: ExprId,
)
    requires
        cx.wf(),
        cx.has_stmt(stmt),
        cx.stmt(stmt) == Partial::Present(Stmt::Let(pat, ty, Some(init))),
        block.0 < s.blocks.len(),
        sound::sound(s),
    ensures
        match (rules::lower_stmt(cx, s, block, stmt), rules::lower_expr(cx, s, block, init)) {
            (None, None) => true,
            (Some(l), Some(e)) => frame::fits(e.state) ==> {
                &&& l.next == e.next
                &&& l.value is None
                &&& moves(e.state, pat, meaning::home(cx, e.state, e.value), l.state)
                &&& keeps_rest(e.state, l.state)
                &&& match e.next {
                    Some(next) => appends(
                        e.state,
                        next,
                        MirInst::Let { stmt, pat, ty, value: Some(e.value) },
                        l.state,
                    ),
                    None => l.state.blocks == e.state.blocks,
                }
            },
            _ => false,
        },
{
    assert(body::stmt_top(cx.body.stmts@[stmt.0 as int]) <= cx.body.exprs@.len());
    if let Some(e) = rules::lower_expr(cx, s, block, init) {
        if frame::fits(e.state) {
            laws::lemma_lower_expr(cx, s, block, init);
            meaning::lemma_home(cx, e.state, e.value);
            if let Some(next) = e.next {
                flow::lemma_next_known(s, block, e.state, next);
            }
        }
    }
}

/// Where a variable is used after `let pat = init`, it is looked for where the value of `init`
/// lives: an expression that refers to it, once it gets a value, has a value that lives there.
pub proof fn lemma_let_used(
    cx: CheckedBody,
    s: State,
    block: BasicBlockId,
    stmt: StmtId,
    pat: PatId,
    ty: Option<TypeId>,
    init: ExprId,
    used: ExprId,
)
    requires
        cx.wf(),
        cx.has_stmt(stmt),
        cx.has_expr(used),
        cx.stmt(stmt) == Partial::Present(Stmt::Let(pat, ty, Some(init))),
        block.0 < s.blocks.len(),
        sound::sound(s),
        !meaning::is_any_call(cx, used),
        !(cx.expr(used) matches Partial::Present(Expr::Field(_, _))),
        cx.typed_body.exprs@[used.0 as int].binding matches Some(
            LocalBinding::Local { pat: bound, .. },
        ) && bound == pat,
    ensures
        match (rules::lower_stmt(cx, s, block, stmt), rules::lower_expr(cx, s, block, init)) {
            (Some(l), Some(e)) => frame::fits(l.state) && l.state.values.len() < usize::MAX
                && !l.state.expr_values.contains_key(used.0) ==> {
                let (t, value) = rules::ensure_value(cx, l.state, used);
                meaning::home(cx, t, value) == meaning::home(cx, e.state, e.value)
            },
            _ => true,
        },
{
    lemma_let_binds(cx, s, block, stmt, pat, ty, init);
    if let Some(l) = rules::lower_stmt(cx, s, block, stmt) {
        if frame::fits(l.state) && l.state.values.len() < usize::MAX
            && !l.state.expr_values.contains_key(used.0) {
            laws::lemma_lower_stmt(cx, s, block, stmt);
            let e = rules::lower_expr(cx, s, block, init)->0;
            assert(frame::fits(e.state));
            meaning::lemma_plain_value(cx, l.state, used);
        }
    }
}

/// `let pat` without a value only declares the variable.
pub proof fn lemma_let_declares(
    cx: CheckedBody,
    s: State,
    block: BasicBlockId,
    stmt: StmtId,
    pat: PatId,
    ty: Option<TypeId>,
)
    requires
        cx.wf(),
        cx.has_stmt(stmt),
        cx.stmt(stmt) == Partial::Present(Stmt::Let(pat, ty, None)),
        block.0 < s.blocks.len(),
    ensures
        rules::lower_stmt(cx, s, block, stmt) matches Some(l) && l.next == Some(block)
            && l.value is None && keeps_rest(s, l.state) && l.state.pat_spaces == s.pat_spaces
            && appends(s, block, MirInst::Let { stmt, pat, ty, value: None }, l.state),
{
}

// Jumps.

/// `return value` evaluates `value` and, where control goes on, returns it.
pub proof fn lemma_return_value(
    cx: CheckedBody,
    s: State,
    block: BasicBlockId,
    stmt: StmtId,
    value: ExprId,
)
    requires
        cx.wf(),
        cx.has_stmt(stmt),
        cx.stmt(stmt) == Partial::Present(Stmt::Return(Some(value))),
        block.0 < s.blocks.len(),
        sound::sound(s),
    ensures
        match (rules::lower_stmt(cx, s, block, stmt), rules::lower_expr(cx, s, block, value)) {
            (None, None) => true,
            (Some(l), Some(e)) => frame::fits(e.state) ==> {
                &&& l.next is None
                &&& keeps_rest(e.state, l.state)
                &&& l.state.pat_spaces == e.state.pat_spaces
                &&& match e.next {
                    Some(next) => ends(
                        e.state,
                        next,
                        Terminator::Return(Some(e.value)),
                        l.state,
                    ),
                    None => l.state.blocks == e.state.blocks,
                }
            },
            _ => false,
        },
{
    assert(body::stmt_top(cx.body.stmts@[stmt.0 as int]) <= cx.body.exprs@.len());
    if let Some(e) = rules::lower_expr(cx, s, block, value) {
        if frame::fits(e.state) {
            laws::lemma_lower_expr(cx, s, block, value);
            if let Some(next) = e.next {
                flow::lemma_next_known(s, block, e.state, next);
            }
        }
    }
}

/// A statement that leaves its place ends its block: `return` returns nothing, and `continue` and
/// `break` lead to the test and to the exit of the innermost loop around them. Outside of a loop
/// there is nowhere for them to lead.
pub proof fn lemma_jump(cx: CheckedBody, s: State, block: BasicBlockId, stmt: StmtId)
    requires
        cx.wf(),
        cx.has_stmt(stmt),
        block.0 < s.blocks.len(),
    ensures
        ({
            let lowered = rules::lower_stmt(cx, s, block, stmt);
            let innermost = s.loop_stack[s.loop_stack.len() - 1];
            let open = s.loop_stack.len() > 0;
            &&& cx.stmt(stmt) == Partial::Present(Stmt::Return(None)) ==> lowered is Some && ends(
                s,
                block,
                Terminator::Return(None),
                lowered->0.state,
            ) && lowered->0.next is None
            &&& cx.stmt(stmt) == Partial::Present(Stmt::Continue) ==> if open {
                lowered is Some && ends(
                    s,
                    block,
                    Terminator::Goto { target: innermost.continue_target },
                    lowered->0.state,
                ) && lowered->0.next is None
            } else {
                lowered is None
            }
            &&& cx.stmt(stmt) == Partial::Present(Stmt::Break) ==> if open {
                lowered is Some && ends(
                    s,
                    block,
                    Terminator::Goto { target: innermost.break_target },
                    lowered->0.state,
                ) && lowered->0.next is None
            } else {
                lowered is None
            }
        }),
{
}

// Assignments.

/// From `s` to `t`, the variable that `target` refers to, if it is one, moves to where `value`
/// lives, and no other variable moves.
pub open spec fn variable_follows(
    cx: CheckedBody,
    s: State,
    target: ExprId,
    value: ValueId,
    t: State,
) -> bool {
    match cx.typed_body.exprs@[target.0 as int].binding {
        Some(LocalBinding::Local { pat, .. }) => moves(s, pat, meaning::home(cx, s, value), t),
        _ => t.pat_spaces == s.pat_spaces,
    }
}

/// Whether an instruction stores `value` to the field at an offset of the aggregate at `base`, in
/// the address space in which the aggregate lives.
pub open spec fn is_store(
    cx: CheckedBody,
    t: State,
    inst: InstModel,
    expr: ExprId,
    base: ValueId,
    info: FieldAccessInfo,
    value: ValueId,
) -> bool {
    let call = t.values[inst->EvalExpr_value.0 as int];
    &&& inst is EvalExpr
    &&& inst->EvalExpr_expr == expr
    &&& !inst->EvalExpr_bind_value
    &&& meaning::is_helper_call(
        cx,
        t,
        inst->EvalExpr_value,
        expr,
        CoreHelper::StoreField,
        meaning::home(cx, t, base),
        info.field_ty,
    )
    &&& call.ty == cx.typed_body.unit_ty
    &&& call.origin->Call_0.args.len() == 3
    &&& call.origin->Call_0.args[0] == base
    &&& meaning::is_constant(cx, t, call.origin->Call_0.args[1], info.offset_bytes as nat)
    &&& call.origin->Call_0.args[2] == value
}

/// From `s` to `t`, one instruction is added at the end of `block`, which stores `value` to the
/// field at an offset of the aggregate at `base`.
pub open spec fn stores(
    cx: CheckedBody,
    s: State,
    block: BasicBlockId,
    expr: ExprId,
    base: ValueId,
    info: FieldAccessInfo,
    value: ValueId,
    t: State,
) -> bool {
    let inst = t.blocks[block.0 as int].insts.last();
    &&& appends(s, block, inst, t)
    &&& is_store(cx, t, inst, expr, base, info, value)
    &&& frame::keeps_values(s, t)
    &&& t.expr_values == s.expr_values
    &&& t.pat_spaces == s.pat_spaces
    &&& t.value_spaces == s.value_spaces
}

/// Storing a field stores the value at the offset of the field, where the aggregate lives.
pub proof fn lemma_stores(
    cx: CheckedBody,
    s: State,
    block: BasicBlockId,
    expr: ExprId,
    base: ValueId,
    info: FieldAccessInfo,
    value: ValueId,
)
    requires
        block.0 < s.blocks.len(),
        base.0 < s.values.len(),
        frame::fits(rules::store_field(cx, s, block, expr, base, info, value)),
    ensures
        stores(
            cx,
            s,
            block,
            expr,
            base,
            info,
            value,
            rules::store_field(cx, s, block, expr, base, info, value),
        ),
{
    reveal(rules::store_field);
    let t = rules::store_field(cx, s, block, expr, base, info, value);
    meaning::lemma_home(cx, s, base);
    assert(t.values[base.0 as int] == s.values[base.0 as int]);
    assert(meaning::home(cx, t, base) == meaning::home(cx, s, base));
}

/// Whether `target` is a field that is known.
pub open spec fn is_known_field(cx: CheckedBody, target: ExprId) -> bool {
    cx.expr(target) matches Partial::Present(Expr::Field(lhs, Partial::Present(index)))
        && exists|slot: FieldSlot| #[trigger]
        meaning::is_field(cx, cx.typed_body.exprs@[lhs.0 as int].ty, index, slot)
}

/// A field that cannot be accessed is not known.
proof fn lemma_unknown_field(cx: CheckedBody, target: ExprId)
    requires
        !is_known_field(cx, target),
    ensures
        rules::accessed_field(cx, target) is None,
{
    if let Partial::Present(Expr::Field(lhs, Partial::Present(index))) = cx.expr(target) {
        meaning::lemma_field_known(cx, cx.typed_body.exprs@[lhs.0 as int].ty, index);
    }
}

/// `target = value`, where `target` is no field, evaluates `value` and, where control goes on,
/// assigns it to `target`. A variable then lives where the value lives.
pub proof fn lemma_assign_variable(
    cx: CheckedBody,
    s: State,
    block: BasicBlockId,
    stmt: StmtId,
    expr: ExprId,
    target: ExprId,
    value: ExprId,
)
    requires
        cx.wf(),
        cx.has_expr(expr),
        cx.expr(expr) == Partial::Present(Expr::Assign(target, value)),
        !is_known_field(cx, target),
        block.0 < s.blocks.len(),
        sound::sound(s),
    ensures
        match (
            rules::lower_expr_stmt(cx, s, block, stmt, expr),
            rules::lower_expr(cx, s, block, value),
        ) {
            (None, None) => true,
            (Some(l), Some(e)) => frame::fits(l.state) ==> {
                &&& l.next == e.next
                &&& l.value is None
                &&& match e.next {
                    Some(next) => {
                        &&& appends(
                            e.state,
                            next,
                            MirInst::Assign { stmt, target, value: e.value },
                            l.state,
                        )
                        &&& variable_follows(cx, e.state, target, e.value, l.state)
                        &&& keeps_rest(e.state, l.state)
                    },
                    None => l.state == e.state,
                }
            },
            _ => false,
        },
{
    paths::lemma_no_call(cx, s, block, expr);
    assert(cx.body.expr_before(cx.body.exprs@[expr.0 as int], expr.0 as nat));
    lemma_unknown_field(cx, target);
    reveal(rules::field_assign);
    reveal(rules::assign_space);
    if let Some(e) = rules::lower_expr(cx, s, block, value) {
        let l = rules::lower_expr_stmt(cx, s, block, stmt, expr)->0;
        if frame::fits(l.state) {
            laws::lemma_lower_expr(cx, s, block, value);
            if let Some(next) = e.next {
                flow::lemma_next_known(s, block, e.state, next);
                meaning::lemma_home(cx, e.state, e.value);
            }
        }
    }
}

/// `lhs.field = value` evaluates `value` and, where control goes on, stores it to that field of
/// the aggregate that `lhs` stands for.
pub proof fn lemma_assign_field(
    cx: CheckedBody,
    s: State,
    block: BasicBlockId,
    stmt: StmtId,
    expr: ExprId,
    target: ExprId,
    value: ExprId,
    lhs: ExprId,
    index: FieldIndex,
    slot: FieldSlot,
)
    requires
        cx.wf(),
        cx.has_expr(expr),
        cx.expr(expr) == Partial::Present(Expr::Assign(target, value)),
        cx.expr(target) == Partial::Present(Expr::Field(lhs, Partial::Present(index))),
        meaning::is_field(cx, cx.typed_body.exprs@[lhs.0 as int].ty, index, slot),
        block.0 < s.blocks.len(),
        sound::sound(s),
    ensures
        match (
            rules::lower_expr_stmt(cx, s, block, stmt, expr),
            rules::lower_expr(cx, s, block, value),
        ) {
            (None, None) => true,
            (Some(l), Some(e)) => frame::fits(l.state) ==> {
                &&& l.next == e.next
                &&& l.value is None
                &&& match e.next {
                    Some(next) => {
                        let inst = l.state.blocks[next.0 as int].insts.last();
                        let base = l.state.expr_values[lhs.0];
                        let info = FieldAccessInfo {
                            field_ty: slot.ty,
                            offset_bytes: slot.offset_bytes,
                        };
                        &&& appends(e.state, next, inst, l.state)
                        &&& meaning::has_value(l.state, lhs, base)
                        &&& is_store(cx, l.state, inst, expr, base, info, e.value)
                        &&& variable_follows(cx, e.state, target, e.value, l.state)
                        &&& frame::keeps_values(e.state, l.state)
                        &&& meaning::keeps_known(e.state, l.state)
                    },
                    None => l.state == e.state,
                }
            },
            _ => false,
        },
{
    paths::lemma_no_call(cx, s, block, expr);
    assert(cx.body.expr_before(cx.body.exprs@[expr.0 as int], expr.0 as nat));
    assert(cx.body.expr_before(cx.body.exprs@[target.0 as int], target.0 as nat));
    meaning::lemma_field_found(cx, cx.typed_body.exprs@[lhs.0 as int].ty, index, slot);
    if let Some(e) = rules::lower_expr(cx, s, block, value) {
        let l = rules::lower_expr_stmt(cx, s, block, stmt, expr)->0;
        if let Some(next) = e.next {
            if frame::fits(l.state) {
                let s1 = rules::assign_space(cx, e.state, target, e.value);
                let info = FieldAccessInfo {
                    field_ty: slot.ty,
                    offset_bytes: slot.offset_bytes,
                };
                let (s2, base) = rules::ensure_value(cx, s1, lhs);
                assert(rules::field_assign(cx, s1, next, expr, target, e.value) == Some(
                    rules::store_field(cx, s2, next, expr, base, info, e.value),
                )) by {
                    reveal(rules::field_assign);
                }
                growth::lemma_ensure_value(cx, s1, lhs);
                assert(s2.values.len() <= l.state.values.len() && s2.blocks.len()
                    == l.state.blocks.len()) by {
                    reveal(rules::store_field);
                }
                assert(keeps_rest(e.state, s1) && s1.blocks == e.state.blocks) by {
                    reveal(rules::assign_space);
                }
                laws::lemma_lower_expr(cx, s, block, value);
                flow::lemma_next_known(s, block, e.state, next);
                meaning::lemma_home(cx, e.state, e.value);
                assert(variable_follows(cx, e.state, target, e.value, s1)) by {
                    reveal(rules::assign_space);
                }
                sound::lemma_same(e.state, s1);
                flow::lemma_ensure_value(cx, s1, lhs);
                meaning::lemma_value_given(cx, s1, lhs);
                lemma_stores(cx, s2, next, expr, base, info, e.value);
                frame::lemma_keeps_values_trans(e.state, s2, l.state);
            }
        }
    }
}

/// `target op= value` evaluates `value` and, where control goes on, applies the operation to
/// `target` with it.
pub proof fn lemma_aug_assigns(
    cx: CheckedBody,
    s: State,
    block: BasicBlockId,
    stmt: StmtId,
    expr: ExprId,
    target: ExprId,
    value: ExprId,
    op: ArithBinOp,
)
    requires
        cx.wf(),
        cx.has_expr(expr),
        cx.expr(expr) == Partial::Present(Expr::AugAssign(target, value, op)),
        block.0 < s.blocks.len(),
        sound::sound(s),
    ensures
        match (
            rules::lower_expr_stmt(cx, s, block, stmt, expr),
            rules::lower_expr(cx, s, block, value),
        ) {
            (None, None) => true,
            (Some(l), Some(e)) => frame::fits(l.state) ==> {
                &&& l.next == e.next
                &&& l.value is None
                &&& match e.next {
                    Some(next) => {
                        &&& appends(
                            e.state,
                            next,
                            MirInst::AugAssign { stmt, target, value: e.value, op },
                            l.state,
                        )
                        &&& variable_follows(cx, e.state, target, e.value, l.state)
                        &&& keeps_rest(e.state, l.state)
                    },
                    None => l.state == e.state,
                }
            },
            _ => false,
        },
{
    paths::lemma_no_call(cx, s, block, expr);
    assert(cx.body.expr_before(cx.body.exprs@[expr.0 as int], expr.0 as nat));
    reveal(rules::assign_space);
    if let Some(e) = rules::lower_expr(cx, s, block, value) {
        let l = rules::lower_expr_stmt(cx, s, block, stmt, expr)->0;
        if frame::fits(l.state) {
            laws::lemma_lower_expr(cx, s, block, value);
            if let Some(next) = e.next {
                flow::lemma_next_known(s, block, e.state, next);
                meaning::lemma_home(cx, e.state, e.value);
            }
        }
    }
}

// Aggregates.

/// Whether, from `s` to `t`, room for an aggregate of so many bytes is reserved in memory at the
/// end of `block`, and `expr` has the address as its value. The discriminant of an enum is written
/// right after that.
pub open spec fn reserves(
    cx: CheckedBody,
    s: State,
    block: BasicBlockId,
    expr: ExprId,
    size_bytes: u64,
    discriminant: Option<u64>,
    t: State,
    base: ValueId,
) -> bool {
    let before = s.blocks[block.0 as int].insts;
    let after = t.blocks[block.0 as int].insts;
    let ty = cx.typed_body.exprs@[expr.0 as int].ty;
    let room = t.values[base.0 as int];
    let first = after[before.len() as int];
    let second = after[before.len() as int + 1];
    &&& keeps_others(s, block, t)
    &&& t.blocks[block.0 as int].terminator == s.blocks[block.0 as int].terminator
    &&& before.is_prefix_of(after)
    &&& after.len() == before.len() + if discriminant is Some {
        2nat
    } else {
        1nat
    }
    &&& frame::keeps_values(s, t)
    &&& s.values.len() <= base.0 < t.values.len()
    &&& meaning::has_value(t, expr, base)
    &&& forall|other: usize|
        other != expr.0 ==> (#[trigger] t.expr_values.contains_key(other)
            <==> s.expr_values.contains_key(other))
    &&& forall|other: usize|
        other != expr.0 && s.expr_values.contains_key(other) ==> #[trigger] t.expr_values[other]
            == s.expr_values[other]
    &&& first == MirInst::<Seq<ValueId>>::EvalExpr { expr, value: base, bind_value: true }
    &&& room.ty == ty
    &&& meaning::is_helper_call(
        cx,
        t,
        base,
        expr,
        CoreHelper::Alloc,
        AddressSpaceKind::Memory,
        ty,
    )
    &&& room.origin->Call_0.args.len() == 1
    &&& meaning::is_constant(cx, t, room.origin->Call_0.args[0], size_bytes as nat)
    &&& discriminant is Some ==> {
        let written = t.values[second->EvalExpr_value.0 as int];
        &&& second is EvalExpr
        &&& second->EvalExpr_expr == expr
        &&& !second->EvalExpr_bind_value
        &&& meaning::is_helper_call(
            cx,
            t,
            second->EvalExpr_value,
            expr,
            CoreHelper::StoreDiscriminant,
            AddressSpaceKind::Memory,
            ty,
        )
        &&& written.ty == cx.typed_body.unit_ty
        &&& written.origin->Call_0.args.len() == 2
        &&& written.origin->Call_0.args[0] == base
        &&& meaning::is_constant(cx, t, written.origin->Call_0.args[1], discriminant->0 as nat)
    }
}

/// An aggregate is built by reserving room for it and writing its discriminant, if it has one,
/// then by computing and storing its fields from the first on. Its value is its address.
pub proof fn lemma_aggregate_reserved(
    cx: CheckedBody,
    s: State,
    block: BasicBlockId,
    expr: ExprId,
    aggregate: Aggregate,
)
    requires
        cx.wf(),
        cx.has_expr(expr),
        rules::inits_before(aggregate.inits, expr.0 as nat),
        block.0 < s.blocks.len(),
        sound::sound(s),
    ensures
        rules::lower_aggregate(cx, s, block, expr, aggregate) matches Some(l) ==> frame::fits(
            l.state,
        ) ==> l.eval && exists|t: State|
            {
                &&& #[trigger] reserves(
                    cx,
                    s,
                    block,
                    expr,
                    aggregate.size_bytes,
                    aggregate.discriminant,
                    t,
                    l.value,
                )
                &&& rules::lower_inits(cx, t, block, expr, l.value, aggregate.inits, 0) == Some(
                    (l.state, l.next),
                )
            },
{
    if let Some(l) = rules::lower_aggregate(cx, s, block, expr, aggregate) {
        if frame::fits(l.state) {
            let (s1, base) = rules::alloc_aggregate(cx, s, block, expr, aggregate.size_bytes);
            let t = match aggregate.discriminant {
                Some(d) => rules::store_discriminant(cx, s1, block, expr, base, d),
                None => s1,
            };
            growth::lemma_lower_inits(cx, t, block, expr, base, aggregate.inits, 0);
            assert(l.value == base && l.eval);
            assert(rules::lower_inits(cx, t, block, expr, base, aggregate.inits, 0) == Some(
                (l.state, l.next),
            ));
            reveal(rules::alloc_aggregate);
            reveal(rules::store_discriminant);
            let before = s.blocks[block.0 as int].insts;
            let after = t.blocks[block.0 as int].insts;
            assert(before =~= after.subrange(0, before.len() as int));
            if s1.value_spaces.contains_key(base.0) {
                sound::lemma_settled_exists(s, base);
            }
            meaning::lemma_home(cx, s1, base);
            assert(s1.space_of(cx, base) == AddressSpaceKind::Memory);
            assert(reserves(
                cx,
                s,
                block,
                expr,
                aggregate.size_bytes,
                aggregate.discriminant,
                t,
                base,
            ));
        }
    }
}

/// The fields of an aggregate are computed in their order. Where control goes on after one of
/// them, its value is stored to its own field, and the next one follows there. Where control does
/// not go on, nothing follows.
pub proof fn lemma_aggregate_filled(
    cx: CheckedBody,
    s: State,
    block: BasicBlockId,
    expr: ExprId,
    base: ValueId,
    inits: Seq<(ExprId, Option<FieldAccessInfo>)>,
    i: nat,
)
    requires
        cx.wf(),
        cx.has_expr(expr),
        rules::inits_before(inits, expr.0 as nat),
        block.0 < s.blocks.len(),
        sound::sound(s),
        base.0 < s.values.len(),
    ensures
        i >= inits.len() ==> rules::lower_inits(cx, s, block, expr, base, inits, i) == Some(
            (s, Some(block)),
        ),
        i < inits.len() ==> match (
            rules::lower_inits(cx, s, block, expr, base, inits, i),
            rules::lower_expr(cx, s, block, inits[i as int].0),
        ) {
            (lowered, None) => lowered is None,
            (lowered, Some(e)) => match (e.next, inits[i as int].1) {
                (None, _) => lowered == Some((e.state, None::<BasicBlockId>)),
                (Some(next), None) => lowered == rules::lower_inits(
                    cx,
                    e.state,
                    next,
                    expr,
                    base,
                    inits,
                    i + 1,
                ),
                (Some(next), Some(info)) => lowered matches Some((u, _)) ==> frame::fits(u)
                    ==> exists|t: State|
                    {
                        &&& #[trigger] stores(cx, e.state, next, expr, base, info, e.value, t)
                        &&& lowered == rules::lower_inits(
                            cx,
                            t,
                            next,
                            expr,
                            base,
                            inits,
                            i + 1,
                        )
                    },
            },
        },
{
    if i < inits.len() {
        if let Some(e) = rules::lower_expr(cx, s, block, inits[i as int].0) {
            if let (Some(next), Some(info)) = (e.next, inits[i as int].1) {
                if let Some((u, _)) = rules::lower_inits(cx, s, block, expr, base, inits, i) {
                    if frame::fits(u) {
                        let t = rules::store_field(
                            cx,
                            e.state,
                            next,
                            expr,
                            base,
                            info,
                            e.value,
                        );
                        growth::lemma_lower_inits(cx, t, next, expr, base, inits, i + 1);
                        growth::lemma_lower_expr(cx, s, block, inits[i as int].0);
                        assert(e.state.blocks.len() == t.blocks.len() && e.state.values.len()
                            <= t.values.len()) by {
                            reveal(rules::store_field);
                        }
                        laws::lemma_lower_expr(cx, s, block, inits[i as int].0);
                        flow::lemma_next_known(s, block, e.state, next);
                        lemma_stores(cx, e.state, next, expr, base, info, e.value);
                    }
                }
            }
        }
    }
}

/// A record initializer builds an aggregate of the size of its type, without a discriminant. Each
/// of its expressions goes to the field that it is given for.
pub proof fn lemma_record_fields(
    cx: CheckedBody,
    s: State,
    block: BasicBlockId,
    expr: ExprId,
    path: PathId,
    fields: Vec<FieldInit>,
)
    requires
        cx.wf(),
        cx.has_expr(expr),
        cx.expr(expr) == Partial::Present(Expr::RecordInit(path, fields)),
    ensures
        ({
            let ty = cx.typed_body.exprs@[expr.0 as int].ty;
            let built = rules::record(cx, expr, fields@);
            &&& rules::lower_expr(cx, s, block, expr) == rules::lower_aggregate(
                cx,
                s,
                block,
                expr,
                built,
            )
            &&& built.size_bytes == cx.typed_body.types@[ty.0 as int].size_bytes
            &&& built.discriminant is None
            &&& built.inits.len() == fields@.len()
            &&& forall|i: int|
                0 <= i < fields@.len() ==> (#[trigger] built.inits[i]).0 == fields@[i].expr
            &&& forall|i: int, slot: FieldSlot|
                0 <= i < fields@.len() && #[trigger] meaning::is_field(
                    cx,
                    ty,
                    fields@[i].field,
                    slot,
                ) ==> built.inits[i].1 == Some(
                    FieldAccessInfo { field_ty: slot.ty, offset_bytes: slot.offset_bytes },
                )
        }),
{
    paths::lemma_no_call(cx, s, block, expr);
    reveal(rules::record);
    let ty = cx.typed_body.exprs@[expr.0 as int].ty;
    let built = rules::record(cx, expr, fields@);
    assert forall|i: int, slot: FieldSlot|
        0 <= i < fields@.len() && #[trigger] meaning::is_field(
            cx,
            ty,
            fields@[i].field,
            slot,
        ) implies built.inits[i].1 == Some(
        FieldAccessInfo { field_ty: slot.ty, offset_bytes: slot.offset_bytes },
    ) by {
        meaning::lemma_field_found(cx, ty, fields@[i].field, slot);
    }
}

/// The call of the constructor of a variant builds an aggregate of the size of the variant's
/// layout, with the variant's discriminant. Each argument goes to the field at its own position.
pub proof fn lemma_variant_fields(
    cx: CheckedBody,
    s: State,
    block: BasicBlockId,
    expr: ExprId,
    callee: ExprId,
    args: Vec<ExprId>,
    variant: VariantId,
)
    requires
        cx.wf(),
        cx.has_expr(expr),
        cx.expr(expr) == Partial::Present(Expr::Call(callee, args)),
        cx.typed_body.exprs@[callee.0 as int].variant == Some(variant),
        meaning::operation(cx, expr) matches Some(op) ==> !meaning::is_command(op),
    ensures
        ({
            let layout = cx.typed_body.variants@[variant.0 as int];
            let built = rules::variant_ctor(cx, expr)->0;
            &&& rules::lower_expr(cx, s, block, expr) == rules::lower_aggregate(
                cx,
                s,
                block,
                expr,
                built,
            )
            &&& built.size_bytes == layout.size_bytes
            &&& built.discriminant == Some(layout.discriminant)
            &&& built.inits.len() == args@.len()
            &&& forall|i: int|
                0 <= i < args@.len() ==> {
                    &&& (#[trigger] built.inits[i]).0 == args@[i]
                    &&& i < layout.fields@.len() ==> built.inits[i].1 == Some(
                        FieldAccessInfo {
                            field_ty: layout.fields@[i].ty,
                            offset_bytes: layout.fields@[i].offset_bytes,
                        },
                    )
                    &&& i >= layout.fields@.len() ==> built.inits[i].1 is None
                }
        }),
{
    reveal(rules::variant_ctor);
    lemma_no_command(cx, s, block, expr);
}

/// The name of a variant without fields builds an aggregate of the size of the variant's layout,
/// with the variant's discriminant and nothing else.
pub proof fn lemma_unit_variant(
    cx: CheckedBody,
    s: State,
    block: BasicBlockId,
    expr: ExprId,
    path: PathId,
    variant: VariantId,
)
    requires
        cx.wf(),
        cx.has_expr(expr),
        cx.expr(expr) == Partial::Present(Expr::Path(path)),
        cx.typed_body.exprs@[expr.0 as int].variant == Some(variant),
    ensures
        ({
            let layout = cx.typed_body.variants@[variant.0 as int];
            let built = rules::unit_variant(cx, expr)->0;
            &&& rules::lower_expr(cx, s, block, expr) == rules::lower_aggregate(
                cx,
                s,
                block,
                expr,
                built,
            )
            &&& built.size_bytes == layout.size_bytes
            &&& built.discriminant == Some(layout.discriminant)
            &&& built.inits.len() == 0
        }),
{
    paths::lemma_no_call(cx, s, block, expr);
    reveal(rules::unit_variant);
}

/// A call that is not the call of a command is not lowered as one.
proof fn lemma_no_command(cx: CheckedBody, s: State, block: BasicBlockId, expr: ExprId)
    requires
        meaning::operation(cx, expr) matches Some(op) ==> !meaning::is_command(op),
    ensures
        rules::intrinsic_stmt(cx, s, block, expr) is None,
{
    reveal(rules::intrinsic_stmt);
    if let Some(op) = meaning::operation(cx, expr) {
        meaning::lemma_command(op);
    }
}

// Expressions and sequences.

/// Whether an expression is only evaluated, for it is none of those that control passes through
/// and builds nothing.
pub open spec fn is_simple(cx: CheckedBody, expr: ExprId) -> bool {
    let command = meaning::is_any_call(cx, expr) && meaning::operation(cx, expr) is Some
        && meaning::is_command(meaning::operation(cx, expr)->0);
    match cx.expr(expr) {
        Partial::Present(Expr::Block(_)) => false,
        Partial::Present(Expr::RecordInit(_, _)) => false,
        Partial::Present(Expr::Match(_, Partial::Present(_))) => false,
        Partial::Present(Expr::Call(callee, _)) => !command
            && cx.typed_body.exprs@[callee.0 as int].variant is None,
        Partial::Present(Expr::MethodCall(_, _, _)) => !command,
        Partial::Present(Expr::Path(_)) => cx.typed_body.exprs@[expr.0 as int].variant is None,
        _ => true,
    }
}

/// A simple expression is lowered to its value, in the block where control is, and as a statement
/// it is evaluated there.
pub proof fn lemma_simple_evaluated(
    cx: CheckedBody,
    s: State,
    block: BasicBlockId,
    stmt: StmtId,
    expr: ExprId,
)
    requires
        cx.wf(),
        cx.has_expr(expr),
        is_simple(cx, expr),
        block.0 < s.blocks.len(),
    ensures
        ({
            let (t, value) = rules::ensure_value(cx, s, expr);
            let in_place = match cx.expr(expr) {
                Partial::Absent => false,
                Partial::Present(Expr::Assign(_, _)) => false,
                Partial::Present(Expr::AugAssign(_, _, _)) => false,
                Partial::Present(Expr::If(_, _, _)) => !meaning::is_nothing(
                    cx,
                    cx.typed_body.exprs@[expr.0 as int].ty,
                ),
                _ => true,
            };
            &&& rules::lower_expr(cx, s, block, expr) matches Some(l) && l.state == t && l.next
                == Some(block) && l.value == value && l.eval
            &&& in_place ==> (rules::lower_expr_stmt(cx, s, block, stmt, expr) matches Some(l)
                && l.next == Some(block) && l.value == Some(value) && appends(
                t,
                block,
                MirInst::Eval { stmt, value },
                l.state,
            ) && keeps_rest(t, l.state) && l.state.pat_spaces == t.pat_spaces)
        }),
{
    growth::lemma_ensure_value(cx, s, expr);
    reveal(rules::intrinsic_stmt);
    reveal(rules::variant_ctor);
    reveal(rules::unit_variant);
    if let Some(op) = meaning::operation(cx, expr) {
        meaning::lemma_command(op);
    }
    assert(cx.body.expr_before(cx.body.exprs@[expr.0 as int], expr.0 as nat));
}

/// Statements are lowered in their order, each where control goes on after the one before it.
/// After a statement from which control does not go on, none follows. A block is lowered by its
/// statements.
pub proof fn lemma_in_order(
    cx: CheckedBody,
    s: State,
    block: BasicBlockId,
    stmts: Seq<StmtId>,
    i: nat,
)
    requires
        cx.wf(),
        cx.body.stmts_before(stmts, cx.body.exprs@.len()),
    ensures
        i >= stmts.len() ==> rules::lower_stmts(cx, s, block, stmts, i) == Some((s, Some(block))),
        i < stmts.len() ==> rules::lower_stmts(cx, s, block, stmts, i) == match rules::lower_stmt(
            cx,
            s,
            block,
            stmts[i as int],
        ) {
            None => None,
            Some(l) => match l.next {
                None => Some((l.state, None)),
                Some(next) => rules::lower_stmts(cx, l.state, next, stmts, i + 1),
            },
        },
{
}

/// A block runs its statements, and as the root of a body it does nothing else. Any other root is
/// lowered to its value.
pub proof fn lemma_block_runs(cx: CheckedBody, s: State, block: BasicBlockId, expr: ExprId)
    requires
        cx.wf(),
        cx.has_expr(expr),
    ensures
        cx.expr(expr) matches Partial::Present(Expr::Block(stmts)) ==> {
            let run = rules::lower_stmts(cx, s, block, stmts@, 0);
            let lowered = rules::lower_expr(cx, s, block, expr);
            &&& rules::lower_root(cx, s, block, expr) == run
            &&& lowered is Some <==> run is Some
            &&& run is Some ==> lowered->0.next == (run->0).1 && !lowered->0.eval && (
            lowered->0.state,
            lowered->0.value,
            ) == rules::ensure_value(cx, (run->0).0, expr)
        },
        !(cx.expr(expr) matches Partial::Present(Expr::Block(_))) ==> {
            let lowered = rules::lower_expr(cx, s, block, expr);
            let root = rules::lower_root(cx, s, block, expr);
            &&& root is Some <==> lowered is Some
            &&& root is Some ==> (root->0).1 == lowered->0.next && meaning::has_value(
                (root->0).0,
                expr,
                lowered->0.value,
            ) && (root->0).0.blocks == lowered->0.state.blocks && (root->0).0.values
                == lowered->0.state.values
        },
{
    if !meaning::is_any_call(cx, expr) {
        paths::lemma_no_call(cx, s, block, expr);
    }
}

/// An expression as a statement is lowered as such, and what is missing from the source is lowered
/// to nothing.
pub proof fn lemma_expression_stands(cx: CheckedBody, s: State, block: BasicBlockId, stmt: StmtId)
    requires
        cx.wf(),
        cx.has_stmt(stmt),
    ensures
        cx.stmt(stmt) == Partial::<Stmt>::Absent ==> (rules::lower_stmt(
            cx,
            s,
            block,
            stmt,
        ) matches Some(l) && l.state == s && l.next == Some(block) && l.value is None),
        cx.stmt(stmt) matches Partial::Present(Stmt::Expr(expr)) ==> {
            &&& rules::lower_stmt(cx, s, block, stmt) == rules::lower_expr_stmt(
                cx,
                s,
                block,
                stmt,
                expr,
            )
            &&& cx.expr(expr) == Partial::<Expr>::Absent ==> (rules::lower_stmt(
                cx,
                s,
                block,
                stmt,
            ) matches Some(l) && l.state == s && l.next == Some(block) && l.value is None)
        },
{
    if let Partial::Present(Stmt::Expr(expr)) = cx.stmt(stmt) {
        assert(body::stmt_top(cx.body.stmts@[stmt.0 as int]) <= cx.body.exprs@.len());
        if cx.expr(expr) == Partial::<Expr>::Absent {
            paths::lemma_no_call(cx, s, block, expr);
        }
    }
}

/// A block, a match, a record or the constructor of a variant that stands alone is lowered as an
/// expression. Where control goes on, it is evaluated there if it has to be.
pub proof fn lemma_expression_evaluated(
    cx: CheckedBody,
    s: State,
    block: BasicBlockId,
    stmt: StmtId,
    expr: ExprId,
)
    requires
        cx.wf(),
        cx.has_expr(expr),
        meaning::operation(cx, expr) matches Some(op) ==> !meaning::is_command(op),
        match cx.expr(expr) {
            Partial::Absent => false,
            Partial::Present(Expr::Assign(_, _)) => false,
            Partial::Present(Expr::AugAssign(_, _, _)) => false,
            Partial::Present(Expr::If(_, _, _)) => false,
            _ => true,
        },
        block.0 < s.blocks.len(),
        sound::sound(s),
    ensures
        match (
            rules::lower_expr_stmt(cx, s, block, stmt, expr),
            rules::lower_expr(cx, s, block, expr),
        ) {
            (None, None) => true,
            (Some(l), Some(e)) => frame::fits(e.state) ==> {
                &&& l.next == e.next
                &&& l.value == Some(e.value)
                &&& if e.next is Some && e.eval {
                    &&& appends(
                        e.state,
                        e.next->0,
                        MirInst::Eval { stmt, value: e.value },
                        l.state,
                    )
                    &&& keeps_rest(e.state, l.state)
                    &&& l.state.pat_spaces == e.state.pat_spaces
                } else {
                    l.state == e.state
                }
            },
            _ => false,
        },
{
    lemma_no_command(cx, s, block, expr);
    if let Some(e) = rules::lower_expr(cx, s, block, expr) {
        if frame::fits(e.state) {
            laws::lemma_lower_expr(cx, s, block, expr);
            if let Some(next) = e.next {
                flow::lemma_next_known(s, block, e.state, next);
            }
        }
    }
}

/// Before anything is lowered, there is nothing: no block, no value, and no open loop.
pub proof fn lemma_nothing_at_start()
    ensures
        State::start().blocks.len() == 0,
        State::start().values.len() == 0,
        State::start().loop_stack.len() == 0,
        forall|k: usize| !#[trigger] State::start().expr_values.contains_key(k),
        forall|k: usize| !#[trigger] State::start().loop_headers.contains_key(k),
        forall|k: usize| !#[trigger] State::start().array_index_info.contains_key(k),
        forall|k: usize| !#[trigger] State::start().value_spaces.contains_key(k),
        forall|k: usize| !#[trigger] State::start().pat_spaces.contains_key(k),
{
}

} // verus!
