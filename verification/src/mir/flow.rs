//! Every construct is lowered by a step that keeps a sound state sound.

use vstd::prelude::*;

use crate::hir::body;
use crate::hir::body::{Expr, Partial, Word};
use crate::hir::ids::{ExprId, PatId};
use crate::hir::typed::FieldAccessInfo;
use crate::mir::frame;
use crate::mir::growth;
use crate::mir::input::CheckedBody;
use crate::mir::ir::{
    AddressSpaceKind, BasicBlockId, InstModel, MirInst, Terminator, TerminatorModel, ValueId,
};
use crate::mir::rules;
use crate::mir::sound;
use crate::mir::state::State;

verus! {

/// From `s` to `t`, values are added and nothing else, and `t` is sound.
pub open spec fn adds(s: State, t: State, value: Option<ValueId>) -> bool {
    &&& growth::adds_values(s, t)
    &&& frame::keeps_values(s, t)
    &&& t.loop_headers == s.loop_headers
    &&& sound::sound(t)
    &&& sound::option_below(value, t.values.len())
}

/// A step to a sound state in which `value` exists.
pub open spec fn flows(
    s: State,
    block: BasicBlockId,
    t: State,
    next: Option<BasicBlockId>,
    value: Option<ValueId>,
) -> bool {
    &&& frame::step(s, block, t, next)
    &&& growth::grows(s, t)
    &&& sound::sound(t)
    &&& sound::option_below(value, t.values.len())
}

// Values.

/// Giving an expression a value adds values.
pub proof fn lemma_ensure_value(cx: CheckedBody, s: State, expr: ExprId)
    requires
        cx.wf(),
        cx.has_expr(expr),
        sound::sound(s),
        frame::fits(rules::ensure_value(cx, s, expr).0),
    ensures
        ({
            let (t, value) = rules::ensure_value(cx, s, expr);
            adds(s, t, Some(value))
        }),
    decreases expr.0 as nat, 3nat, 0nat,
{
    growth::lemma_ensure_value(cx, s, expr);
    if s.expr_values.contains_key(expr.0) {
        sound::lemma_known_value(s, expr);
    } else {
        let (s1, value) = rules::new_value(cx, s, expr);
        let special = match cx.expr(expr) {
            Partial::Present(Expr::Call(_, _)) => {
                growth::lemma_call_value(cx, s, expr);
                lemma_call_value(cx, s, expr);
                rules::call_value(cx, s, expr)
            },
            Partial::Present(Expr::MethodCall(_, _, _)) => {
                growth::lemma_call_value(cx, s, expr);
                lemma_call_value(cx, s, expr);
                rules::call_value(cx, s, expr)
            },
            Partial::Present(Expr::Field(_, _)) => {
                growth::lemma_field_value(cx, s, expr);
                lemma_field_value(cx, s, expr);
                rules::field_value(cx, s, expr)
            },
            _ => (s, None),
        };
        if special.1 is None {
            sound::lemma_with_value(special.0, rules::plain_value(cx, expr));
        }
        sound::lemma_with_expr_value(s1, expr, value);
    }
}

/// Giving expressions values adds values.
pub proof fn lemma_ensure_values(
    cx: CheckedBody,
    s: State,
    exprs: Seq<ExprId>,
    n: nat,
    bound: nat,
)
    requires
        cx.wf(),
        bound <= cx.body.exprs@.len(),
        body::all_before(exprs, bound),
        n <= exprs.len(),
        sound::sound(s),
        frame::fits(rules::ensure_values(cx, s, exprs, n, bound).0),
    ensures
        ({
            let (t, values) = rules::ensure_values(cx, s, exprs, n, bound);
            &&& adds(s, t, None)
            &&& values.len() == n
            &&& sound::values_below(values, t.values.len())
        }),
    decreases bound, 0nat, n,
{
    if n > 0 {
        let (s1, values) = rules::ensure_values(cx, s, exprs, (n - 1) as nat, bound);
        assert(exprs[n - 1].0 < bound);
        growth::lemma_ensure_value(cx, s1, exprs[n - 1]);
        lemma_ensure_values(cx, s, exprs, (n - 1) as nat, bound);
        lemma_ensure_value(cx, s1, exprs[n - 1]);
        let (t, value) = rules::ensure_value(cx, s1, exprs[n - 1]);
        assert forall|i: int| 0 <= i < s.values.len() implies #[trigger] t.values[i]
            == s.values[i] by {
            assert(s1.values[i] == s.values[i]);
        }
    }
}

/// Giving a call a value adds values.
pub proof fn lemma_call_value(cx: CheckedBody, s: State, expr: ExprId)
    requires
        cx.wf(),
        cx.has_expr(expr),
        sound::sound(s),
        frame::fits(rules::call_value(cx, s, expr).0),
    ensures
        ({
            let (t, value) = rules::call_value(cx, s, expr);
            adds(s, t, value)
        }),
    decreases expr.0 as nat, 1nat, 0nat,
{
    growth::lemma_call_value(cx, s, expr);
    match (cx.typed_body.exprs@[expr.0 as int].callable, rules::call_args(cx, expr)) {
        (Some(_), Some(args)) => {
            growth::lemma_call_args_before(cx, expr);
            growth::lemma_ensure_values(cx, s, args, args.len(), expr.0 as nat);
            lemma_ensure_values(cx, s, args, args.len(), expr.0 as nat);
            let (s1, values) = rules::ensure_values(cx, s, args, args.len(), expr.0 as nat);
            let (t, value) = rules::call_value(cx, s, expr);
            if value is Some {
                sound::lemma_with_value(s1, t.values.last());
            }
        },
        _ => {},
    }
}

/// Giving a field access a value adds values.
pub proof fn lemma_field_value(cx: CheckedBody, s: State, expr: ExprId)
    requires
        cx.wf(),
        cx.has_expr(expr),
        sound::sound(s),
        frame::fits(rules::field_value(cx, s, expr).0),
    ensures
        ({
            let (t, value) = rules::field_value(cx, s, expr);
            adds(s, t, value)
        }),
    decreases expr.0 as nat, 1nat, 0nat,
{
    growth::lemma_field_value(cx, s, expr);
    if let Some((lhs, info)) = rules::accessed_field(cx, expr) {
        assert(cx.body.expr_before(cx.body.exprs@[expr.0 as int], expr.0 as nat));
        growth::lemma_ensure_value(cx, s, lhs);
        let (s1, base) = rules::ensure_value(cx, s, lhs);
        let (t, value) = rules::field_value(cx, s, expr);
        lemma_ensure_value(cx, s, lhs);
        if cx.typed_body.fields_of(info.field_ty).len() > 0 {
            if info.offset_bytes == 0 {
                sound::lemma_same(s1, t);
            } else {
                let s2 = s1.with_value(t.values.last());
                sound::lemma_with_value(s1, t.values.last());
                sound::lemma_same(s2, t);
            }
        } else {
            let s2 = s1.with_word(cx, Word::of(info.offset_bytes));
            sound::lemma_with_value(s1, s2.values.last());
            sound::lemma_with_value(s2, t.values.last());
        }
    }
}

// Steps.

/// Adding values is a step.
pub proof fn lemma_values(s: State, block: BasicBlockId, t: State, value: Option<ValueId>)
    requires
        block.0 < s.blocks.len(),
        adds(s, t, value),
    ensures
        flows(s, block, t, Some(block), value),
{
    frame::lemma_values(s, block, t);
}

/// One step after another is a step.
pub proof fn lemma_trans(
    s: State,
    block: BasicBlockId,
    t: State,
    mid: BasicBlockId,
    first: Option<ValueId>,
    u: State,
    next: Option<BasicBlockId>,
    value: Option<ValueId>,
)
    requires
        flows(s, block, t, Some(mid), first),
        flows(t, mid, u, next, value),
    ensures
        flows(s, block, u, next, value),
        flows(s, block, u, next, first),
{
    frame::lemma_trans(s, block, t, mid, u, next);
}

/// A step leads to a block that exists.
pub proof fn lemma_next_known(s: State, block: BasicBlockId, t: State, next: BasicBlockId)
    requires
        frame::step(s, block, t, Some(next)),
    ensures
        next.0 < t.blocks.len(),
        block.0 < t.blocks.len(),
{
    reveal(frame::step);
}

/// Adding an instruction is a step.
pub proof fn lemma_inst(s: State, block: BasicBlockId, inst: InstModel)
    requires
        block.0 < s.blocks.len(),
        sound::sound(s),
        sound::inst_sound(inst, s.values.len()),
    ensures
        flows(s, block, s.with_inst(block, inst), Some(block), None),
{
    frame::lemma_with_inst(s, block, inst);
    sound::lemma_with_inst(s, block, inst);
}

/// Ending a block is a step that does not go on.
pub proof fn lemma_end(s: State, block: BasicBlockId, end: TerminatorModel)
    requires
        block.0 < s.blocks.len(),
        sound::sound(s),
        sound::end_sound(end, s.blocks.len(), s.values.len()),
        forall|target: BasicBlockId| #[trigger]
            frame::leads_to(end, target) ==> frame::cared_for(
                s.with_terminator(block, end),
                None,
                target,
            ),
    ensures
        flows(s, block, s.with_terminator(block, end), None, None),
{
    frame::lemma_with_terminator(s, block, end);
    sound::lemma_with_terminator(s, block, end);
}

/// Settling where the variable of a pattern lives is a step.
pub proof fn lemma_space(s: State, block: BasicBlockId, pat: PatId, space: AddressSpaceKind)
    requires
        block.0 < s.blocks.len(),
        sound::sound(s),
    ensures
        flows(s, block, s.with_pat_space(pat, space), Some(block), None),
{
    let t = s.with_pat_space(pat, space);
    frame::lemma_values(s, block, t);
    sound::lemma_same(s, t);
}

/// Doing nothing is a step.
pub proof fn lemma_rest(s: State, block: BasicBlockId)
    requires
        block.0 < s.blocks.len(),
        sound::sound(s),
    ensures
        flows(s, block, s, Some(block), None),
{
    frame::lemma_values(s, block, s);
}

/// Adding a constant is a step.
pub proof fn lemma_word(cx: CheckedBody, s: State, block: BasicBlockId, word: Word)
    requires
        block.0 < s.blocks.len(),
        sound::sound(s),
        frame::fits(s.with_word(cx, word)),
    ensures
        flows(s, block, s.with_word(cx, word), Some(block), Some(s.next_value())),
{
    let t = s.with_word(cx, word);
    frame::lemma_values(s, block, t);
    sound::lemma_with_value(s, t.values.last());
}

/// Lowering the call of an intrinsic is a step.
pub proof fn lemma_intrinsic_stmt(cx: CheckedBody, s: State, block: BasicBlockId, expr: ExprId)
    requires
        cx.wf(),
        cx.has_expr(expr),
        block.0 < s.blocks.len(),
        sound::sound(s),
    ensures
        rules::intrinsic_stmt(cx, s, block, expr) matches Some((t, next, value)) ==> frame::fits(
            t,
        ) ==> flows(s, block, t, next, Some(value)),
{
    reveal(rules::intrinsic_stmt);
    if let Some((t, next, value)) = rules::intrinsic_stmt(cx, s, block, expr) {
        if frame::fits(t) {
            let args = rules::call_args(cx, expr)->0;
            growth::lemma_call_args_before(cx, expr);
            growth::lemma_ensure_values(cx, s, args, args.len(), expr.0 as nat);
            let (s1, values) = rules::ensure_values(cx, s, args, args.len(), expr.0 as nat);
            growth::lemma_ensure_value(cx, s1, expr);
            let (s2, _) = rules::ensure_value(cx, s1, expr);
            lemma_ensure_values(cx, s, args, args.len(), expr.0 as nat);
            lemma_ensure_value(cx, s1, expr);
            lemma_values(s, block, s1, None);
            lemma_values(s1, block, s2, Some(value));
            lemma_trans(s, block, s1, block, None, s2, Some(block), Some(value));
            assert(sound::values_below(values, s2.values.len()));
            match next {
                None => lemma_end(
                    s2,
                    block,
                    Terminator::ReturnData { offset: values[0], size: values[1] },
                ),
                Some(_) => lemma_inst(s2, block, t.blocks[block.0 as int].insts.last()),
            }
            lemma_trans(s, block, s2, block, Some(value), t, next, None);
        }
    }
}

/// Storing a field is a step.
pub proof fn lemma_store_field(
    cx: CheckedBody,
    s: State,
    block: BasicBlockId,
    expr: ExprId,
    base: ValueId,
    info: FieldAccessInfo,
    value: ValueId,
)
    requires
        block.0 < s.blocks.len(),
        sound::sound(s),
        frame::fits(rules::store_field(cx, s, block, expr, base, info, value)),
        base.0 < s.values.len(),
        value.0 < s.values.len(),
    ensures
        flows(
            s,
            block,
            rules::store_field(cx, s, block, expr, base, info, value),
            Some(block),
            None,
        ),
{
    reveal(rules::store_field);
    let t = rules::store_field(cx, s, block, expr, base, info, value);
    let s1 = s.with_word(cx, Word::of(info.offset_bytes));
    let s2 = s1.with_value(t.values.last());
    sound::lemma_with_value(s, s1.values.last());
    sound::lemma_with_value(s1, t.values.last());
    lemma_values(s, block, s2, None);
    let inst = MirInst::EvalExpr { expr, value: s1.next_value(), bind_value: false };
    lemma_inst(s2, block, inst);
    lemma_trans(s, block, s2, block, None, t, Some(block), None);
}

/// Storing a discriminant is a step.
pub proof fn lemma_store_discriminant(
    cx: CheckedBody,
    s: State,
    block: BasicBlockId,
    expr: ExprId,
    base: ValueId,
    discriminant: u64,
)
    requires
        block.0 < s.blocks.len(),
        sound::sound(s),
        frame::fits(rules::store_discriminant(cx, s, block, expr, base, discriminant)),
        base.0 < s.values.len(),
    ensures
        flows(
            s,
            block,
            rules::store_discriminant(cx, s, block, expr, base, discriminant),
            Some(block),
            None,
        ),
{
    reveal(rules::store_discriminant);
    let t = rules::store_discriminant(cx, s, block, expr, base, discriminant);
    let s1 = s.with_word(cx, Word::of(discriminant));
    let s2 = s1.with_value(t.values.last());
    sound::lemma_with_value(s, s1.values.last());
    sound::lemma_with_value(s1, t.values.last());
    lemma_values(s, block, s2, None);
    let inst = MirInst::EvalExpr { expr, value: s1.next_value(), bind_value: false };
    lemma_inst(s2, block, inst);
    lemma_trans(s, block, s2, block, None, t, Some(block), None);
}

/// Reserving room for an aggregate is a step.
pub proof fn lemma_alloc_aggregate(
    cx: CheckedBody,
    s: State,
    block: BasicBlockId,
    expr: ExprId,
    size_bytes: u64,
)
    requires
        block.0 < s.blocks.len(),
        sound::sound(s),
        frame::fits(rules::alloc_aggregate(cx, s, block, expr, size_bytes).0),
    ensures
        ({
            let (t, base) = rules::alloc_aggregate(cx, s, block, expr, size_bytes);
            flows(s, block, t, Some(block), Some(base))
        }),
{
    reveal(rules::alloc_aggregate);
    let (t, base) = rules::alloc_aggregate(cx, s, block, expr, size_bytes);
    let s1 = s.with_word(cx, Word::of(size_bytes));
    let s2 = s1.with_value(t.values.last());
    let s3 = s2.with_expr_value(expr, base);
    sound::lemma_with_value(s, s1.values.last());
    sound::lemma_with_value(s1, t.values.last());
    sound::lemma_with_expr_value(s2, expr, base);
    lemma_values(s, block, s3, Some(base));
    let inst = MirInst::EvalExpr { expr, value: base, bind_value: true };
    lemma_inst(s3, block, inst);
    lemma_trans(s, block, s3, block, Some(base), t, Some(block), None);
}

/// Assigning to a field is a step.
pub proof fn lemma_field_assign(
    cx: CheckedBody,
    s: State,
    block: BasicBlockId,
    expr: ExprId,
    target: ExprId,
    value: ValueId,
)
    requires
        cx.wf(),
        cx.has_expr(target),
        block.0 < s.blocks.len(),
        sound::sound(s),
        value.0 < s.values.len(),
    ensures
        rules::field_assign(cx, s, block, expr, target, value) matches Some(t) ==> frame::fits(t)
            ==> flows(s, block, t, Some(block), None),
{
    reveal(rules::field_assign);
    if let Some((lhs, info)) = rules::accessed_field(cx, target) {
        assert(cx.body.expr_before(cx.body.exprs@[target.0 as int], target.0 as nat));
        let (s1, base) = rules::ensure_value(cx, s, lhs);
        let t = rules::store_field(cx, s1, block, expr, base, info, value);
        if frame::fits(t) {
            growth::lemma_ensure_value(cx, s, lhs);
            assert(frame::fits(s1)) by {
                reveal(rules::store_field);
            }
            lemma_ensure_value(cx, s, lhs);
            lemma_values(s, block, s1, Some(base));
            lemma_store_field(cx, s1, block, expr, base, info, value);
            lemma_trans(s, block, s1, block, Some(base), t, Some(block), None);
        }
    }
}

} // verus!
