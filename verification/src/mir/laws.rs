//! What holds of lowering as a whole.
//!
//! Lowering never changes what it has finished: it works at the end of one block, adds blocks
//! and values, and goes on at the end of one block. It keeps every identifier bound, leaves every
//! loop that it enters, and leads control to no block that is left without a terminator.

use vstd::prelude::*;

use crate::hir::body;
use crate::hir::body::{ArithBinOp, CompBinOp, Expr, MatchArm, Partial, Stmt, Word};
use crate::hir::ids::{ExprId, PatId, StmtId};
use crate::hir::typed::{FieldAccessInfo, LocalBinding, MatchArmPattern};
use crate::mir::flow;
use crate::mir::frame;
use crate::mir::growth;
use crate::mir::input::CheckedBody;
use crate::mir::ir::{
    BasicBlockId, InstModel, LoopInfo, LoopScope, MirInst, SwitchTarget, SyntheticValue,
    Terminator, ValueId, ValueOrigin,
};
use crate::mir::loops;
use crate::mir::loops::{LoopPlan, Passage};
use crate::mir::rules;
use crate::mir::rules::{Aggregate, Iterable, LoopBlocks, LoopStart, LoweredExpr};
use crate::mir::sound;
use crate::mir::state::State;

verus! {

/// An expression gets one value: asking for it again adds nothing and yields the same value.
pub proof fn lemma_value_once(cx: CheckedBody, s: State, expr: ExprId)
    requires
        cx.wf(),
        cx.has_expr(expr),
    ensures
        ({
            let (t, value) = rules::ensure_value(cx, s, expr);
            rules::ensure_value(cx, t, expr) == (t, value)
        }),
{
}

/// A field that is an aggregate itself lives where the aggregate around it lives.
pub proof fn lemma_field_space(cx: CheckedBody, s: State, expr: ExprId)
    requires
        cx.wf(),
        cx.has_expr(expr),
        rules::accessed_field(cx, expr) matches Some((_, info)) && cx.typed_body.fields_of(
            info.field_ty,
        ).len() > 0,
    ensures
        ({
            let (lhs, _) = rules::accessed_field(cx, expr)->0;
            let (s1, base) = rules::ensure_value(cx, s, lhs);
            let (t, value) = rules::field_value(cx, s, expr);
            value is Some && t.space_of(cx, value->0) == s1.space_of(cx, base)
        }),
{
}

/// Lowering an expression is a step to a sound state.
pub proof fn lemma_lower_expr(cx: CheckedBody, s: State, block: BasicBlockId, expr: ExprId)
    requires
        cx.wf(),
        cx.has_expr(expr),
        block.0 < s.blocks.len(),
        sound::sound(s),
    ensures
        rules::lower_expr(cx, s, block, expr) matches Some(l) ==> frame::fits(l.state)
            ==> flow::flows(s, block, l.state, l.next, Some(l.value)),
    decreases expr.0 as nat, 4nat, 0nat,
{
    assert(cx.body.expr_before(cx.body.exprs@[expr.0 as int], expr.0 as nat));
    flow::lemma_intrinsic_stmt(cx, s, block, expr);
    growth::lemma_inits_before(cx, expr);
    if let Some(_) = rules::intrinsic_stmt(cx, s, block, expr) {
    } else if let Some(aggregate) = rules::variant_ctor(cx, expr) {
        lemma_lower_aggregate(cx, s, block, expr, aggregate);
    } else if let Some(aggregate) = rules::unit_variant(cx, expr) {
        lemma_lower_aggregate(cx, s, block, expr, aggregate);
    } else {
        match cx.expr(expr) {
            Partial::Present(Expr::Block(stmts)) => {
                rules::lemma_stmts_top_least(cx, stmts@, expr.0 as nat);
                if let Some((s1, next)) = rules::lower_stmts(cx, s, block, stmts@, 0) {
                    let (t, value) = rules::ensure_value(cx, s1, expr);
                    if frame::fits(t) {
                        growth::lemma_ensure_value(cx, s1, expr);
                        lemma_lower_stmts(cx, s, block, stmts@, 0);
                        flow::lemma_ensure_value(cx, s1, expr);
                        lemma_then_values(s, block, s1, next, t, value);
                    }
                }
            },
            Partial::Present(Expr::RecordInit(_, fields)) => {
                lemma_lower_aggregate(cx, s, block, expr, rules::record(cx, expr, fields@));
            },
            Partial::Present(Expr::Match(scrutinee, Partial::Present(arms))) => {
                match rules::arm_patterns(cx, arms@) {
                    Some(patterns) => {
                        assert(patterns.len() == arms@.len()) by {
                            reveal(rules::arm_patterns);
                        }
                        lemma_lower_match(cx, s, block, expr, scrutinee, arms@, patterns);
                    },
                    None => lemma_evaluated(cx, s, block, expr),
                }
            },
            _ => lemma_evaluated(cx, s, block, expr),
        }
    }
}

/// Adding values after a step, wherever it goes on, is a step.
proof fn lemma_then_values(
    s: State,
    block: BasicBlockId,
    t: State,
    next: Option<BasicBlockId>,
    u: State,
    value: ValueId,
)
    requires
        flow::flows(s, block, t, next, None),
        flow::adds(t, u, Some(value)),
    ensures
        flow::flows(s, block, u, next, Some(value)),
{
    reveal(frame::step);
    frame::lemma_keeps_values_trans(s, t, u);
    assert(frame::wired(s, block, u, next)) by {
        assert forall|i: int, target: BasicBlockId|
            frame::ended(s, block, u, next, i) && u.blocks[i].terminator is Some
                && #[trigger] frame::leads_to(
                u.blocks[i].terminator->0,
                target,
            ) implies frame::cared_for(u, next, target) by {
            assert(frame::ended(s, block, t, next, i));
            assert(frame::leads_to(t.blocks[i].terminator->0, target));
        }
    }
}

/// Giving an expression a value is a step.
proof fn lemma_evaluated(cx: CheckedBody, s: State, block: BasicBlockId, expr: ExprId)
    requires
        cx.wf(),
        cx.has_expr(expr),
        block.0 < s.blocks.len(),
        sound::sound(s),
    ensures
        ({
            let l = rules::evaluated(cx, s, block, expr);
            frame::fits(l.state) ==> flow::flows(s, block, l.state, l.next, Some(l.value))
        }),
{
    let (t, value) = rules::ensure_value(cx, s, expr);
    if frame::fits(t) {
        flow::lemma_ensure_value(cx, s, expr);
        flow::lemma_values(s, block, t, Some(value));
    }
}

/// Lowering an aggregate is a step to a sound state.
pub proof fn lemma_lower_aggregate(
    cx: CheckedBody,
    s: State,
    block: BasicBlockId,
    expr: ExprId,
    aggregate: Aggregate,
)
    requires
        cx.wf(),
        cx.has_expr(expr),
        rules::inits_before(aggregate.inits, expr.0 as nat),
        block.0 < s.blocks.len(),
        sound::sound(s),
    ensures
        rules::lower_aggregate(cx, s, block, expr, aggregate) matches Some(l) ==> frame::fits(
            l.state,
        ) ==> flow::flows(s, block, l.state, l.next, Some(l.value)),
    decreases expr.0 as nat, 3nat, aggregate.inits.len() + 1,
{
    let (s1, base) = rules::alloc_aggregate(cx, s, block, expr, aggregate.size_bytes);
    let s2 = match aggregate.discriminant {
        Some(d) => rules::store_discriminant(cx, s1, block, expr, base, d),
        None => s1,
    };
    if let Some((t, next)) = rules::lower_inits(cx, s2, block, expr, base, aggregate.inits, 0) {
        if frame::fits(t) {
            growth::lemma_lower_inits(cx, s2, block, expr, base, aggregate.inits, 0);
            assert(frame::fits(s1) && frame::fits(s2)) by {
                reveal(rules::alloc_aggregate);
                reveal(rules::store_discriminant);
            }
            flow::lemma_alloc_aggregate(cx, s, block, expr, aggregate.size_bytes);
            if let Some(d) = aggregate.discriminant {
                flow::lemma_store_discriminant(cx, s1, block, expr, base, d);
                flow::lemma_trans(s, block, s1, block, Some(base), s2, Some(block), None);
            }
            lemma_lower_inits(cx, s2, block, expr, base, aggregate.inits, 0);
            flow::lemma_trans(s, block, s2, block, Some(base), t, next, None);
        }
    }
}

/// Computing and storing the parts of an aggregate is a step to a sound state.
pub proof fn lemma_lower_inits(
    cx: CheckedBody,
    s: State,
    block: BasicBlockId,
    expr: ExprId,
    base: ValueId,
    inits: Seq<(ExprId, Option<FieldAccessInfo>)>,
    i: nat,
)
    requires
        cx.wf(),
        cx.has_expr(expr),
        rules::inits_before(inits, expr.0 as nat),
        block.0 < s.blocks.len(),
        sound::sound(s),
        base.0 < s.values.len(),
    ensures
        rules::lower_inits(cx, s, block, expr, base, inits, i) matches Some((t, next))
            ==> frame::fits(t) ==> flow::flows(s, block, t, next, None),
    decreases expr.0 as nat, 3nat, inits.len() - i,
{
    if i >= inits.len() {
        flow::lemma_rest(s, block);
    } else if let Some((t, end)) = rules::lower_inits(cx, s, block, expr, base, inits, i) {
        if frame::fits(t) {
            let init = rules::lower_expr(cx, s, block, inits[i as int].0)->0;
            growth::lemma_lower_expr(cx, s, block, inits[i as int].0);
            if let Some(next) = init.next {
                let s1 = match inits[i as int].1 {
                    Some(info) => rules::store_field(
                        cx,
                        init.state,
                        next,
                        expr,
                        base,
                        info,
                        init.value,
                    ),
                    None => init.state,
                };
                growth::lemma_lower_inits(cx, s1, next, expr, base, inits, i + 1);
                assert(frame::fits(s1) && frame::fits(init.state)) by {
                    reveal(rules::store_field);
                }
                lemma_lower_expr(cx, s, block, inits[i as int].0);
                flow::lemma_next_known(s, block, init.state, next);
                if let Some(info) = inits[i as int].1 {
                    flow::lemma_store_field(
                        cx,
                        init.state,
                        next,
                        expr,
                        base,
                        info,
                        init.value,
                    );
                    flow::lemma_trans(
                        s,
                        block,
                        init.state,
                        next,
                        Some(init.value),
                        s1,
                        Some(next),
                        None,
                    );
                }
                flow::lemma_next_known(s, block, s1, next);
                lemma_lower_inits(cx, s1, next, expr, base, inits, i + 1);
                flow::lemma_trans(s, block, s1, next, None, t, end, None);
            } else {
                lemma_lower_expr(cx, s, block, inits[i as int].0);
            }
        }
    }
}

/// What lowering the arms of a match from `s` to `t` keeps and adds. The arms are entered at
/// `entries` from the `from`-th on, and those that end lead to `merge`.
pub open spec fn arms_flow(
    s: State,
    merge0: Option<BasicBlockId>,
    t: State,
    merge: Option<BasicBlockId>,
    entries: Seq<BasicBlockId>,
    from: nat,
) -> bool {
    &&& s.blocks.len() <= t.blocks.len()
    &&& forall|i: int| 0 <= i < s.blocks.len() ==> #[trigger] t.blocks[i] == s.blocks[i]
    &&& frame::keeps_values(s, t)
    &&& frame::keeps_loops(s, t)
    &&& t.loop_stack == s.loop_stack
    &&& sound::sound(t)
    &&& forall|i: int|
        from <= i < entries.len() ==> s.blocks.len() <= (#[trigger] entries[i]).0
            < t.blocks.len() && t.blocks[entries[i].0 as int].terminator is Some
    &&& match (merge0, merge) {
        (Some(m0), Some(m)) => m0 == m,
        (Some(_), None) => false,
        (None, Some(m)) => s.blocks.len() <= m.0 < t.blocks.len()
            && t.blocks[m.0 as int].terminator is None,
        (None, None) => true,
    }
    &&& forall|i: int, target: BasicBlockId|
        s.blocks.len() <= i < t.blocks.len() && t.blocks[i].terminator is Some
            && #[trigger] frame::leads_to(t.blocks[i].terminator->0, target) ==> frame::cared_for(
            t,
            merge,
            target,
        )
}

/// An arm of a match, and where it leads, is one more arm.
pub(crate) proof fn lemma_arm(
    s: State,
    entry: BasicBlockId,
    arm: LoweredExpr,
    merge: Option<BasicBlockId>,
    entries: Seq<BasicBlockId>,
)
    requires
        entry == s.next_block(),
        sound::sound(s),
        merge matches Some(m) ==> m.0 < s.blocks.len(),
        flow::flows(s.with_block(), entry, arm.state, arm.next, None),
        frame::fits(rules::meet(arm, merge).0),
    ensures
        ({
            let (t, merge1) = rules::meet(arm, merge);
            arms_flow(s, merge, t, merge1, entries.push(entry), entries.len())
        }),
{
    reveal(frame::step);
    let s0 = s.with_block();
    let (t, merge1) = rules::meet(arm, merge);
    assert(entry.0 == s.blocks.len());
    match (arm.next, merge) {
        (None, _) => {},
        (Some(end), Some(target)) => {
            let goto = Terminator::Goto { target };
            sound::lemma_with_terminator(arm.state, end, goto);
        },
        (Some(end), None) => {
            sound::lemma_with_block(arm.state);
            let goto = Terminator::Goto { target: arm.state.next_block() };
            sound::lemma_with_terminator(arm.state.with_block(), end, goto);
        },
    }
    assert forall|i: int| 0 <= i < s.blocks.len() implies #[trigger] t.blocks[i]
        == s.blocks[i] by {
        assert(s0.blocks[i] == s.blocks[i]);
        assert(arm.state.blocks[i] == s0.blocks[i]);
    }
    frame::lemma_keeps_values_trans(s, s0, arm.state);
    assert forall|h: usize|
        h < s.blocks.len() && #[trigger] s.loop_headers.contains_key(
            h,
        ) implies t.loop_headers.contains_key(h) && t.loop_headers[h] == s.loop_headers[h] by {
        assert(s0.loop_headers.contains_key(h));
    }
    assert forall|i: int, target: BasicBlockId|
        s.blocks.len() <= i < t.blocks.len() && t.blocks[i].terminator is Some
            && #[trigger] frame::leads_to(
            t.blocks[i].terminator->0,
            target,
        ) implies frame::cared_for(t, merge1, target) by {
        if arm.next is Some && i == (arm.next->0).0 {
        } else if i >= arm.state.blocks.len() {
        } else {
            assert(t.blocks[i] == arm.state.blocks[i]);
            assert(frame::ended(s0, entry, arm.state, arm.next, i));
            assert(frame::leads_to(arm.state.blocks[i].terminator->0, target));
            assert(frame::cared_for(arm.state, arm.next, target));
        }
    }
}

/// Arms after arms are arms.
proof fn lemma_arms_trans(
    s: State,
    merge0: Option<BasicBlockId>,
    t: State,
    merge1: Option<BasicBlockId>,
    first: Seq<BasicBlockId>,
    u: State,
    merge2: Option<BasicBlockId>,
    entries: Seq<BasicBlockId>,
    from: nat,
)
    requires
        arms_flow(s, merge0, t, merge1, first, from),
        arms_flow(t, merge1, u, merge2, entries, first.len()),
        first.len() == from + 1,
        first.is_prefix_of(entries),
    ensures
        arms_flow(s, merge0, u, merge2, entries, from),
{
    frame::lemma_keeps_values_trans(s, t, u);
    assert forall|i: int| 0 <= i < s.blocks.len() implies #[trigger] u.blocks[i]
        == s.blocks[i] by {
        assert(t.blocks[i] == s.blocks[i]);
    }
    assert(entries[from as int] == first[from as int]);
    assert forall|i: int, target: BasicBlockId|
        s.blocks.len() <= i < u.blocks.len() && u.blocks[i].terminator is Some
            && #[trigger] frame::leads_to(
            u.blocks[i].terminator->0,
            target,
        ) implies frame::cared_for(u, merge2, target) by {
        if i < t.blocks.len() {
            assert(u.blocks[i] == t.blocks[i]);
            assert(frame::leads_to(t.blocks[i].terminator->0, target));
            assert(frame::cared_for(t, merge1, target));
        }
    }
}

/// The arms of a match are lowered to arms.
pub proof fn lemma_lower_arms(
    cx: CheckedBody,
    s: State,
    expr: ExprId,
    arms: Seq<MatchArm>,
    i: nat,
    merge: Option<BasicBlockId>,
    entries: Seq<BasicBlockId>,
)
    requires
        cx.wf(),
        cx.has_expr(expr),
        rules::arms_before(arms, expr.0 as nat),
        sound::sound(s),
        i <= arms.len(),
        merge matches Some(m) ==> m.0 < s.blocks.len(),
    ensures
        rules::lower_arms(cx, s, expr, arms, i, merge, entries) matches Some((t, merge1, all))
            ==> frame::fits(t) ==> {
            &&& all.len() == entries.len() + (arms.len() - i)
            &&& entries.is_prefix_of(all)
            &&& arms_flow(s, merge, t, merge1, all, entries.len())
        },
    decreases expr.0 as nat, 3nat, arms.len() - i,
{
    if i >= arms.len() {
        assert(entries =~= entries.subrange(0, entries.len() as int));
    } else if let Some((t, merge2, all)) = rules::lower_arms(
        cx,
        s,
        expr,
        arms,
        i,
        merge,
        entries,
    ) {
        if frame::fits(t) {
            let entry = s.next_block();
            let s0 = s.with_block();
            let arm = rules::lower_expr(cx, s0, entry, arms[i as int].body)->0;
            let (s1, merge1) = rules::meet(arm, merge);
            growth::lemma_lower_expr(cx, s0, entry, arms[i as int].body);
            growth::lemma_lower_arms(cx, s1, expr, arms, i + 1, merge1, entries.push(entry));
            sound::lemma_with_block(s);
            assert(entry.0 == s.blocks.len());
            lemma_lower_expr(cx, s0, entry, arms[i as int].body);
            lemma_arm(s, entry, arm, merge, entries);
            lemma_lower_arms(cx, s1, expr, arms, i + 1, merge1, entries.push(entry));
            assert(entries.is_prefix_of(all)) by {
                assert(entries =~= entries.push(entry).subrange(0, entries.len() as int));
                assert(entries =~= all.subrange(0, entries.len() as int));
            }
            lemma_arms_trans(
                s,
                merge,
                s1,
                merge1,
                entries.push(entry),
                t,
                merge2,
                all,
                entries.len(),
            );
        }
    }
}

/// The first pattern that tests nothing is one of the patterns, or there is none.
proof fn lemma_first_wildcard(patterns: Seq<MatchArmPattern>, i: nat)
    requires
        i <= patterns.len(),
    ensures
        i <= rules::first_wildcard(patterns, i) <= patterns.len(),
    decreases patterns.len() - i,
{
    if i < patterns.len() && patterns[i as int] != MatchArmPattern::Wildcard {
        lemma_first_wildcard(patterns, i + 1);
    }
}

/// The switch over the arms of a match, together with the arms, is a step.
proof fn lemma_close_match(
    s: State,
    header: BasicBlockId,
    t: State,
    merge: Option<BasicBlockId>,
    discr: ValueId,
    patterns: Seq<MatchArmPattern>,
    entries: Seq<BasicBlockId>,
)
    requires
        header.0 < s.blocks.len(),
        arms_flow(s, None, t, merge, entries, 0),
        growth::grows(s, t),
        entries.len() == patterns.len(),
        discr.0 < t.values.len(),
        frame::fits(rules::close_match(t, header, discr, patterns, entries)),
    ensures
        flow::flows(
            s,
            header,
            rules::close_match(t, header, discr, patterns, entries),
            merge,
            None,
        ),
{
    reveal(rules::close_match);
    let u = rules::close_match(t, header, discr, patterns, entries);
    let wildcard = rules::first_wildcard(patterns, 0);
    lemma_first_wildcard(patterns, 0);
    let targets = rules::switch_targets(patterns, entries);
    let (t1, default) = if wildcard < patterns.len() {
        (t, entries[wildcard as int])
    } else {
        let unreachable = t.next_block();
        (t.with_block().with_terminator(unreachable, Terminator::Unreachable), unreachable)
    };
    if wildcard >= patterns.len() {
        sound::lemma_with_block(t);
        sound::lemma_with_terminator(t.with_block(), default, Terminator::Unreachable);
    }
    assert forall|i: int| 0 <= i < targets.len() implies (#[trigger] targets[i]).block.0
        < t1.blocks.len() by {
        assert(targets[i].block == entries[i]);
    }
    let end = Terminator::Switch { discr, targets, default };
    sound::lemma_with_terminator(t1, header, end);
    assert forall|i: int| 0 <= i < s.blocks.len() && i != header.0 implies #[trigger] u.blocks[i]
        == s.blocks[i] by {
        assert(t.blocks[i] == s.blocks[i]);
    }
    let insts = s.blocks[header.0 as int].insts;
    assert(t.blocks[header.0 as int] == s.blocks[header.0 as int]);
    assert(insts =~= insts.subrange(0, insts.len() as int));
    assert(u.blocks[header.0 as int].insts == insts);
    assert(frame::wired(s, header, u, merge)) by {
        assert forall|i: int, target: BasicBlockId|
            frame::ended(s, header, u, merge, i) && u.blocks[i].terminator is Some
                && #[trigger] frame::leads_to(
                u.blocks[i].terminator->0,
                target,
            ) implies frame::cared_for(u, merge, target) by {
            if i == header.0 {
                if target != default {
                    let j = choose|j: int|
                        0 <= j < targets.len() && (#[trigger] targets[j]).block == target;
                    assert(targets[j].block == entries[j]);
                }
            } else if i < t.blocks.len() {
                assert(u.blocks[i] == t.blocks[i]);
                assert(frame::leads_to(t.blocks[i].terminator->0, target));
                assert(frame::cared_for(t, merge, target));
            }
        }
    }
    reveal(frame::step);
}

/// Lowering a match is a step to a sound state.
pub proof fn lemma_lower_match(
    cx: CheckedBody,
    s: State,
    block: BasicBlockId,
    expr: ExprId,
    scrutinee: ExprId,
    arms: Seq<MatchArm>,
    patterns: Seq<MatchArmPattern>,
)
    requires
        cx.wf(),
        cx.has_expr(expr),
        scrutinee.0 < expr.0,
        rules::arms_before(arms, expr.0 as nat),
        patterns.len() == arms.len(),
        block.0 < s.blocks.len(),
        sound::sound(s),
    ensures
        rules::lower_match(cx, s, block, expr, scrutinee, arms, patterns) matches Some(l)
            ==> frame::fits(l.state) ==> flow::flows(s, block, l.state, l.next, Some(l.value)),
    decreases expr.0 as nat, 3nat, arms.len() + 1,
{
    if let Some(l) = rules::lower_match(cx, s, block, expr, scrutinee, arms, patterns) {
        if frame::fits(l.state) {
            let (s1, value) = rules::ensure_value(cx, s, expr);
            let tested = rules::lower_expr(cx, s1, block, scrutinee)->0;
            growth::lemma_ensure_value(cx, s, expr);
            growth::lemma_lower_expr(cx, s1, block, scrutinee);
            if let Some(header) = tested.next {
                let (s2, merge, entries) = rules::lower_arms(
                    cx,
                    tested.state,
                    expr,
                    arms,
                    0,
                    None,
                    Seq::empty(),
                )->0;
                growth::lemma_lower_arms(cx, tested.state, expr, arms, 0, None, Seq::empty());
                assert(frame::fits(s2)) by {
                    reveal(rules::close_match);
                }
                flow::lemma_ensure_value(cx, s, expr);
                flow::lemma_values(s, block, s1, Some(value));
                lemma_lower_expr(cx, s1, block, scrutinee);
                flow::lemma_trans(
                    s,
                    block,
                    s1,
                    block,
                    Some(value),
                    tested.state,
                    Some(header),
                    Some(tested.value),
                );
                flow::lemma_next_known(s, block, tested.state, header);
                lemma_lower_arms(cx, tested.state, expr, arms, 0, None, Seq::empty());
                lemma_close_match(
                    tested.state,
                    header,
                    s2,
                    merge,
                    tested.value,
                    patterns,
                    entries,
                );
                flow::lemma_trans(
                    s,
                    block,
                    tested.state,
                    header,
                    Some(value),
                    l.state,
                    merge,
                    None,
                );
            } else {
                flow::lemma_ensure_value(cx, s, expr);
                flow::lemma_values(s, block, s1, Some(value));
                lemma_lower_expr(cx, s1, block, scrutinee);
                flow::lemma_trans(
                    s,
                    block,
                    s1,
                    block,
                    Some(value),
                    tested.state,
                    None,
                    Some(tested.value),
                );
            }
        }
    }
}

/// Lowering statements is a step to a sound state.
pub proof fn lemma_lower_stmts(
    cx: CheckedBody,
    s: State,
    block: BasicBlockId,
    stmts: Seq<StmtId>,
    i: nat,
)
    requires
        cx.wf(),
        cx.body.stmts_before(stmts, cx.body.exprs@.len()),
        block.0 < s.blocks.len(),
        sound::sound(s),
    ensures
        rules::lower_stmts(cx, s, block, stmts, i) matches Some((t, next)) ==> frame::fits(t)
            ==> flow::flows(s, block, t, next, None),
    decreases rules::stmts_top(cx, stmts), 3nat, stmts.len() - i,
{
    if i >= stmts.len() {
        flow::lemma_rest(s, block);
    } else if let Some((t, end)) = rules::lower_stmts(cx, s, block, stmts, i) {
        if frame::fits(t) {
            rules::lemma_stmts_top(cx, stmts, i as int);
            let stmt = rules::lower_stmt(cx, s, block, stmts[i as int])->0;
            if let Some(next) = stmt.next {
                growth::lemma_lower_stmts(cx, stmt.state, next, stmts, i + 1);
                lemma_lower_stmt(cx, s, block, stmts[i as int]);
                flow::lemma_next_known(s, block, stmt.state, next);
                lemma_lower_stmts(cx, stmt.state, next, stmts, i + 1);
                flow::lemma_trans(s, block, stmt.state, next, stmt.value, t, end, None);
            } else {
                lemma_lower_stmt(cx, s, block, stmts[i as int]);
            }
        }
    }
}

/// Lowering a statement is a step to a sound state.
pub proof fn lemma_lower_stmt(cx: CheckedBody, s: State, block: BasicBlockId, stmt: StmtId)
    requires
        cx.wf(),
        cx.has_stmt(stmt),
        block.0 < s.blocks.len(),
        sound::sound(s),
    ensures
        rules::lower_stmt(cx, s, block, stmt) matches Some(l) ==> frame::fits(l.state)
            ==> flow::flows(s, block, l.state, l.next, l.value),
    decreases body::stmt_top(cx.stmt(stmt)), 2nat, 0nat,
{
    assert(body::stmt_top(cx.body.stmts@[stmt.0 as int]) <= cx.body.exprs@.len());
    match cx.stmt(stmt) {
        Partial::Absent => flow::lemma_rest(s, block),
        Partial::Present(data) => match data {
            Stmt::Let(pat, ty, None) => {
                flow::lemma_inst(s, block, MirInst::Let { stmt, pat, ty, value: None });
            },
            Stmt::Let(pat, ty, Some(init_expr)) => {
                if let Some(init) = rules::lower_expr(cx, s, block, init_expr) {
                    if frame::fits(init.state) {
                        lemma_lower_expr(cx, s, block, init_expr);
                        let space = init.state.space_of(cx, init.value);
                        let s1 = init.state.with_pat_space(pat, space);
                        let inst = MirInst::Let { stmt, pat, ty, value: Some(init.value) };
                        match init.next {
                            Some(next) => {
                                flow::lemma_next_known(s, block, init.state, next);
                                flow::lemma_space(init.state, next, pat, space);
                                flow::lemma_inst(s1, next, inst);
                                let t = s1.with_inst(next, inst);
                                flow::lemma_trans(
                                    s,
                                    block,
                                    init.state,
                                    next,
                                    Some(init.value),
                                    s1,
                                    Some(next),
                                    None,
                                );
                                flow::lemma_trans(s, block, s1, next, None, t, Some(next), None);
                            },
                            None => {
                                sound::lemma_same(init.state, s1);
                                lemma_then_values(s, block, init.state, None, s1, init.value);
                            },
                        }
                    }
                }
            },
            Stmt::For(pat, iter, body) => lemma_lower_for(cx, s, block, stmt, pat, iter, body),
            Stmt::While(cond, body) => lemma_lower_while(cx, s, block, cond, body),
            Stmt::Continue => {
                if s.loop_stack.len() > 0 {
                    sound::lemma_open_loops(s);
                    let target = s.loop_stack.last().continue_target;
                    flow::lemma_end(s, block, Terminator::Goto { target });
                }
            },
            Stmt::Break => {
                if s.loop_stack.len() > 0 {
                    sound::lemma_open_loops(s);
                    let target = s.loop_stack.last().break_target;
                    flow::lemma_end(s, block, Terminator::Goto { target });
                }
            },
            Stmt::Return(None) => flow::lemma_end(s, block, Terminator::Return(None)),
            Stmt::Return(Some(value)) => {
                if let Some(l) = rules::lower_expr(cx, s, block, value) {
                    if frame::fits(l.state) {
                        lemma_lower_expr(cx, s, block, value);
                        if let Some(next) = l.next {
                            let end = Terminator::Return(Some(l.value));
                            flow::lemma_next_known(s, block, l.state, next);
                            flow::lemma_end(l.state, next, end);
                            let t = l.state.with_terminator(next, end);
                            flow::lemma_trans(
                                s,
                                block,
                                l.state,
                                next,
                                Some(l.value),
                                t,
                                None,
                                None,
                            );
                        }
                    }
                }
            },
            Stmt::Expr(expr) => lemma_lower_expr_stmt(cx, s, block, stmt, expr),
        },
    }
}

/// The blocks of a `while` loop that is lowered in `s`, at the end of `block`.
pub open spec fn while_plan(
    s: State,
    block: BasicBlockId,
    tested: LoweredExpr,
    round: LoweredExpr,
) -> LoopPlan {
    let s1 = s.with_block();
    let s2 = s1.with_block();
    LoopPlan {
        block,
        cond_entry: s.next_block(),
        header: tested.next->0,
        body_entry: s1.next_block(),
        body_block: s1.next_block(),
        body_end: round.next,
        exit_block: s2.next_block(),
        test: tested.value,
    }
}

/// A `while` loop is opened: its three blocks are made, and control goes to the test.
pub open spec fn while_opened(s: State, block: BasicBlockId) -> State {
    s.with_block().with_block().with_block().with_terminator(
        block,
        Terminator::Goto { target: s.next_block() },
    )
}

/// The condition of a `while` loop, lowered.
pub open spec fn while_tested(
    cx: CheckedBody,
    s: State,
    block: BasicBlockId,
    cond: ExprId,
) -> Option<LoweredExpr> {
    rules::lower_expr(cx, while_opened(s, block), s.next_block(), cond)
}

/// The body of a `while` loop, lowered.
pub open spec fn while_round(
    cx: CheckedBody,
    s: State,
    tested: LoweredExpr,
    body: ExprId,
) -> Option<LoweredExpr> {
    let s1 = s.with_block();
    let s2 = s1.with_block();
    let scope = LoopScope { continue_target: s.next_block(), break_target: s2.next_block() };
    rules::lower_expr(cx, tested.state.enter_loop(scope), s1.next_block(), body)
}

/// Lowering a `while` loop is a step to a sound state. The loop leads to its test, the test on
/// the value of the condition to the body or the exit, and the end of the body back to the test.
pub proof fn lemma_lower_while(
    cx: CheckedBody,
    s: State,
    block: BasicBlockId,
    cond: ExprId,
    body: ExprId,
)
    requires
        cx.wf(),
        cx.has_expr(cond),
        cx.has_expr(body),
        block.0 < s.blocks.len(),
        sound::sound(s),
    ensures
        rules::lower_while(cx, s, block, cond, body) matches Some(l) ==> frame::fits(l.state) ==> {
            let tested = while_tested(cx, s, block, cond)->0;
            let plan = while_plan(s, block, tested, while_round(cx, s, tested, body)->0);
            &&& flow::flows(s, block, l.state, l.next, l.value)
            &&& l.next is Some <==> tested.next is Some
            &&& l.next is Some ==> l.next == Some(plan.exit_block) && loops::is_loop(l.state, plan)
        },
    decreases rules::pair_top(cond, body), 1nat, 0nat,
{
    if let Some(l) = rules::lower_while(cx, s, block, cond, body) {
        if frame::fits(l.state) {
            growth::lemma_lower_while(cx, s, block, cond, body);
            let cond_entry = s.next_block();
            let s1 = s.with_block();
            let body_block = s1.next_block();
            let s2 = s1.with_block();
            let exit_block = s2.next_block();
            let s2b = s2.with_block();
            let s3 = s2b.with_terminator(block, Terminator::Goto { target: cond_entry });
            let tested = rules::lower_expr(cx, s3, cond_entry, cond)->0;
            growth::lemma_lower_expr(cx, s3, cond_entry, cond);
            let scope = LoopScope { continue_target: cond_entry, break_target: exit_block };
            let entered = tested.state.enter_loop(scope);
            if tested.next is Some {
                growth::lemma_lower_expr(cx, entered, body_block, body);
            }
            assert(frame::fits(tested.state) && frame::fits(s3));
            sound::lemma_with_block(s);
            sound::lemma_with_block(s1);
            sound::lemma_with_block(s2);
            sound::lemma_with_terminator(s2b, block, Terminator::Goto { target: cond_entry });
            lemma_lower_expr(cx, s3, cond_entry, cond);
            if let Some(header) = tested.next {
                let round = rules::lower_expr(cx, entered, body_block, body)->0;
                flow::lemma_next_known(s3, cond_entry, tested.state, header);
                sound::lemma_enter_loop(tested.state, scope);
                assert(frame::fits(round.state));
                lemma_lower_expr(cx, entered, body_block, body);
                let plan = while_plan(s, block, tested, round);
                let p = Passage {
                    before: s,
                    opened: s3,
                    tested: tested.state,
                    prepared: tested.state,
                    round: round.state,
                    stepped: round.state,
                };
                assert(loops::opens(s, plan, s3)) by {
                    let insts = s.blocks[block.0 as int].insts;
                    assert(insts =~= insts.subrange(0, insts.len() as int));
                }
                if let Some(end) = round.next {
                    flow::lemma_next_known(entered, body_block, round.state, end);
                    flow::lemma_rest(round.state, end);
                }
                loops::lemma_loop(p, plan);
                loops::lemma_is_loop(p, plan);
                lemma_closed_loop(plan, round.state);
                assert(loops::closed_loop(plan, round.state) == l.state);
            } else {
                lemma_stuck_test(s, block, s3, cond_entry, tested.state);
            }
        }
    }
}

/// A loop whose test does not end is a step that does not go on.
proof fn lemma_stuck_test(
    s: State,
    block: BasicBlockId,
    opened: State,
    cond_entry: BasicBlockId,
    t: State,
)
    requires
        block.0 < s.blocks.len(),
        s.blocks.len() <= cond_entry.0 < opened.blocks.len(),
        forall|i: int|
            0 <= i < s.blocks.len() && i != block.0 ==> #[trigger] opened.blocks[i]
                == s.blocks[i],
        forall|i: int|
            s.blocks.len() <= i < opened.blocks.len() ==> (
            #[trigger] opened.blocks[i]).terminator is None,
        s.blocks[block.0 as int].insts.is_prefix_of(opened.blocks[block.0 as int].insts),
        opened.blocks[block.0 as int].terminator == Some(
            Terminator::<Seq<SwitchTarget>>::Goto { target: cond_entry },
        ),
        frame::keeps_values(s, opened),
        opened.loop_headers == s.loop_headers,
        growth::grows(s, opened),
        flow::flows(opened, cond_entry, t, None, None),
    ensures
        flow::flows(s, block, t, None, None),
{
    reveal(frame::step);
    frame::lemma_keeps_values_trans(s, opened, t);
    assert forall|i: int| 0 <= i < s.blocks.len() && i != block.0 implies #[trigger] t.blocks[i]
        == s.blocks[i] by {
        assert(opened.blocks[i] == s.blocks[i]);
    }
    assert(t.blocks[block.0 as int] == opened.blocks[block.0 as int]);
    assert(frame::wired(s, block, t, None)) by {
        assert forall|i: int, target: BasicBlockId|
            frame::ended(s, block, t, None, i) && t.blocks[i].terminator is Some
                && #[trigger] frame::leads_to(
                t.blocks[i].terminator->0,
                target,
            ) implies frame::cared_for(t, None, target) by {
            if i != block.0 {
                if i < opened.blocks.len() && i != cond_entry.0 {
                    assert(t.blocks[i] == opened.blocks[i]);
                }
                assert(frame::ended(opened, cond_entry, t, None, i));
            }
        }
    }
    assert forall|h: usize|
        h < s.blocks.len() && #[trigger] s.loop_headers.contains_key(
            h,
        ) implies t.loop_headers.contains_key(h) && t.loop_headers[h] == s.loop_headers[h] by {
        assert(opened.loop_headers.contains_key(h));
    }
}

/// Closing a loop keeps a state sound.
pub(crate) proof fn lemma_closed_loop(plan: LoopPlan, stepped: State)
    requires
        sound::sound(stepped),
        stepped.loop_stack.len() > 0,
        plan.cond_entry.0 < stepped.blocks.len(),
        plan.body_entry.0 < stepped.blocks.len(),
        plan.exit_block.0 < stepped.blocks.len(),
        plan.body_end matches Some(end) ==> end.0 < stepped.blocks.len(),
        plan.test.0 < stepped.values.len(),
    ensures
        sound::sound(loops::closed_loop(plan, stepped)),
{
    let goto = Terminator::Goto { target: plan.cond_entry };
    let s1 = match plan.body_end {
        Some(end) => stepped.with_terminator(end, goto),
        None => stepped,
    };
    if let Some(end) = plan.body_end {
        sound::lemma_with_terminator(stepped, end, goto);
    }
    sound::lemma_leave_loop(s1);
    let branch = Terminator::Branch {
        cond: plan.test,
        then_bb: plan.body_entry,
        else_bb: plan.exit_block,
    };
    let s2 = s1.leave_loop();
    sound::lemma_with_terminator(s2, plan.header, branch);
    let info = LoopInfo { body: plan.body_entry, exit: plan.exit_block, backedge: plan.body_end };
    sound::lemma_with_loop(s2.with_terminator(plan.header, branch), plan.cond_entry, info);
}

/// The loop variable is declared and the blocks of the loop are made.
pub(crate) proof fn lemma_open_loop(
    cx: CheckedBody,
    s: State,
    block: BasicBlockId,
    start: ValueId,
    stmt: StmtId,
    pat: PatId,
    over_array: bool,
    plan: LoopPlan,
)
    requires
        block.0 < s.blocks.len(),
        sound::sound(s),
        start.0 < s.values.len(),
        frame::fits(rules::open_loop(cx, s, block, start, stmt, pat, over_array).0),
        ({
            let (_, blocks) = rules::open_loop(cx, s, block, start, stmt, pat, over_array);
            &&& plan.block == block
            &&& plan.cond_entry == blocks.cond_entry
            &&& plan.body_block == blocks.body_block
            &&& plan.body_entry == blocks.body_entry
            &&& plan.exit_block == blocks.exit_block
        }),
    ensures
        ({
            let (t, blocks) = rules::open_loop(cx, s, block, start, stmt, pat, over_array);
            &&& loops::opens(s, plan, t)
            &&& sound::sound(t)
            &&& growth::grows(s, t)
            &&& over_array <==> blocks.body_entry != blocks.body_block
        }),
{
    reveal(rules::open_loop);
    let (t, blocks) = rules::open_loop(cx, s, block, start, stmt, pat, over_array);
    let inst = MirInst::Let { stmt, pat, ty: None, value: Some(start) };
    let sp = s.with_pat_space(pat, s.space_of(cx, start));
    let s0 = sp.with_inst(block, inst);
    let s1 = s0.with_block();
    let s2 = s1.with_block();
    let s3 = if over_array {
        s2.with_block()
    } else {
        s2
    };
    let s4 = s3.with_block();
    sound::lemma_same(s, sp);
    sound::lemma_with_inst(sp, block, inst);
    sound::lemma_with_block(s0);
    sound::lemma_with_block(s1);
    if over_array {
        sound::lemma_with_block(s2);
    }
    sound::lemma_with_block(s3);
    sound::lemma_with_terminator(s4, block, Terminator::Goto { target: blocks.cond_entry });
    let insts = s.blocks[block.0 as int].insts;
    assert(insts =~= insts.push(inst).subrange(0, insts.len() as int));
    assert(t.blocks[block.0 as int].insts == insts.push(inst));
}

/// The loop variable is compared with the end, and the element of an array is bound.
pub(crate) proof fn lemma_test_variable(
    cx: CheckedBody,
    s: State,
    blocks: LoopBlocks,
    pat: PatId,
    iter: ExprId,
    end: ValueId,
    over_array: bool,
    plan: LoopPlan,
)
    requires
        cx.wf(),
        cx.has_expr(iter),
        sound::sound(s),
        end.0 < s.values.len(),
        blocks.body_entry.0 < s.blocks.len(),
        blocks.body_block.0 < s.blocks.len(),
        over_array <==> blocks.body_entry != blocks.body_block,
        plan.body_block == blocks.body_block,
        plan.body_entry == blocks.body_entry,
        frame::fits(
            rules::test_variable(cx, s, blocks, pat, iter, end, over_array).0,
        ),
    ensures
        ({
            let (t, test) = rules::test_variable(
                cx,
                s,
                blocks,
                pat,
                iter,
                end,
                over_array,
            );
            &&& loops::prepares(plan, s, t)
            &&& sound::sound(t)
            &&& growth::grows(s, t)
            &&& test.0 < t.values.len()
        }),
{
    reveal(rules::test_variable);
    growth::lemma_first_use_known(cx, pat);
    let (t, test) = rules::test_variable(cx, s, blocks, pat, iter, end, over_array);
    let (s1, variable) = rules::loop_variable(cx, s, pat);
    if let Some(expr) = cx.typed_body.first_use(pat) {
        growth::lemma_ensure_value(cx, s, expr);
    }
    if over_array {
        let (a, element) = rules::array_element(cx, s1, pat, iter, variable);
        let bound = rules::bind_element(
            cx,
            a,
            pat,
            iter,
            element,
            blocks.body_entry,
            blocks.body_block,
        );
        lemma_element_grows(cx, s1, pat, iter, variable);
        assert(bound.values == a.values && t.values.len() == bound.values.len() + 1);
        lemma_loop_variable(cx, s, pat);
        lemma_array_element(cx, s1, pat, iter, variable);
        frame::lemma_keeps_values_trans(s, s1, a);
        let inst = match cx.typed_body.first_use(pat) {
            Some(expr) => MirInst::EvalExpr { expr, value: element, bind_value: true },
            None => MirInst::EvalExpr { expr: iter, value: element, bind_value: true },
        };
        let b1 = a.with_inst(blocks.body_entry, inst);
        sound::lemma_with_inst(a, blocks.body_entry, inst);
        let b2 = match cx.typed_body.first_use(pat) {
            Some(expr) => b1.with_expr_value(expr, element),
            None => b1,
        };
        if let Some(expr) = cx.typed_body.first_use(pat) {
            sound::lemma_with_expr_value(b1, expr, element);
        }
        sound::lemma_with_terminator(
            b2,
            blocks.body_entry,
            Terminator::Goto { target: blocks.body_block },
        );
        sound::lemma_with_value(bound, t.values.last());
        frame::lemma_keeps_values_trans(s, a, t);
    } else {
        lemma_loop_variable(cx, s, pat);
        sound::lemma_with_value(s1, t.values.last());
        frame::lemma_keeps_values_trans(s, s1, t);
    }
}

/// Naming what the loop variable holds adds values.
pub(crate) proof fn lemma_loop_variable(cx: CheckedBody, s: State, pat: PatId)
    requires
        cx.wf(),
        sound::sound(s),
        frame::fits(rules::loop_variable(cx, s, pat).0),
    ensures
        ({
            let (t, variable) = rules::loop_variable(cx, s, pat);
            flow::adds(s, t, Some(variable))
        }),
{
    growth::lemma_first_use_known(cx, pat);
    match cx.typed_body.first_use(pat) {
        Some(expr) => flow::lemma_ensure_value(cx, s, expr),
        None => {
            let (t, _) = rules::loop_variable(cx, s, pat);
            sound::lemma_with_value(s, t.values.last());
        },
    }
}

/// Naming the element of an array only adds values.
pub(crate) proof fn lemma_element_grows(
    cx: CheckedBody,
    s: State,
    pat: PatId,
    iter: ExprId,
    index: ValueId,
)
    requires
        cx.wf(),
        cx.has_expr(iter),
    ensures
        growth::adds_values(s, rules::array_element(cx, s, pat, iter, index).0),
        growth::adds_values(
            rules::ensure_value(cx, s, iter).0,
            rules::array_element(cx, s, pat, iter, index).0,
        ),
{
    growth::lemma_ensure_value(cx, s, iter);
    let (s1, _) = rules::ensure_value(cx, s, iter);
    assert(cx.body.exprs@.len() == cx.body.exprs.len());
    growth::lemma_first_indexing_known(cx, iter, pat, 0);
    if let Some(expr) = rules::first_indexing(cx, iter, pat, 0) {
        growth::lemma_ensure_value(cx, s1, expr);
    }
}

/// Naming the element of an array adds values.
pub(crate) proof fn lemma_array_element(
    cx: CheckedBody,
    s: State,
    pat: PatId,
    iter: ExprId,
    index: ValueId,
)
    requires
        cx.wf(),
        cx.has_expr(iter),
        sound::sound(s),
        index.0 < s.values.len(),
        frame::fits(rules::array_element(cx, s, pat, iter, index).0),
    ensures
        ({
            let (t, element) = rules::array_element(cx, s, pat, iter, index);
            flow::adds(s, t, Some(element))
        }),
{
    lemma_element_grows(cx, s, pat, iter, index);
    let (s1, array) = rules::ensure_value(cx, s, iter);
    let (t, element) = rules::array_element(cx, s, pat, iter, index);
    flow::lemma_ensure_value(cx, s, iter);
    assert(cx.body.exprs@.len() == cx.body.exprs.len());
    growth::lemma_first_indexing_known(cx, iter, pat, 0);
    match rules::first_indexing(cx, iter, pat, 0) {
        Some(expr) => {
            flow::lemma_ensure_value(cx, s1, expr);
            frame::lemma_keeps_values_trans(s, s1, t);
        },
        None => {
            let s2 = s1.with_value(t.values.last());
            sound::lemma_with_value(s1, t.values.last());
            sound::lemma_with_element(s2, element, array, index);
            frame::lemma_keeps_values_trans(s, s1, t);
        },
    }
}

/// The loop variable is stepped.
pub(crate) proof fn lemma_step_variable(
    cx: CheckedBody,
    s: State,
    block: BasicBlockId,
    stmt: StmtId,
    pat: PatId,
)
    requires
        block.0 < s.blocks.len(),
        sound::sound(s),
        frame::fits(rules::step_variable(cx, s, block, stmt, pat)),
    ensures
        flow::flows(
            s,
            block,
            rules::step_variable(cx, s, block, stmt, pat),
            Some(block),
            None,
        ),
        rules::step_variable(cx, s, block, stmt, pat).blocks.len() == s.blocks.len(),
{
    reveal(rules::step_variable);
    let t = rules::step_variable(cx, s, block, stmt, pat);
    let s1 = s.with_word(cx, Word::of(1));
    flow::lemma_word(cx, s, block, Word::of(1));
    let inst = t.blocks[block.0 as int].insts.last();
    flow::lemma_inst(s1, block, inst);
    assert(t == s1.with_inst(block, inst));
    flow::lemma_trans(s, block, s1, block, None, t, Some(block), None);
}

/// The blocks of a `for` loop whose test ends in `header`.
pub open spec fn for_plan(
    block: BasicBlockId,
    blocks: LoopBlocks,
    header: BasicBlockId,
    round: LoweredExpr,
    test: ValueId,
) -> LoopPlan {
    LoopPlan {
        block,
        cond_entry: blocks.cond_entry,
        header,
        body_entry: blocks.body_entry,
        body_block: blocks.body_block,
        body_end: round.next,
        exit_block: blocks.exit_block,
        test,
    }
}

/// The end of a round of a `for` loop.
pub open spec fn for_stepped(
    cx: CheckedBody,
    round: LoweredExpr,
    stmt: StmtId,
    pat: PatId,
) -> State {
    match round.next {
        Some(end) => rules::step_variable(cx, round.state, end, stmt, pat),
        None => round.state,
    }
}

/// The rounds of a `for` loop, whose test ends in `header`, are a step from before the loop to
/// its exit.
pub(crate) proof fn lemma_rounds(
    cx: CheckedBody,
    from: LoopStart,
    stmt: StmtId,
    pat: PatId,
    iter: ExprId,
    body: ExprId,
    over_array: bool,
    mid: State,
    header: BasicBlockId,
    end: ValueId,
)
    requires
        cx.wf(),
        cx.has_expr(iter),
        cx.has_expr(body),
        from.block.0 < from.state.blocks.len(),
        sound::sound(from.state),
        from.start.0 < from.state.values.len(),
        ({
            let (s1, blocks) = rules::open_loop(
                cx,
                from.state,
                from.block,
                from.start,
                stmt,
                pat,
                over_array,
            );
            &&& frame::fits(s1)
            &&& flow::flows(s1, blocks.cond_entry, mid, Some(header), Some(end))
        }),
    ensures
        ({
            let (s1, blocks) = rules::open_loop(
                cx,
                from.state,
                from.block,
                from.start,
                stmt,
                pat,
                over_array,
            );
            let (s2, test) = rules::test_variable(
                cx,
                mid,
                blocks,
                pat,
                iter,
                end,
                over_array,
            );
            rules::lower_expr(cx, rules::in_loop(s2, blocks), blocks.body_block, body) matches Some(
                round,
            ) ==> {
                let l = rules::close_loop(
                    cx,
                    round,
                    blocks,
                    header,
                    test,
                    stmt,
                    pat,
                );
                let plan = for_plan(from.block, blocks, header, round, test);
                let stepped = for_stepped(cx, round, stmt, pat);
                frame::fits(l.state) ==> {
                    &&& flow::flows(from.state, from.block, l.state, l.next, l.value)
                    &&& loops::is_loop(l.state, plan)
                    &&& l.state.blocks[from.block.0 as int] == s1.blocks[from.block.0 as int]
                    &&& round.next matches Some(end) ==> l.state.blocks[end.0 as int].insts
                        == stepped.blocks[end.0 as int].insts
                    &&& over_array ==> l.state.blocks[blocks.body_entry.0 as int]
                        == s2.blocks[blocks.body_entry.0 as int]
                    &&& frame::keeps_values(s2, l.state)
                    &&& frame::keeps_values(stepped, l.state)
                    &&& sound::sound(round.state)
                    &&& round.next matches Some(end) ==> end.0 < round.state.blocks.len()
                    &&& test.0 < s2.values.len()
                    &&& frame::fits(s2)
                }
            }
        }),
    decreases rules::pair_top(iter, body), 0nat, 0nat,
{
    let (s1, blocks) = rules::open_loop(
        cx,
        from.state,
        from.block,
        from.start,
        stmt,
        pat,
        over_array,
    );
    let (s2, test) = rules::test_variable(
        cx,
        mid,
        blocks,
        pat,
        iter,
        end,
        over_array,
    );
    let entered = rules::in_loop(s2, blocks);
    if let Some(round) = rules::lower_expr(cx, entered, blocks.body_block, body) {
        let l = rules::close_loop(cx, round, blocks, header, test, stmt, pat);
        if frame::fits(l.state) {
            let plan = for_plan(from.block, blocks, header, round, test);
            let stepped = for_stepped(cx, round, stmt, pat);
            assert(frame::fits(stepped) && frame::fits(round.state)
                && round.state.blocks.len() == stepped.blocks.len()
                && round.state.values.len() <= stepped.values.len()
                && round.state.loop_stack == stepped.loop_stack) by {
                reveal(rules::step_variable);
            }
            growth::lemma_lower_expr(cx, entered, blocks.body_block, body);
            growth::lemma_test_variable(
                cx,
                mid,
                blocks,
                pat,
                iter,
                end,
                over_array,
            );
            lemma_open_loop(
                cx,
                from.state,
                from.block,
                from.start,
                stmt,
                pat,
                over_array,
                plan,
            );
            lemma_test_variable(
                cx,
                mid,
                blocks,
                pat,
                iter,
                end,
                over_array,
                plan,
            );
            let scope = LoopScope {
                continue_target: blocks.cond_entry,
                break_target: blocks.exit_block,
            };
            sound::lemma_enter_loop(s2, scope);
            lemma_lower_expr(cx, entered, blocks.body_block, body);
            if let Some(end) = round.next {
                flow::lemma_next_known(entered, blocks.body_block, round.state, end);
                lemma_step_variable(cx, round.state, end, stmt, pat);
            }
            let p = Passage {
                before: from.state,
                opened: s1,
                tested: mid,
                prepared: s2,
                round: round.state,
                stepped,
            };
            loops::lemma_loop(p, plan);
            loops::lemma_is_loop(p, plan);
            lemma_closed_loop(plan, stepped);
            assert(loops::closed_loop(plan, stepped) == l.state);
            assert(s2.loop_stack.push(scope).drop_last() == s2.loop_stack);
        }
    }
}

/// Running a `for` loop is a step to a sound state.
pub proof fn lemma_run_loop(
    cx: CheckedBody,
    from: LoopStart,
    stmt: StmtId,
    pat: PatId,
    iter: ExprId,
    end_expr: Option<ExprId>,
    body: ExprId,
    over_array: bool,
)
    requires
        cx.wf(),
        cx.has_expr(iter),
        cx.has_expr(body),
        rules::end_before(end_expr, iter),
        from.block.0 < from.state.blocks.len(),
        sound::sound(from.state),
        from.start.0 < from.state.values.len(),
        end_expr is None ==> from.end is Some && (from.end->0).0 < from.state.values.len(),
    ensures
        rules::run_loop(cx, from, stmt, pat, iter, end_expr, body, over_array) matches Some(l)
            ==> frame::fits(l.state) ==> flow::flows(
            from.state,
            from.block,
            l.state,
            l.next,
            l.value,
        ),
    decreases rules::pair_top(iter, body), 0nat, 1nat,
{
    let (s1, blocks) = rules::open_loop(
        cx,
        from.state,
        from.block,
        from.start,
        stmt,
        pat,
        over_array,
    );
    if let Some(l) = rules::run_loop(cx, from, stmt, pat, iter, end_expr, body, over_array) {
        if frame::fits(l.state) {
            let plan = LoopPlan {
                block: from.block,
                cond_entry: blocks.cond_entry,
                header: blocks.cond_entry,
                body_entry: blocks.body_entry,
                body_block: blocks.body_block,
                body_end: None,
                exit_block: blocks.exit_block,
                test: from.start,
            };
            match end_expr {
                Some(end) => {
                    let bound = rules::lower_expr(cx, s1, blocks.cond_entry, end)->0;
                    growth::lemma_lower_expr(cx, s1, blocks.cond_entry, end);
                    if let Some(header) = bound.next {
                        lemma_round_fits(
                            cx,
                            bound.state,
                            blocks,
                            header,
                            stmt,
                            pat,
                            iter,
                            body,
                            bound.value,
                            over_array,
                        );
                    }
                    lemma_open_loop(
                        cx,
                        from.state,
                        from.block,
                        from.start,
                        stmt,
                        pat,
                        over_array,
                        plan,
                    );
                    lemma_lower_expr(cx, s1, blocks.cond_entry, end);
                    match bound.next {
                        Some(header) => lemma_rounds(
                            cx,
                            from,
                            stmt,
                            pat,
                            iter,
                            body,
                            over_array,
                            bound.state,
                            header,
                            bound.value,
                        ),
                        None => lemma_stuck_test(
                            from.state,
                            from.block,
                            s1,
                            blocks.cond_entry,
                            bound.state,
                        ),
                    }
                },
                None => {
                    lemma_round_fits(
                        cx,
                        s1,
                        blocks,
                        blocks.cond_entry,
                        stmt,
                        pat,
                        iter,
                        body,
                        from.end->0,
                        over_array,
                    );
                    lemma_open_loop(
                        cx,
                        from.state,
                        from.block,
                        from.start,
                        stmt,
                        pat,
                        over_array,
                        plan,
                    );
                    flow::lemma_rest(s1, blocks.cond_entry);
                    lemma_rounds(
                        cx,
                        from,
                        stmt,
                        pat,
                        iter,
                        body,
                        over_array,
                        s1,
                        blocks.cond_entry,
                        from.end->0,
                    );
                },
            }
        }
    }
}

/// The test of a `for` loop, once the end is known: the state, the block, and the end.
pub open spec fn for_test(
    cx: CheckedBody,
    from: LoopStart,
    stmt: StmtId,
    pat: PatId,
    end_expr: Option<ExprId>,
    over_array: bool,
) -> (State, BasicBlockId, ValueId) {
    let (s1, blocks) = rules::open_loop(
        cx,
        from.state,
        from.block,
        from.start,
        stmt,
        pat,
        over_array,
    );
    match end_expr {
        Some(end) => {
            let bound = rules::lower_expr(cx, s1, blocks.cond_entry, end)->0;
            (bound.state, bound.next->0, bound.value)
        },
        None => (s1, blocks.cond_entry, from.end->0),
    }
}

/// Whether `inst` adds one to the variable of `pat`.
pub open spec fn is_increment(
    cx: CheckedBody,
    t: State,
    inst: InstModel,
    stmt: StmtId,
    pat: PatId,
) -> bool {
    match inst {
        MirInst::AugAssign { stmt: by, target, value, op } => by == stmt && op == ArithBinOp::Add
            && cx.typed_body.first_use(pat) == Some(target) && is_word(t, value, 1),
        MirInst::AugAssignVariable { stmt: by, pat: variable, value, op } => by == stmt && op
            == ArithBinOp::Add && variable == pat && is_word(t, value, 1),
        _ => false,
    }
}

/// Whether a value is the constant `n`.
pub open spec fn is_word(t: State, value: ValueId, n: u64) -> bool {
    value.0 < t.values.len() && t.values[value.0 as int].origin == ValueOrigin::<
        Seq<ValueId>,
    >::Synthetic(SyntheticValue::Int(Word::of(n)))
}

/// A `for` loop over `start..end` is lowered like a `while` loop with a counter: before the loop
/// the variable is declared as `start`, the test is whether the variable is less than `end`, and
/// a round ends by adding one to the variable. A loop over an array counts in the same way.
pub proof fn lemma_counted_loop(
    cx: CheckedBody,
    from: LoopStart,
    stmt: StmtId,
    pat: PatId,
    iter: ExprId,
    end_expr: Option<ExprId>,
    body: ExprId,
    over_array: bool,
)
    requires
        cx.wf(),
        cx.has_expr(iter),
        cx.has_expr(body),
        rules::end_before(end_expr, iter),
        from.block.0 < from.state.blocks.len(),
        sound::sound(from.state),
        from.start.0 < from.state.values.len(),
        end_expr is None ==> from.end is Some && (from.end->0).0 < from.state.values.len(),
    ensures
        rules::run_loop(cx, from, stmt, pat, iter, end_expr, body, over_array) matches Some(l)
            ==> frame::fits(l.state) && l.next is Some ==> {
            let (s1, blocks) = rules::open_loop(
                cx,
                from.state,
                from.block,
                from.start,
                stmt,
                pat,
                over_array,
            );
            let (mid, header, end) = for_test(cx, from, stmt, pat, end_expr, over_array);
            let (s2, test) = rules::test_variable(
                cx,
                mid,
                blocks,
                pat,
                iter,
                end,
                over_array,
            );
            let round = rules::lower_expr(
                cx,
                rules::in_loop(s2, blocks),
                blocks.body_block,
                body,
            )->0;
            let plan = for_plan(from.block, blocks, header, round, test);
            let declared = MirInst::<Seq<ValueId>>::Let {
                stmt,
                pat,
                ty: None,
                value: Some(from.start),
            };
            let less = SyntheticValue::Comparison {
                left: rules::loop_variable(cx, mid, pat).1,
                right: end,
                op: CompBinOp::Lt,
            };
            &&& l.next == Some(plan.exit_block)
            &&& loops::is_loop(l.state, plan)
            &&& l.state.blocks[from.block.0 as int].insts
                == from.state.blocks[from.block.0 as int].insts.push(declared)
            &&& test.0 < l.state.values.len()
            &&& l.state.values[test.0 as int].origin == ValueOrigin::<
                Seq<ValueId>,
            >::Synthetic(less)
            &&& round.next matches Some(e) ==> l.state.blocks[e.0 as int].insts
                == round.state.blocks[e.0 as int].insts.push(
                l.state.blocks[e.0 as int].insts.last(),
            ) && is_increment(cx, l.state, l.state.blocks[e.0 as int].insts.last(), stmt, pat)
        },
{
    if let Some(l) = rules::run_loop(cx, from, stmt, pat, iter, end_expr, body, over_array) {
        if frame::fits(l.state) && l.next is Some {
            let (s1, blocks) = rules::open_loop(
                cx,
                from.state,
                from.block,
                from.start,
                stmt,
                pat,
                over_array,
            );
            let (mid, header, end) = for_test(cx, from, stmt, pat, end_expr, over_array);
            let (s2, test) = rules::test_variable(
                cx,
                mid,
                blocks,
                pat,
                iter,
                end,
                over_array,
            );
            let round = rules::lower_expr(
                cx,
                rules::in_loop(s2, blocks),
                blocks.body_block,
                body,
            )->0;
            let plan = for_plan(from.block, blocks, header, round, test);
            if let Some(end_expr) = end_expr {
                growth::lemma_lower_expr(cx, s1, blocks.cond_entry, end_expr);
            }
            lemma_round_fits(
                cx,
                mid,
                blocks,
                header,
                stmt,
                pat,
                iter,
                body,
                end,
                over_array,
            );
            lemma_open_loop(
                cx,
                from.state,
                from.block,
                from.start,
                stmt,
                pat,
                over_array,
                plan,
            );
            match end_expr {
                Some(e) => lemma_lower_expr(cx, s1, blocks.cond_entry, e),
                None => flow::lemma_rest(s1, blocks.cond_entry),
            }
            lemma_rounds(cx, from, stmt, pat, iter, body, over_array, mid, header, end);
            assert(s1.blocks[from.block.0 as int].insts
                == from.state.blocks[from.block.0 as int].insts.push(
                MirInst::Let { stmt, pat, ty: None, value: Some(from.start) },
            )) by {
                reveal(rules::open_loop);
            }
            assert(test.0 < s2.values.len() && s2.values[test.0 as int].origin
                == ValueOrigin::<Seq<ValueId>>::Synthetic(
                SyntheticValue::Comparison {
                    left: rules::loop_variable(cx, mid, pat).1,
                    right: end,
                    op: CompBinOp::Lt,
                },
            )) by {
                reveal(rules::test_variable);
            }
            assert(l.state.values[test.0 as int] == s2.values[test.0 as int]);
            if let Some(e) = round.next {
                let stepped = for_stepped(cx, round, stmt, pat);
                reveal(rules::step_variable);
                let one = round.state.next_value();
                assert(stepped.values == round.state.with_word(cx, Word::of(1)).values);
                assert(one.0 == round.state.values.len());
                assert(l.state.values[one.0 as int] == stepped.values[one.0 as int]);
            }
        }
    }
}

/// A loop over an integer literal `n` counts from zero up to `n`.
pub proof fn lemma_literal_loop(
    cx: CheckedBody,
    s: State,
    block: BasicBlockId,
    stmt: StmtId,
    pat: PatId,
    iter: ExprId,
    body: ExprId,
)
    requires
        cx.wf(),
        cx.has_expr(iter),
        cx.has_expr(body),
        rules::int_literal(cx, iter) is Some,
        block.0 < s.blocks.len(),
        sound::sound(s),
    ensures
        rules::lower_for(cx, s, block, stmt, pat, iter, body) matches Some(l) ==> frame::fits(
            l.state,
        ) ==> {
            let from = rules::start_at_zero(cx, s, block, rules::int_literal(cx, iter)->0);
            &&& Some(l) == rules::run_loop(cx, from, stmt, pat, iter, None, body, false)
            &&& is_word(l.state, from.start, 0)
            &&& from.end is Some
            &&& (from.end->0).0 < l.state.values.len()
            &&& l.state.values[(from.end->0).0 as int].origin == ValueOrigin::<
                Seq<ValueId>,
            >::Synthetic(SyntheticValue::Int(rules::int_literal(cx, iter)->0))
        },
{
    let word = rules::int_literal(cx, iter)->0;
    if let Some(l) = rules::lower_for(cx, s, block, stmt, pat, iter, body) {
        if frame::fits(l.state) {
            let from = rules::start_at_zero(cx, s, block, word);
            growth::lemma_run_loop(cx, from, stmt, pat, iter, None, body, false);
            lemma_start_at_zero(cx, s, block, word);
            lemma_run_loop(cx, from, stmt, pat, iter, None, body, false);
            reveal(frame::step);
            assert(l.state.values[from.start.0 as int] == from.state.values[from.start.0 as int]);
            assert(l.state.values[(from.end->0).0 as int]
                == from.state.values[(from.end->0).0 as int]);
        }
    }
}

/// Whether `element` is the element of an array at an index: the value of an expression that
/// indexes into the array with the loop variable, or else a value of the array's element type
/// that is recorded with the array and the index. `s` is the state in which the index is known.
pub open spec fn is_element(
    cx: CheckedBody,
    s: State,
    t: State,
    pat: PatId,
    iter: ExprId,
    index: ValueId,
    element: ValueId,
) -> bool {
    let (s1, array) = rules::ensure_value(cx, s, iter);
    match rules::first_indexing(cx, iter, pat, 0) {
        Some(expr) => {
            &&& cx.has_expr(expr)
            &&& rules::indexes(cx, cx.expr(expr), iter, pat)
            &&& element == rules::ensure_value(cx, s1, expr).1
        },
        None => {
            &&& element.0 < t.values.len()
            &&& t.values[element.0 as int].ty == cx.typed_body.types@[cx.typed_body.ty_of(
                iter,
            ).0 as int].args@[0]
            &&& t.array_index_info.contains_key(element.0)
            &&& t.array_index_info[element.0] == (array, index)
        },
    }
}

/// A loop over an array of `n` elements declares its index as zero, tests whether the index is
/// less than `n`, binds the element at the index when a round is entered, and ends a round by
/// adding one to the index.
pub proof fn lemma_array_loop(
    cx: CheckedBody,
    s: State,
    block: BasicBlockId,
    stmt: StmtId,
    pat: PatId,
    iter: ExprId,
    body: ExprId,
)
    requires
        cx.wf(),
        cx.has_expr(iter),
        cx.has_expr(body),
        rules::iterable(cx, iter) matches Some(Iterable::Array(_)),
        block.0 < s.blocks.len(),
        sound::sound(s),
    ensures
        rules::lower_for(cx, s, block, stmt, pat, iter, body) matches Some(l) ==> frame::fits(
            l.state,
        ) ==> {
            let length = cx.typed_body.length_of(cx.typed_body.ty_of(iter));
            let from = rules::start_at_zero(cx, s, block, length);
            let (s1, blocks) = rules::open_loop(
                cx,
                from.state,
                block,
                from.start,
                stmt,
                pat,
                true,
            );
            let (s2, test) = rules::test_variable(
                cx,
                s1,
                blocks,
                pat,
                iter,
                from.end->0,
                true,
            );
            let round = rules::lower_expr(
                cx,
                rules::in_loop(s2, blocks),
                blocks.body_block,
                body,
            )->0;
            let plan = for_plan(block, blocks, blocks.cond_entry, round, test);
            let declared = MirInst::<Seq<ValueId>>::Let {
                stmt,
                pat,
                ty: None,
                value: Some(from.start),
            };
            let (known, index) = rules::loop_variable(cx, s1, pat);
            let element = rules::array_element(cx, known, pat, iter, index).1;
            let bound = MirInst::<Seq<ValueId>>::EvalExpr {
                expr: match cx.typed_body.first_use(pat) {
                    Some(expr) => expr,
                    None => iter,
                },
                value: element,
                bind_value: true,
            };
            let less = SyntheticValue::Comparison {
                left: index,
                right: from.end->0,
                op: CompBinOp::Lt,
            };
            &&& l.next == Some(plan.exit_block)
            &&& loops::is_loop(l.state, plan)
            &&& l.state.blocks[block.0 as int].insts == s.blocks[block.0 as int].insts.push(
                declared,
            )
            &&& is_word(l.state, from.start, 0)
            &&& l.state.values[(from.end->0).0 as int].origin == ValueOrigin::<
                Seq<ValueId>,
            >::Synthetic(SyntheticValue::Int(length))
            &&& l.state.values[test.0 as int].origin == ValueOrigin::<Seq<ValueId>>::Synthetic(
                less,
            )
            &&& l.state.blocks[blocks.body_entry.0 as int].insts == seq![bound]
            &&& blocks.body_entry != blocks.body_block
            &&& is_element(cx, known, l.state, pat, iter, index, element)
            &&& round.next matches Some(e) ==> l.state.blocks[e.0 as int].insts
                == round.state.blocks[e.0 as int].insts.push(
                l.state.blocks[e.0 as int].insts.last(),
            ) && is_increment(cx, l.state, l.state.blocks[e.0 as int].insts.last(), stmt, pat)
        },
{
    let length = cx.typed_body.length_of(cx.typed_body.ty_of(iter));
    if let Some(l) = rules::lower_for(cx, s, block, stmt, pat, iter, body) {
        if frame::fits(l.state) {
            let from = rules::start_at_zero(cx, s, block, length);
            growth::lemma_run_loop(cx, from, stmt, pat, iter, None, body, true);
            lemma_start_at_zero(cx, s, block, length);
            lemma_run_loop(cx, from, stmt, pat, iter, None, body, true);
            let (s1, blocks) = rules::open_loop(
                cx,
                from.state,
                block,
                from.start,
                stmt,
                pat,
                true,
            );
            let (s2, test) = rules::test_variable(
                cx,
                s1,
                blocks,
                pat,
                iter,
                from.end->0,
                true,
            );
            let round = rules::lower_expr(
                cx,
                rules::in_loop(s2, blocks),
                blocks.body_block,
                body,
            )->0;
            let plan = for_plan(block, blocks, blocks.cond_entry, round, test);
            lemma_counted_loop(cx, from, stmt, pat, iter, None, body, true);
            lemma_round_fits(
                cx,
                s1,
                blocks,
                blocks.cond_entry,
                stmt,
                pat,
                iter,
                body,
                from.end->0,
                true,
            );
            lemma_open_loop(cx, from.state, block, from.start, stmt, pat, true, plan);
            flow::lemma_rest(s1, blocks.cond_entry);
            lemma_rounds(
                cx,
                from,
                stmt,
                pat,
                iter,
                body,
                true,
                s1,
                blocks.cond_entry,
                from.end->0,
            );
            assert(l.state.values[from.start.0 as int] == from.state.values[from.start.0 as int]
                && l.state.values[(from.end->0).0 as int]
                == from.state.values[(from.end->0).0 as int]) by {
                reveal(frame::step);
            }
            lemma_bound_element(cx, s1, blocks, pat, iter, from.end->0, l.state);
            assert(s1.blocks[blocks.body_entry.0 as int].insts.len() == 0) by {
                reveal(rules::open_loop);
            }
        }
    }
}

/// The test of a loop over an array binds the element at the index in the entry of a round.
pub(crate) proof fn lemma_bound_element(
    cx: CheckedBody,
    s: State,
    blocks: LoopBlocks,
    pat: PatId,
    iter: ExprId,
    end: ValueId,
    t: State,
)
    requires
        cx.wf(),
        cx.has_expr(iter),
        blocks.body_entry.0 < s.blocks.len(),
        ({
            let s2 = rules::test_variable(cx, s, blocks, pat, iter, end, true).0;
            frame::fits(s2) && frame::keeps_values(s2, t)
        }),
    ensures
        ({
            let (s2, _) = rules::test_variable(cx, s, blocks, pat, iter, end, true);
            let (known, index) = rules::loop_variable(cx, s, pat);
            let element = rules::array_element(cx, known, pat, iter, index).1;
            let expr = match cx.typed_body.first_use(pat) {
                Some(expr) => expr,
                None => iter,
            };
            &&& s2.blocks[blocks.body_entry.0 as int].insts
                == s.blocks[blocks.body_entry.0 as int].insts.push(
                MirInst::EvalExpr { expr, value: element, bind_value: true },
            )
            &&& is_element(cx, known, t, pat, iter, index, element)
        }),
{
    reveal(rules::test_variable);
    let (s2, _) = rules::test_variable(cx, s, blocks, pat, iter, end, true);
    let (known, index) = rules::loop_variable(cx, s, pat);
    growth::lemma_first_use_known(cx, pat);
    if let Some(expr) = cx.typed_body.first_use(pat) {
        growth::lemma_ensure_value(cx, s, expr);
    }
    let (a, element) = rules::array_element(cx, known, pat, iter, index);
    lemma_element_grows(cx, known, pat, iter, index);
    assert(cx.body.exprs@.len() == cx.body.exprs.len());
    growth::lemma_first_indexing_known(cx, iter, pat, 0);
    if rules::first_indexing(cx, iter, pat, 0) is None {
        assert(a.values[element.0 as int] == s2.values[element.0 as int]);
        assert(s2.array_index_info.contains_key(element.0));
        assert(t.values[element.0 as int] == s2.values[element.0 as int]);
    }
}

/// Where the end of a `for` loop can be numbered, so can its test.
pub(crate) proof fn lemma_round_fits(
    cx: CheckedBody,
    s: State,
    blocks: LoopBlocks,
    header: BasicBlockId,
    stmt: StmtId,
    pat: PatId,
    iter: ExprId,
    body: ExprId,
    end: ValueId,
    over_array: bool,
)
    requires
        cx.wf(),
        cx.has_expr(iter),
        cx.has_expr(body),
    ensures
        ({
            let (s2, test) = rules::test_variable(
                cx,
                s,
                blocks,
                pat,
                iter,
                end,
                over_array,
            );
            rules::lower_expr(cx, rules::in_loop(s2, blocks), blocks.body_block, body) matches Some(
                round,
            ) ==> frame::fits(
                rules::close_loop(
                    cx,
                    round,
                    blocks,
                    header,
                    test,
                    stmt,
                    pat,
                ).state,
            ) ==> frame::fits(s)
        }),
{
    reveal(rules::step_variable);
    growth::lemma_test_variable(cx, s, blocks, pat, iter, end, over_array);
    let (s2, test) = rules::test_variable(cx, s, blocks, pat, iter, end, over_array);
    growth::lemma_lower_expr(cx, rules::in_loop(s2, blocks), blocks.body_block, body);
}

/// Lowering a `for` loop is a step to a sound state.
pub proof fn lemma_lower_for(
    cx: CheckedBody,
    s: State,
    block: BasicBlockId,
    stmt: StmtId,
    pat: PatId,
    iter: ExprId,
    body: ExprId,
)
    requires
        cx.wf(),
        cx.has_expr(iter),
        cx.has_expr(body),
        block.0 < s.blocks.len(),
        sound::sound(s),
    ensures
        rules::lower_for(cx, s, block, stmt, pat, iter, body) matches Some(l) ==> frame::fits(
            l.state,
        ) ==> flow::flows(s, block, l.state, l.next, l.value),
    decreases rules::pair_top(iter, body), 1nat, 0nat,
{
    assert(cx.body.expr_before(cx.body.exprs@[iter.0 as int], iter.0 as nat));
    if let Some(l) = rules::lower_for(cx, s, block, stmt, pat, iter, body) {
        if frame::fits(l.state) {
            match rules::iterable(cx, iter) {
                None => {},
                Some(Iterable::Literal(end)) => {
                    let from = rules::start_at_zero(cx, s, block, end);
                    growth::lemma_run_loop(cx, from, stmt, pat, iter, None, body, false);
                    lemma_start_at_zero(cx, s, block, end);
                    lemma_run_loop(cx, from, stmt, pat, iter, None, body, false);
                    flow::lemma_trans(
                        s,
                        block,
                        from.state,
                        block,
                        None,
                        l.state,
                        l.next,
                        l.value,
                    );
                },
                Some(Iterable::Array(length)) => {
                    let from = rules::start_at_zero(cx, s, block, length);
                    growth::lemma_run_loop(cx, from, stmt, pat, iter, None, body, true);
                    lemma_start_at_zero(cx, s, block, length);
                    lemma_run_loop(cx, from, stmt, pat, iter, None, body, true);
                    flow::lemma_trans(
                        s,
                        block,
                        from.state,
                        block,
                        None,
                        l.state,
                        l.next,
                        l.value,
                    );
                },
                Some(Iterable::Range(start, end)) => {
                    let first = rules::lower_expr(cx, s, block, start)->0;
                    if let Some(next) = first.next {
                        let (from, end_expr) = rules::range_start(cx, first, next, end);
                        growth::lemma_run_loop(cx, from, stmt, pat, iter, end_expr, body, false);
                        lemma_lower_expr(cx, s, block, start);
                        flow::lemma_next_known(s, block, first.state, next);
                        if let Some(word) = rules::int_literal(cx, end) {
                            flow::lemma_word(cx, first.state, next, word);
                            flow::lemma_trans(
                                s,
                                block,
                                first.state,
                                next,
                                Some(first.value),
                                from.state,
                                Some(next),
                                from.end,
                            );
                        }
                        lemma_run_loop(cx, from, stmt, pat, iter, end_expr, body, false);
                        flow::lemma_trans(
                            s,
                            block,
                            from.state,
                            next,
                            Some(first.value),
                            l.state,
                            l.next,
                            l.value,
                        );
                    } else {
                        lemma_lower_expr(cx, s, block, start);
                    }
                },
            }
        }
    }
}

/// Starting a loop at zero is a step.
pub(crate) proof fn lemma_start_at_zero(cx: CheckedBody, s: State, block: BasicBlockId, end: Word)
    requires
        block.0 < s.blocks.len(),
        sound::sound(s),
        frame::fits(rules::start_at_zero(cx, s, block, end).state),
    ensures
        ({
            let from = rules::start_at_zero(cx, s, block, end);
            &&& flow::flows(s, block, from.state, Some(block), None)
            &&& from.block == block
            &&& from.start.0 < from.state.values.len()
            &&& from.end is Some
            &&& (from.end->0).0 < from.state.values.len()
        }),
{
    let s1 = s.with_word(cx, Word::of(0));
    flow::lemma_word(cx, s, block, Word::of(0));
    flow::lemma_word(cx, s1, block, end);
    flow::lemma_trans(s, block, s1, block, None, s1.with_word(cx, end), Some(block), None);
}

/// The states on the way through an `if`, from the end of its condition on.
pub struct Fork {
    /// After the condition.
    pub tested: State,
    pub header: BasicBlockId,
    pub cond: ValueId,
    pub then_block: BasicBlockId,
    pub merge_block: BasicBlockId,
    pub else_block: BasicBlockId,
    pub has_else: bool,
    /// The blocks are made.
    pub opened: State,
    /// The then-branch is lowered, up to `then_end`.
    pub then_state: State,
    pub then_end: Option<BasicBlockId>,
    /// The else-branch is lowered, up to `else_end`.
    pub else_state: State,
    pub else_end: Option<BasicBlockId>,
}

/// The state between the branches.
pub open spec fn between(f: Fork) -> State {
    rules::join(f.then_state, f.then_end, f.merge_block)
}

/// The state after an `if`.
pub open spec fn joined(f: Fork) -> State {
    if f.has_else {
        rules::join(f.else_state, f.else_end, f.merge_block)
    } else {
        between(f)
    }
}

/// Whether the states of a fork follow each other as those of an `if` do.
pub open spec fn forks(f: Fork) -> bool {
    &&& rules::open_if(f.tested, f.header, f.cond, f.has_else) == (
        f.opened,
        f.then_block,
        f.merge_block,
        f.else_block,
    )
    &&& frame::fits(f.opened)
    &&& f.header.0 < f.tested.blocks.len()
    &&& frame::step(f.opened, f.then_block, f.then_state, f.then_end)
    &&& f.has_else ==> frame::step(between(f), f.else_block, f.else_state, f.else_end)
}

/// What an `if` looks like once its branches are joined: it branches on its condition, and every
/// branch that ends leads to the block where the branches meet.
pub open spec fn is_fork(t: State, f: Fork) -> bool {
    let branch = Terminator::<Seq<SwitchTarget>>::Branch {
        cond: f.cond,
        then_bb: f.then_block,
        else_bb: if f.has_else {
            f.else_block
        } else {
            f.merge_block
        },
    };
    let meet = Terminator::<Seq<SwitchTarget>>::Goto { target: f.merge_block };
    &&& t.blocks[f.header.0 as int].terminator == Some(branch)
    &&& f.then_end matches Some(end) ==> t.blocks[end.0 as int].terminator == Some(meet)
    &&& f.has_else && f.else_end is Some ==> t.blocks[(f.else_end->0).0 as int].terminator
        == Some(meet)
    &&& t.blocks[f.merge_block.0 as int].terminator is None
}

/// An `if` is a step from the end of its condition to where its branches meet.
proof fn lemma_fork(f: Fork)
    requires
        forks(f),
    ensures
        frame::step(f.tested, f.header, joined(f), Some(f.merge_block)),
        is_fork(joined(f), f),
{
    reveal(rules::open_if);
    reveal(frame::step);
    let t = joined(f);
    let mid = between(f);
    let n = f.tested.blocks.len();
    let h = f.header.0 as int;
    assert(f.then_block.0 == n && f.merge_block.0 == n + 1);
    assert(f.has_else ==> f.else_block.0 == n + 2);
    assert forall|i: int| 0 <= i < f.opened.blocks.len() && i != f.then_block.0 && !(f.has_else
        && i == f.else_block.0) implies #[trigger] t.blocks[i] == f.opened.blocks[i] by {
        assert(f.then_state.blocks[i] == f.opened.blocks[i]);
        assert(mid.blocks[i] == f.then_state.blocks[i]);
        if f.has_else {
            assert(f.else_state.blocks[i] == mid.blocks[i]);
        }
    }
    if f.then_end is Some && f.has_else {
        let e = (f.then_end->0).0 as int;
        assert(f.else_state.blocks[e] == mid.blocks[e]);
        assert(t.blocks[e] == mid.blocks[e]);
    }
    let insts = f.tested.blocks[h].insts;
    assert(t.blocks[h] == f.opened.blocks[h]);
    assert(insts =~= insts.subrange(0, insts.len() as int));
    assert forall|i: int| 0 <= i < n && i != h implies #[trigger] t.blocks[i]
        == f.tested.blocks[i] by {
        assert(t.blocks[i] == f.opened.blocks[i]);
    }
    frame::lemma_keeps_values_trans(f.tested, f.opened, f.then_state);
    frame::lemma_keeps_values_trans(f.tested, f.then_state, mid);
    if f.has_else {
        frame::lemma_keeps_values_trans(f.tested, mid, f.else_state);
        frame::lemma_keeps_values_trans(f.tested, f.else_state, t);
    }
    assert forall|k: usize|
        k < f.tested.blocks.len() && #[trigger] f.tested.loop_headers.contains_key(
            k,
        ) implies t.loop_headers.contains_key(k) && t.loop_headers[k]
        == f.tested.loop_headers[k] by {
        assert(f.opened.loop_headers.contains_key(k));
        assert(f.then_state.loop_headers.contains_key(k));
        assert(mid.loop_headers.contains_key(k));
        if f.has_else {
            assert(f.else_state.loop_headers.contains_key(k));
        }
    }
    assert(frame::wired(f.tested, f.header, t, Some(f.merge_block))) by {
        assert forall|i: int, target: BasicBlockId|
            frame::ended(f.tested, f.header, t, Some(f.merge_block), i)
                && t.blocks[i].terminator is Some && #[trigger] frame::leads_to(
                t.blocks[i].terminator->0,
                target,
            ) implies frame::cared_for(t, Some(f.merge_block), target) by {
            lemma_fork_leads(f, i, target);
        }
    }
}

/// Both branches of an `if` have a terminator after it, and so have all blocks that had one.
proof fn lemma_fork_closed(f: Fork)
    requires
        forks(f),
    ensures
        forall|i: int|
            0 <= i < f.then_state.blocks.len() && f.then_state.blocks[i].terminator is Some ==> (
            #[trigger] joined(f).blocks[i]).terminator is Some,
        f.has_else ==> forall|i: int|
            0 <= i < f.else_state.blocks.len() && f.else_state.blocks[i].terminator is Some ==> (
            #[trigger] joined(f).blocks[i]).terminator is Some,
        joined(f).blocks[f.then_block.0 as int].terminator is Some,
        f.has_else ==> joined(f).blocks[f.else_block.0 as int].terminator is Some,
        f.then_end matches Some(end) ==> joined(f).blocks[end.0 as int].terminator is Some,
        f.has_else && f.else_end is Some ==> joined(f).blocks[(
        f.else_end->0).0 as int].terminator is Some,
{
    reveal(rules::open_if);
    reveal(frame::step);
    let t = joined(f);
    let mid = between(f);
    assert forall|i: int| 0 <= i < mid.blocks.len() && mid.blocks[i].terminator is Some implies (
    #[trigger] t.blocks[i]).terminator is Some by {
        if f.has_else && i != f.else_block.0 {
            assert(f.else_state.blocks[i] == mid.blocks[i]);
        }
    }
    assert forall|i: int|
        0 <= i < f.then_state.blocks.len() && f.then_state.blocks[i].terminator is Some implies (
    #[trigger] t.blocks[i]).terminator is Some by {
        assert(mid.blocks[i].terminator is Some);
    }
    assert(mid.blocks[f.then_block.0 as int].terminator is Some);
    if let Some(end) = f.then_end {
        assert(mid.blocks[end.0 as int].terminator is Some);
    }
}

/// Wherever the blocks of an `if` lead, control is taken care of.
proof fn lemma_fork_leads(f: Fork, i: int, target: BasicBlockId)
    requires
        forks(f),
        i == f.header.0 || f.tested.blocks.len() <= i < joined(f).blocks.len(),
        joined(f).blocks[i].terminator is Some,
        frame::leads_to(joined(f).blocks[i].terminator->0, target),
    ensures
        frame::cared_for(joined(f), Some(f.merge_block), target),
{
    lemma_fork_closed(f);
    reveal(rules::open_if);
    reveal(frame::step);
    let t = joined(f);
    let mid = between(f);
    let n = f.tested.blocks.len();
    if f.has_else && (i >= mid.blocks.len() || i == f.else_block.0) {
        if f.else_end is Some && i == (f.else_end->0).0 {
        } else {
            assert(t.blocks[i] == f.else_state.blocks[i]);
            assert(frame::ended(mid, f.else_block, f.else_state, f.else_end, i));
            assert(frame::leads_to(f.else_state.blocks[i].terminator->0, target));
            assert(frame::cared_for(f.else_state, f.else_end, target));
        }
    } else {
        if f.has_else {
            assert(f.else_state.blocks[i] == mid.blocks[i]);
        }
        assert(t.blocks[i] == mid.blocks[i]);
        if f.then_end is Some && i == (f.then_end->0).0 {
        } else if i >= f.opened.blocks.len() || i == f.then_block.0 {
            assert(mid.blocks[i] == f.then_state.blocks[i]);
            assert(frame::ended(f.opened, f.then_block, f.then_state, f.then_end, i));
            assert(frame::leads_to(f.then_state.blocks[i].terminator->0, target));
            assert(frame::cared_for(f.then_state, f.then_end, target));
        } else {
            assert(f.then_state.blocks[i] == f.opened.blocks[i]);
            assert(mid.blocks[i] == f.opened.blocks[i]);
        }
    }
}

/// Leading to a block that exists keeps a state sound.
pub(crate) proof fn lemma_join(s: State, end: Option<BasicBlockId>, target: BasicBlockId)
    requires
        sound::sound(s),
        target.0 < s.blocks.len(),
    ensures
        sound::sound(rules::join(s, end, target)),
        growth::grows(s, rules::join(s, end, target)),
        rules::join(s, end, target).blocks.len() == s.blocks.len(),
{
    if let Some(end) = end {
        sound::lemma_with_terminator(s, end, Terminator::Goto { target });
    }
}

/// Making the blocks of an `if` keeps a state sound.
pub(crate) proof fn lemma_open_if(s: State, header: BasicBlockId, cond: ValueId, has_else: bool)
    requires
        sound::sound(s),
        cond.0 < s.values.len(),
        frame::fits(rules::open_if(s, header, cond, has_else).0),
    ensures
        ({
            let (t, then_block, merge_block, else_block) = rules::open_if(
                s,
                header,
                cond,
                has_else,
            );
            &&& sound::sound(t)
            &&& growth::grows(s, t)
            &&& then_block.0 < t.blocks.len()
            &&& merge_block.0 < t.blocks.len()
            &&& else_block.0 < t.blocks.len()
        }),
{
    reveal(rules::open_if);
    let (t, then_block, merge_block, else_block) = rules::open_if(s, header, cond, has_else);
    let s1 = s.with_block();
    let s2 = s1.with_block();
    let s3 = if has_else {
        s2.with_block()
    } else {
        s2
    };
    sound::lemma_with_block(s);
    sound::lemma_with_block(s1);
    if has_else {
        sound::lemma_with_block(s2);
    }
    let branch = Terminator::Branch { cond, then_bb: then_block, else_bb: else_block };
    sound::lemma_with_terminator(s3, header, branch);
}

/// The way through an `if` whose condition is lowered to `tested`.
pub open spec fn if_fork(
    cx: CheckedBody,
    tested: LoweredExpr,
    then_expr: ExprId,
    else_expr: Option<ExprId>,
) -> Fork {
    let header = tested.next->0;
    let (opened, then_block, merge_block, else_block) = rules::open_if(
        tested.state,
        header,
        tested.value,
        else_expr is Some,
    );
    let then_end = rules::lower_expr(cx, opened, then_block, then_expr)->0;
    let mid = rules::join(then_end.state, then_end.next, merge_block);
    let (else_state, else_end) = match else_expr {
        Some(other) => {
            let end = rules::lower_expr(cx, mid, else_block, other)->0;
            (end.state, end.next)
        },
        None => (mid, None),
    };
    Fork {
        tested: tested.state,
        header,
        cond: tested.value,
        then_block,
        merge_block,
        else_block,
        has_else: else_expr is Some,
        opened,
        then_state: then_end.state,
        then_end: then_end.next,
        else_state,
        else_end,
    }
}

/// Lowering an `if` is a step to a sound state. An `if` without a value branches on its
/// condition, and control goes on where its branches meet; one that has a value stays an
/// expression.
pub proof fn lemma_lower_if(
    cx: CheckedBody,
    s: State,
    block: BasicBlockId,
    if_expr: ExprId,
    cond: ExprId,
    then_expr: ExprId,
    else_expr: Option<ExprId>,
)
    requires
        cx.wf(),
        cx.has_expr(if_expr),
        rules::if_top(cond, then_expr, else_expr) <= cx.body.exprs@.len(),
        block.0 < s.blocks.len(),
        sound::sound(s),
    ensures
        rules::lower_if(cx, s, block, if_expr, cond, then_expr, else_expr) matches Some(l)
            ==> frame::fits(l.state) ==> {
            let unit = cx.typed_body.is_unit(cx.typed_body.ty_of(if_expr));
            let tested = rules::lower_expr(cx, s, block, cond)->0;
            let f = if_fork(cx, tested, then_expr, else_expr);
            &&& flow::flows(s, block, l.state, l.next, l.value)
            &&& !unit ==> l.next == Some(block) && l.value is Some
            &&& unit ==> l.value is None && (l.next is Some <==> tested.next is Some)
            &&& unit && l.next is Some ==> l.next == Some(f.merge_block) && is_fork(l.state, f)
        },
    decreases rules::if_top(cond, then_expr, else_expr), 1nat, 0nat,
{
    if let Some(l) = rules::lower_if(cx, s, block, if_expr, cond, then_expr, else_expr) {
        if frame::fits(l.state) {
            if !cx.typed_body.is_unit(cx.typed_body.ty_of(if_expr)) {
                lemma_evaluated(cx, s, block, if_expr);
            } else {
                let tested = rules::lower_expr(cx, s, block, cond)->0;
                growth::lemma_lower_expr(cx, s, block, cond);
                if let Some(header) = tested.next {
                    let (s4, then_block, merge_block, else_block) = rules::open_if(
                        tested.state,
                        header,
                        tested.value,
                        else_expr is Some,
                    );
                    let then_end = rules::lower_expr(cx, s4, then_block, then_expr)->0;
                    let s5 = rules::join(then_end.state, then_end.next, merge_block);
                    growth::lemma_lower_expr(cx, s4, then_block, then_expr);
                    if let Some(other) = else_expr {
                        growth::lemma_lower_expr(cx, s5, else_block, other);
                    }
                    assert(frame::fits(s4) && frame::fits(tested.state)) by {
                        reveal(rules::open_if);
                    }
                    lemma_lower_expr(cx, s, block, cond);
                    flow::lemma_next_known(s, block, tested.state, header);
                    lemma_open_if(tested.state, header, tested.value, else_expr is Some);
                    lemma_lower_expr(cx, s4, then_block, then_expr);
                    lemma_join(then_end.state, then_end.next, merge_block);
                    let (else_state, else_end) = match else_expr {
                        Some(other) => {
                            let e = rules::lower_expr(cx, s5, else_block, other)->0;
                            (e.state, e.next)
                        },
                        None => (s5, None),
                    };
                    if let Some(other) = else_expr {
                        lemma_lower_expr(cx, s5, else_block, other);
                        lemma_join(else_state, else_end, merge_block);
                    }
                    let f = if_fork(cx, tested, then_expr, else_expr);
                    lemma_fork(f);
                    assert(joined(f) == l.state);
                    flow::lemma_trans(
                        s,
                        block,
                        tested.state,
                        header,
                        None,
                        l.state,
                        Some(merge_block),
                        None,
                    );
                } else {
                    lemma_lower_expr(cx, s, block, cond);
                }
            }
        }
    }
}

/// Settling where an assigned variable lives is a step.
proof fn lemma_assign_space(
    cx: CheckedBody,
    s: State,
    block: BasicBlockId,
    target: ExprId,
    value: ValueId,
)
    requires
        block.0 < s.blocks.len(),
        sound::sound(s),
    ensures
        flow::flows(s, block, rules::assign_space(cx, s, target, value), Some(block), None),
        growth::adds_values(s, rules::assign_space(cx, s, target, value)),
        rules::assign_space(cx, s, target, value).values == s.values,
{
    reveal(rules::assign_space);
    flow::lemma_rest(s, block);
    if let Some(LocalBinding::Local { pat, .. }) =
        cx.typed_body.exprs@[target.0 as int].binding {
        flow::lemma_space(s, block, pat, s.space_of(cx, value));
    }
}

/// Lowering an expression in statement position is a step to a sound state.
pub proof fn lemma_lower_expr_stmt(
    cx: CheckedBody,
    s: State,
    block: BasicBlockId,
    stmt: StmtId,
    expr: ExprId,
)
    requires
        cx.wf(),
        cx.has_expr(expr),
        block.0 < s.blocks.len(),
        sound::sound(s),
    ensures
        rules::lower_expr_stmt(cx, s, block, stmt, expr) matches Some(l) ==> frame::fits(l.state)
            ==> flow::flows(s, block, l.state, l.next, l.value),
    decreases expr.0 as nat, 5nat, 0nat,
{
    assert(cx.body.expr_before(cx.body.exprs@[expr.0 as int], expr.0 as nat));
    flow::lemma_intrinsic_stmt(cx, s, block, expr);
    let intrinsic = rules::intrinsic_stmt(cx, s, block, expr);
    let lowered = rules::lower_expr_stmt(cx, s, block, stmt, expr);
    if intrinsic is None && lowered is Some && frame::fits((lowered->0).state) {
        let l = lowered->0;
        match cx.expr(expr) {
            Partial::Absent => flow::lemma_rest(s, block),
            Partial::Present(Expr::Assign(target, value)) => {
                lemma_assign(cx, s, block, stmt, expr, target, value);
            },
            Partial::Present(Expr::If(cond, then_expr, else_expr)) => {
                let inner = rules::lower_if(cx, s, block, expr, cond, then_expr, else_expr)->0;
                lemma_lower_if(cx, s, block, expr, cond, then_expr, else_expr);
                if let (Some(next), Some(value)) = (inner.next, inner.value) {
                    flow::lemma_next_known(s, block, inner.state, next);
                    flow::lemma_inst(inner.state, next, MirInst::Eval { stmt, value });
                    flow::lemma_trans(
                        s,
                        block,
                        inner.state,
                        next,
                        Some(value),
                        l.state,
                        Some(next),
                        None,
                    );
                }
            },
            Partial::Present(Expr::AugAssign(target, value, op)) => {
                lemma_aug_assign(cx, s, block, stmt, expr, target, value, op);
            },
            Partial::Present(_) => {
                let inner = rules::lower_expr(cx, s, block, expr)->0;
                lemma_lower_expr(cx, s, block, expr);
                if inner.next is Some && inner.eval {
                    let next = inner.next->0;
                    flow::lemma_next_known(s, block, inner.state, next);
                    flow::lemma_inst(
                        inner.state,
                        next,
                        MirInst::Eval { stmt, value: inner.value },
                    );
                    flow::lemma_trans(
                        s,
                        block,
                        inner.state,
                        next,
                        Some(inner.value),
                        l.state,
                        Some(next),
                        None,
                    );
                }
            },
        }
    }
}

/// Lowering an assignment is a step to a sound state.
proof fn lemma_assign(
    cx: CheckedBody,
    s: State,
    block: BasicBlockId,
    stmt: StmtId,
    expr: ExprId,
    target: ExprId,
    value: ExprId,
)
    requires
        cx.wf(),
        cx.has_expr(expr),
        value.0 < expr.0,
        target.0 < expr.0,
        cx.expr(expr) == Partial::Present(Expr::Assign(target, value)),
        rules::intrinsic_stmt(cx, s, block, expr) is None,
        block.0 < s.blocks.len(),
        sound::sound(s),
    ensures
        rules::lower_expr_stmt(cx, s, block, stmt, expr) matches Some(l) ==> frame::fits(l.state)
            ==> flow::flows(s, block, l.state, l.next, l.value),
    decreases expr.0 as nat, 4nat, 0nat,
{
    let lowered = rules::lower_expr_stmt(cx, s, block, stmt, expr);
    if lowered is Some && frame::fits((lowered->0).state) {
        let l = lowered->0;
        let init = rules::lower_expr(cx, s, block, value)->0;
        if let Some(next) = init.next {
            let s1 = rules::assign_space(cx, init.state, target, init.value);
            growth::lemma_field_assign(cx, s1, next, expr, target, init.value);
            assert(frame::fits(init.state)) by {
                reveal(rules::assign_space);
            }
            lemma_lower_expr(cx, s, block, value);
            flow::lemma_next_known(s, block, init.state, next);
            lemma_assign_space(cx, init.state, next, target, init.value);
            flow::lemma_trans(
                s,
                block,
                init.state,
                next,
                Some(init.value),
                s1,
                Some(next),
                None,
            );
            match rules::field_assign(cx, s1, next, expr, target, init.value) {
                Some(_) => flow::lemma_field_assign(cx, s1, next, expr, target, init.value),
                None => flow::lemma_inst(
                    s1,
                    next,
                    MirInst::Assign { stmt, target, value: init.value },
                ),
            }
            flow::lemma_trans(s, block, s1, next, None, l.state, Some(next), None);
        } else {
            lemma_lower_expr(cx, s, block, value);
        }
    }
}

/// Lowering an assignment with an operator is a step to a sound state.
proof fn lemma_aug_assign(
    cx: CheckedBody,
    s: State,
    block: BasicBlockId,
    stmt: StmtId,
    expr: ExprId,
    target: ExprId,
    value: ExprId,
    op: ArithBinOp,
)
    requires
        cx.wf(),
        cx.has_expr(expr),
        value.0 < expr.0,
        target.0 < expr.0,
        cx.expr(expr) == Partial::Present(Expr::AugAssign(target, value, op)),
        rules::intrinsic_stmt(cx, s, block, expr) is None,
        block.0 < s.blocks.len(),
        sound::sound(s),
    ensures
        rules::lower_expr_stmt(cx, s, block, stmt, expr) matches Some(l) ==> frame::fits(l.state)
            ==> flow::flows(s, block, l.state, l.next, l.value),
    decreases expr.0 as nat, 4nat, 0nat,
{
    let lowered = rules::lower_expr_stmt(cx, s, block, stmt, expr);
    if lowered is Some && frame::fits((lowered->0).state) {
        let l = lowered->0;
        let init = rules::lower_expr(cx, s, block, value)->0;
        if let Some(next) = init.next {
            let s1 = rules::assign_space(cx, init.state, target, init.value);
            assert(frame::fits(init.state)) by {
                reveal(rules::assign_space);
            }
            lemma_lower_expr(cx, s, block, value);
            flow::lemma_next_known(s, block, init.state, next);
            lemma_assign_space(cx, init.state, next, target, init.value);
            flow::lemma_trans(
                s,
                block,
                init.state,
                next,
                Some(init.value),
                s1,
                Some(next),
                None,
            );
            flow::lemma_inst(
                s1,
                next,
                MirInst::AugAssign { stmt, target, value: init.value, op },
            );
            flow::lemma_trans(s, block, s1, next, None, l.state, Some(next), None);
        } else {
            lemma_lower_expr(cx, s, block, value);
        }
    }
}

/// Lowering the root of a body is a step to a sound state.
pub proof fn lemma_lower_root(cx: CheckedBody, s: State, block: BasicBlockId, expr: ExprId)
    requires
        cx.wf(),
        cx.has_expr(expr),
        block.0 < s.blocks.len(),
        sound::sound(s),
    ensures
        rules::lower_root(cx, s, block, expr) matches Some((t, next)) ==> frame::fits(t)
            ==> flow::flows(s, block, t, next, None),
{
    assert(cx.body.expr_before(cx.body.exprs@[expr.0 as int], expr.0 as nat));
    if let Some((t, next)) = rules::lower_root(cx, s, block, expr) {
        if frame::fits(t) {
            match cx.expr(expr) {
                Partial::Present(Expr::Block(stmts)) => {
                    rules::lemma_stmts_top_least(cx, stmts@, expr.0 as nat);
                    lemma_lower_stmts(cx, s, block, stmts@, 0);
                },
                _ => {
                    let l = rules::lower_expr(cx, s, block, expr)->0;
                    lemma_lower_expr(cx, s, block, expr);
                    sound::lemma_with_expr_value(l.state, expr, l.value);
                    lemma_then_values(s, block, l.state, next, t, l.value);
                },
            }
        }
    }
}

/// In a body lowered from its entry block on, every identifier is bound and every value is built
/// from earlier ones, no loop is left open, and wherever a block leads there is a block that has
/// a terminator or in which lowering would go on.
pub proof fn lemma_lowered_body(cx: CheckedBody, expr: ExprId)
    requires
        cx.wf(),
        cx.has_expr(expr),
    ensures
        ({
            let s = State::start().with_block();
            rules::lower_root(cx, s, BasicBlockId(0), expr) matches Some((t, next))
                ==> frame::fits(t) ==> {
                &&& sound::sound(t)
                &&& t.loop_stack.len() == 0
                &&& next matches Some(next) ==> next.0 < t.blocks.len()
                    && t.blocks[next.0 as int].terminator is None
                &&& forall|i: int, target: BasicBlockId|
                    0 <= i < t.blocks.len() && t.blocks[i].terminator is Some
                        && #[trigger] frame::leads_to(t.blocks[i].terminator->0, target)
                        ==> target.0 < t.blocks.len() && (
                    t.blocks[target.0 as int].terminator is Some || next == Some(target))
            }
        }),
{
    let s = State::start().with_block();
    let entry = BasicBlockId(0);
    assert(sound::sound(State::start())) by {
        reveal(sound::sound);
    }
    sound::lemma_with_block(State::start());
    lemma_lower_root(cx, s, entry, expr);
    if let Some((t, next)) = rules::lower_root(cx, s, entry, expr) {
        if frame::fits(t) {
            reveal(frame::step);
            assert forall|i: int, target: BasicBlockId|
                0 <= i < t.blocks.len() && t.blocks[i].terminator is Some
                    && #[trigger] frame::leads_to(
                    t.blocks[i].terminator->0,
                    target,
                ) implies target.0 < t.blocks.len() && (
            t.blocks[target.0 as int].terminator is Some || next == Some(target)) by {
                assert(frame::ended(s, entry, t, next, i));
                assert(frame::cared_for(t, next, target));
            }
        }
    }
}

} // verus!
