//! Lowering only adds: the numbers of blocks and values never shrink, and every loop that is
//! entered is left again.

use vstd::prelude::*;

use crate::hir::body;
use crate::hir::body::{Expr, MatchArm, Partial, Stmt};
use crate::hir::ids::{ExprId, PatId, StmtId};
use crate::hir::typed;
use crate::hir::typed::{FieldAccessInfo, MatchArmPattern};
use crate::mir::input::CheckedBody;
use crate::mir::ir::{BasicBlockId, LoopScope, Terminator, ValueId};
use crate::mir::rules;
use crate::mir::rules::{Aggregate, Iterable, LoopBlocks, LoopStart};
use crate::mir::state::State;

verus! {

/// From `s` to `t`, no block and no value is lost, and the same loops are open.
pub open spec fn grows(s: State, t: State) -> bool {
    &&& s.blocks.len() <= t.blocks.len()
    &&& s.values.len() <= t.values.len()
    &&& s.loop_stack == t.loop_stack
}

/// From `s` to `t`, only values are added.
pub open spec fn adds_values(s: State, t: State) -> bool {
    &&& grows(s, t)
    &&& s.blocks == t.blocks
}

/// Giving an expression a value only adds values.
pub proof fn lemma_ensure_value(cx: CheckedBody, s: State, expr: ExprId)
    requires
        cx.wf(),
        cx.has_expr(expr),
    ensures
        adds_values(s, rules::ensure_value(cx, s, expr).0),
    decreases expr.0 as nat, 3nat, 0nat,
{
    if !s.expr_values.contains_key(expr.0) {
        match cx.expr(expr) {
            Partial::Present(Expr::Call(_, _)) => lemma_call_value(cx, s, expr),
            Partial::Present(Expr::MethodCall(_, _, _)) => lemma_call_value(cx, s, expr),
            Partial::Present(Expr::Field(_, _)) => lemma_field_value(cx, s, expr),
            _ => {},
        }
    }
}

/// The arguments of a call come before the call.
pub proof fn lemma_call_args_before(cx: CheckedBody, expr: ExprId)
    requires
        cx.wf(),
        cx.has_expr(expr),
    ensures
        rules::call_args(cx, expr) matches Some(args) ==> body::all_before(args, expr.0 as nat),
{
    assert(cx.body.expr_before(cx.body.exprs@[expr.0 as int], expr.0 as nat));
}

/// Giving expressions values only adds values.
pub proof fn lemma_ensure_values(
    cx: CheckedBody,
    s: State,
    exprs: Seq<ExprId>,
    n: nat,
    bound: nat,
)
    requires
        cx.wf(),
        bound <= cx.body.exprs@.len(),
        body::all_before(exprs, bound),
        n <= exprs.len(),
    ensures
        adds_values(s, rules::ensure_values(cx, s, exprs, n, bound).0),
        rules::ensure_values(cx, s, exprs, n, bound).1.len() == n,
    decreases bound, 0nat, n,
{
    if n > 0 {
        lemma_ensure_values(cx, s, exprs, (n - 1) as nat, bound);
        let (s1, _) = rules::ensure_values(cx, s, exprs, (n - 1) as nat, bound);
        assert(exprs[n - 1].0 < bound);
        lemma_ensure_value(cx, s1, exprs[n - 1]);
    }
}

/// Giving a call a value only adds values.
pub proof fn lemma_call_value(cx: CheckedBody, s: State, expr: ExprId)
    requires
        cx.wf(),
        cx.has_expr(expr),
    ensures
        adds_values(s, rules::call_value(cx, s, expr).0),
    decreases expr.0 as nat, 1nat, 0nat,
{
    if let Some(args) = rules::call_args(cx, expr) {
        lemma_call_args_before(cx, expr);
        lemma_ensure_values(cx, s, args, args.len(), expr.0 as nat);
    }
}

/// Giving a field access a value only adds values.
pub proof fn lemma_field_value(cx: CheckedBody, s: State, expr: ExprId)
    requires
        cx.wf(),
        cx.has_expr(expr),
    ensures
        adds_values(s, rules::field_value(cx, s, expr).0),
    decreases expr.0 as nat, 1nat, 0nat,
{
    if let Some((lhs, info)) = rules::accessed_field(cx, expr) {
        assert(cx.body.expr_before(cx.body.exprs@[expr.0 as int], expr.0 as nat));
        lemma_ensure_value(cx, s, lhs);
    }
}

/// Lowering the call of an intrinsic only adds.
pub proof fn lemma_intrinsic_stmt(cx: CheckedBody, s: State, block: BasicBlockId, expr: ExprId)
    requires
        cx.wf(),
        cx.has_expr(expr),
    ensures
        rules::intrinsic_stmt(cx, s, block, expr) matches Some(lowered) ==> grows(s, lowered.0)
            && lowered.0.blocks.len() == s.blocks.len(),
{
    reveal(rules::intrinsic_stmt);
    if let Some(args) = rules::call_args(cx, expr) {
        lemma_call_args_before(cx, expr);
        lemma_ensure_values(cx, s, args, args.len(), expr.0 as nat);
        let (s1, _) = rules::ensure_values(cx, s, args, args.len(), expr.0 as nat);
        lemma_ensure_value(cx, s1, expr);
    }
}

/// Assigning to a field only adds.
pub proof fn lemma_field_assign(
    cx: CheckedBody,
    s: State,
    block: BasicBlockId,
    expr: ExprId,
    target: ExprId,
    value: ValueId,
)
    requires
        cx.wf(),
        cx.has_expr(target),
    ensures
        rules::field_assign(cx, s, block, expr, target, value) matches Some(t) ==> grows(s, t),
{
    reveal(rules::field_assign);
    reveal(rules::store_field);
    if let Some((lhs, _)) = rules::accessed_field(cx, target) {
        assert(cx.body.expr_before(cx.body.exprs@[target.0 as int], target.0 as nat));
        lemma_ensure_value(cx, s, lhs);
    }
}

/// The parts of an aggregate come before the expression that builds it.
pub proof fn lemma_inits_before(cx: CheckedBody, expr: ExprId)
    requires
        cx.wf(),
        cx.has_expr(expr),
    ensures
        rules::variant_ctor(cx, expr) matches Some(a) ==> rules::inits_before(
            a.inits,
            expr.0 as nat,
        ),
        rules::unit_variant(cx, expr) matches Some(a) ==> rules::inits_before(
            a.inits,
            expr.0 as nat,
        ),
        cx.expr(expr) matches Partial::Present(Expr::RecordInit(_, fields))
            ==> rules::inits_before(rules::record(cx, expr, fields@).inits, expr.0 as nat),
{
    reveal(rules::variant_ctor);
    reveal(rules::unit_variant);
    reveal(rules::record);
    assert(cx.body.expr_before(cx.body.exprs@[expr.0 as int], expr.0 as nat));
}

/// Lowering an expression only adds.
pub proof fn lemma_lower_expr(cx: CheckedBody, s: State, block: BasicBlockId, expr: ExprId)
    requires
        cx.wf(),
        cx.has_expr(expr),
    ensures
        rules::lower_expr(cx, s, block, expr) matches Some(lowered) ==> grows(s, lowered.state),
    decreases expr.0 as nat, 4nat, 0nat,
{
    assert(cx.body.expr_before(cx.body.exprs@[expr.0 as int], expr.0 as nat));
    lemma_intrinsic_stmt(cx, s, block, expr);
    lemma_inits_before(cx, expr);
    if let Some(_) = rules::intrinsic_stmt(cx, s, block, expr) {
    } else if let Some(aggregate) = rules::variant_ctor(cx, expr) {
        lemma_lower_aggregate(cx, s, block, expr, aggregate);
    } else if let Some(aggregate) = rules::unit_variant(cx, expr) {
        lemma_lower_aggregate(cx, s, block, expr, aggregate);
    } else {
        match cx.expr(expr) {
            Partial::Present(Expr::Block(stmts)) => {
                rules::lemma_stmts_top_least(cx, stmts@, expr.0 as nat);
                lemma_lower_stmts(cx, s, block, stmts@, 0);
                if let Some((s1, _)) = rules::lower_stmts(cx, s, block, stmts@, 0) {
                    lemma_ensure_value(cx, s1, expr);
                }
            },
            Partial::Present(Expr::RecordInit(_, fields)) => {
                lemma_lower_aggregate(cx, s, block, expr, rules::record(cx, expr, fields@));
            },
            Partial::Present(Expr::Match(scrutinee, Partial::Present(arms))) => {
                match rules::arm_patterns(cx, arms@) {
                    Some(patterns) => {
                        lemma_lower_match(cx, s, block, expr, scrutinee, arms@, patterns);
                    },
                    None => lemma_ensure_value(cx, s, expr),
                }
            },
            _ => lemma_ensure_value(cx, s, expr),
        }
    }
}

/// Lowering an aggregate only adds.
pub proof fn lemma_lower_aggregate(
    cx: CheckedBody,
    s: State,
    block: BasicBlockId,
    expr: ExprId,
    aggregate: Aggregate,
)
    requires
        cx.wf(),
        cx.has_expr(expr),
        rules::inits_before(aggregate.inits, expr.0 as nat),
    ensures
        rules::lower_aggregate(cx, s, block, expr, aggregate) matches Some(lowered) ==> grows(
            s,
            lowered.state,
        ),
    decreases expr.0 as nat, 3nat, aggregate.inits.len() + 1,
{
    reveal(rules::alloc_aggregate);
    reveal(rules::store_discriminant);
    let (s1, base) = rules::alloc_aggregate(cx, s, block, expr, aggregate.size_bytes);
    let s2 = match aggregate.discriminant {
        Some(d) => rules::store_discriminant(cx, s1, block, expr, base, d),
        None => s1,
    };
    lemma_lower_inits(cx, s2, block, expr, base, aggregate.inits, 0);
}

/// Computing and storing the parts of an aggregate only adds.
pub proof fn lemma_lower_inits(
    cx: CheckedBody,
    s: State,
    block: BasicBlockId,
    expr: ExprId,
    base: ValueId,
    inits: Seq<(ExprId, Option<FieldAccessInfo>)>,
    i: nat,
)
    requires
        cx.wf(),
        cx.has_expr(expr),
        rules::inits_before(inits, expr.0 as nat),
    ensures
        rules::lower_inits(cx, s, block, expr, base, inits, i) matches Some(lowered) ==> grows(
            s,
            lowered.0,
        ),
    decreases expr.0 as nat, 3nat, inits.len() - i,
{
    reveal(rules::store_field);
    if i < inits.len() {
        lemma_lower_expr(cx, s, block, inits[i as int].0);
        if let Some(init) = rules::lower_expr(cx, s, block, inits[i as int].0) {
            if let Some(next) = init.next {
                let s1 = match inits[i as int].1 {
                    Some(info) => rules::store_field(
                        cx,
                        init.state,
                        next,
                        expr,
                        base,
                        info,
                        init.value,
                    ),
                    None => init.state,
                };
                lemma_lower_inits(cx, s1, next, expr, base, inits, i + 1);
            }
        }
    }
}

/// Lowering a match only adds.
pub proof fn lemma_lower_match(
    cx: CheckedBody,
    s: State,
    block: BasicBlockId,
    expr: ExprId,
    scrutinee: ExprId,
    arms: Seq<MatchArm>,
    patterns: Seq<MatchArmPattern>,
)
    requires
        cx.wf(),
        cx.has_expr(expr),
        scrutinee.0 < expr.0,
        rules::arms_before(arms, expr.0 as nat),
    ensures
        rules::lower_match(cx, s, block, expr, scrutinee, arms, patterns) matches Some(lowered)
            ==> grows(s, lowered.state),
    decreases expr.0 as nat, 3nat, arms.len() + 1,
{
    reveal(rules::close_match);
    lemma_ensure_value(cx, s, expr);
    let (s1, _) = rules::ensure_value(cx, s, expr);
    lemma_lower_expr(cx, s1, block, scrutinee);
    if let Some(tested) = rules::lower_expr(cx, s1, block, scrutinee) {
        lemma_lower_arms(cx, tested.state, expr, arms, 0, None, Seq::empty());
    }
}

/// Lowering the arms of a match only adds.
pub proof fn lemma_lower_arms(
    cx: CheckedBody,
    s: State,
    expr: ExprId,
    arms: Seq<MatchArm>,
    i: nat,
    merge: Option<BasicBlockId>,
    entries: Seq<BasicBlockId>,
)
    requires
        cx.wf(),
        cx.has_expr(expr),
        rules::arms_before(arms, expr.0 as nat),
    ensures
        rules::lower_arms(cx, s, expr, arms, i, merge, entries) matches Some(lowered) ==> grows(
            s,
            lowered.0,
        ),
    decreases expr.0 as nat, 3nat, arms.len() - i,
{
    if i < arms.len() {
        let entry = s.next_block();
        lemma_lower_expr(cx, s.with_block(), entry, arms[i as int].body);
        if let Some(arm) = rules::lower_expr(cx, s.with_block(), entry, arms[i as int].body) {
            let (s1, merge1) = rules::meet(arm, merge);
            lemma_lower_arms(cx, s1, expr, arms, i + 1, merge1, entries.push(entry));
        }
    }
}

/// Lowering statements only adds.
pub proof fn lemma_lower_stmts(
    cx: CheckedBody,
    s: State,
    block: BasicBlockId,
    stmts: Seq<StmtId>,
    i: nat,
)
    requires
        cx.wf(),
        cx.body.stmts_before(stmts, cx.body.exprs@.len()),
    ensures
        rules::lower_stmts(cx, s, block, stmts, i) matches Some(lowered) ==> grows(s, lowered.0),
    decreases rules::stmts_top(cx, stmts), 3nat, stmts.len() - i,
{
    if i < stmts.len() {
        rules::lemma_stmts_top(cx, stmts, i as int);
        lemma_lower_stmt(cx, s, block, stmts[i as int]);
        if let Some(stmt) = rules::lower_stmt(cx, s, block, stmts[i as int]) {
            if let Some(next) = stmt.next {
                lemma_lower_stmts(cx, stmt.state, next, stmts, i + 1);
            }
        }
    }
}

/// Lowering a statement only adds.
pub proof fn lemma_lower_stmt(cx: CheckedBody, s: State, block: BasicBlockId, stmt: StmtId)
    requires
        cx.wf(),
        cx.has_stmt(stmt),
    ensures
        rules::lower_stmt(cx, s, block, stmt) matches Some(lowered) ==> grows(s, lowered.state),
    decreases body::stmt_top(cx.stmt(stmt)), 2nat, 0nat,
{
    assert(body::stmt_top(cx.body.stmts@[stmt.0 as int]) <= cx.body.exprs@.len());
    match cx.stmt(stmt) {
        Partial::Absent => {},
        Partial::Present(data) => match data {
            Stmt::Let(_, _, Some(init)) => lemma_lower_expr(cx, s, block, init),
            Stmt::For(pat, iter, body) => lemma_lower_for(cx, s, block, stmt, pat, iter, body),
            Stmt::While(cond, body) => lemma_lower_while(cx, s, block, cond, body),
            Stmt::Return(Some(value)) => lemma_lower_expr(cx, s, block, value),
            Stmt::Expr(expr) => lemma_lower_expr_stmt(cx, s, block, stmt, expr),
            _ => {},
        },
    }
}

/// Lowering a `while` loop only adds.
pub proof fn lemma_lower_while(
    cx: CheckedBody,
    s: State,
    block: BasicBlockId,
    cond: ExprId,
    body: ExprId,
)
    requires
        cx.wf(),
        cx.has_expr(cond),
        cx.has_expr(body),
    ensures
        rules::lower_while(cx, s, block, cond, body) matches Some(lowered) ==> grows(
            s,
            lowered.state,
        ),
    decreases rules::pair_top(cond, body), 1nat, 0nat,
{
    let cond_entry = s.next_block();
    let body_block = s.with_block().next_block();
    let exit_block = s.with_block().with_block().next_block();
    let s3 = s.with_block().with_block().with_block().with_terminator(
        block,
        Terminator::Goto { target: cond_entry },
    );
    lemma_lower_expr(cx, s3, cond_entry, cond);
    if let Some(tested) = rules::lower_expr(cx, s3, cond_entry, cond) {
        let scope = LoopScope { continue_target: cond_entry, break_target: exit_block };
        lemma_lower_expr(cx, tested.state.enter_loop(scope), body_block, body);
        assert(tested.state.loop_stack.push(scope).drop_last() == tested.state.loop_stack);
    }
}

/// Lowering a `for` loop only adds.
pub proof fn lemma_lower_for(
    cx: CheckedBody,
    s: State,
    block: BasicBlockId,
    stmt: StmtId,
    pat: PatId,
    iter: ExprId,
    body: ExprId,
)
    requires
        cx.wf(),
        cx.has_expr(iter),
        cx.has_expr(body),
    ensures
        rules::lower_for(cx, s, block, stmt, pat, iter, body) matches Some(lowered) ==> grows(
            s,
            lowered.state,
        ),
    decreases rules::pair_top(iter, body), 1nat, 0nat,
{
    assert(cx.body.expr_before(cx.body.exprs@[iter.0 as int], iter.0 as nat));
    match rules::iterable(cx, iter) {
        None => {},
        Some(Iterable::Literal(end)) => {
            let from = rules::start_at_zero(cx, s, block, end);
            lemma_run_loop(cx, from, stmt, pat, iter, None, body, false);
        },
        Some(Iterable::Array(length)) => {
            let from = rules::start_at_zero(cx, s, block, length);
            lemma_run_loop(cx, from, stmt, pat, iter, None, body, true);
        },
        Some(Iterable::Range(start, end)) => {
            lemma_lower_expr(cx, s, block, start);
            if let Some(first) = rules::lower_expr(cx, s, block, start) {
                if let Some(next) = first.next {
                    let (from, end_expr) = rules::range_start(cx, first, next, end);
                    lemma_run_loop(cx, from, stmt, pat, iter, end_expr, body, false);
                }
            }
        },
    }
}

/// Giving the loop variable, or the element of an array, a value only adds.
pub proof fn lemma_test_variable(
    cx: CheckedBody,
    s: State,
    blocks: LoopBlocks,
    pat: PatId,
    iter: ExprId,
    end: ValueId,
    over_array: bool,
)
    requires
        cx.wf(),
        cx.has_expr(iter),
    ensures
        grows(s, rules::test_variable(cx, s, blocks, pat, iter, end, over_array).0),
        rules::test_variable(cx, s, blocks, pat, iter, end, over_array).0.blocks.len()
            == s.blocks.len(),
{
    reveal(rules::test_variable);
    lemma_first_use_known(cx, pat);
    if let Some(expr) = cx.typed_body.first_use(pat) {
        lemma_ensure_value(cx, s, expr);
    }
    let (s1, _) = rules::loop_variable(cx, s, pat);
    lemma_ensure_value(cx, s1, iter);
    let (s2, _) = rules::ensure_value(cx, s1, iter);
    assert(cx.body.exprs@.len() == cx.body.exprs.len());
    lemma_first_indexing_known(cx, iter, pat, 0);
    if let Some(expr) = rules::first_indexing(cx, iter, pat, 0) {
        lemma_ensure_value(cx, s2, expr);
    }
}

/// The first use of a pattern's binding is an expression of the body.
pub proof fn lemma_first_use_known(cx: CheckedBody, pat: PatId)
    requires
        cx.wf(),
    ensures
        cx.typed_body.first_use(pat) matches Some(expr) ==> cx.has_expr(expr),
{
    if let Some(binding) = cx.typed_body.binding_of(pat) {
        let table = cx.typed_body.references@;
        typed::lemma_first_reference_listed(table, binding, table.len());
    }
}

/// The first expression that indexes into an array with the variable of a pattern is an
/// expression of the body, and it does so.
pub proof fn lemma_first_indexing_known(cx: CheckedBody, array: ExprId, pat: PatId, i: nat)
    requires
        cx.body.exprs@.len() <= usize::MAX,
    ensures
        rules::first_indexing(cx, array, pat, i) matches Some(expr) ==> cx.has_expr(expr)
            && rules::indexes(cx, cx.expr(expr), array, pat),
    decreases cx.body.exprs@.len() - i,
{
    if i < cx.body.exprs@.len() && !rules::indexes(cx, cx.body.exprs@[i as int], array, pat) {
        lemma_first_indexing_known(cx, array, pat, i + 1);
    }
}

/// Running a `for` loop only adds.
pub proof fn lemma_run_loop(
    cx: CheckedBody,
    from: LoopStart,
    stmt: StmtId,
    pat: PatId,
    iter: ExprId,
    end_expr: Option<ExprId>,
    body: ExprId,
    over_array: bool,
)
    requires
        cx.wf(),
        cx.has_expr(iter),
        cx.has_expr(body),
        rules::end_before(end_expr, iter),
    ensures
        rules::run_loop(cx, from, stmt, pat, iter, end_expr, body, over_array) matches Some(
            lowered,
        ) ==> grows(from.state, lowered.state),
    decreases rules::pair_top(iter, body), 0nat, 1nat,
{
    reveal(rules::open_loop);
    let (s1, blocks) = rules::open_loop(
        cx,
        from.state,
        from.block,
        from.start,
        stmt,
        pat,
        over_array,
    );
    match end_expr {
        Some(end) => {
            lemma_lower_expr(cx, s1, blocks.cond_entry, end);
            if let Some(bound) = rules::lower_expr(cx, s1, blocks.cond_entry, end) {
                lemma_round(
                    cx,
                    bound.state,
                    blocks,
                    stmt,
                    pat,
                    iter,
                    body,
                    bound.value,
                    over_array,
                );
            }
        },
        None => lemma_round(
            cx,
            s1,
            blocks,
            stmt,
            pat,
            iter,
            body,
            from.end->0,
            over_array,
        ),
    }
}

/// One round of a `for` loop only adds.
proof fn lemma_round(
    cx: CheckedBody,
    s: State,
    blocks: LoopBlocks,
    stmt: StmtId,
    pat: PatId,
    iter: ExprId,
    body: ExprId,
    end: ValueId,
    over_array: bool,
)
    requires
        cx.wf(),
        cx.has_expr(iter),
        cx.has_expr(body),
    ensures
        ({
            let (s2, test) = rules::test_variable(
                cx,
                s,
                blocks,
                pat,
                iter,
                end,
                over_array,
            );
            rules::lower_expr(cx, rules::in_loop(s2, blocks), blocks.body_block, body) matches Some(
                round,
            ) ==> forall|header: BasicBlockId|
                grows(
                    s,
                    (#[trigger] rules::close_loop(
                        cx,
                        round,
                        blocks,
                        header,
                        test,
                        stmt,
                        pat,
                    )).state,
                )
        }),
    decreases rules::pair_top(iter, body), 0nat, 0nat,
{
    reveal(rules::step_variable);
    lemma_test_variable(cx, s, blocks, pat, iter, end, over_array);
    let (s2, test) = rules::test_variable(cx, s, blocks, pat, iter, end, over_array);
    lemma_lower_expr(cx, rules::in_loop(s2, blocks), blocks.body_block, body);
    let scope = LoopScope {
        continue_target: blocks.cond_entry,
        break_target: blocks.exit_block,
    };
    assert(s2.loop_stack.push(scope).drop_last() == s2.loop_stack);
}

/// Lowering an `if` only adds.
pub proof fn lemma_lower_if(
    cx: CheckedBody,
    s: State,
    block: BasicBlockId,
    if_expr: ExprId,
    cond: ExprId,
    then_expr: ExprId,
    else_expr: Option<ExprId>,
)
    requires
        cx.wf(),
        cx.has_expr(if_expr),
        rules::if_top(cond, then_expr, else_expr) <= cx.body.exprs@.len(),
    ensures
        rules::lower_if(cx, s, block, if_expr, cond, then_expr, else_expr) matches Some(lowered)
            ==> grows(s, lowered.state),
    decreases rules::if_top(cond, then_expr, else_expr), 1nat, 0nat,
{
    reveal(rules::open_if);
    lemma_ensure_value(cx, s, if_expr);
    lemma_lower_expr(cx, s, block, cond);
    if let Some(tested) = rules::lower_expr(cx, s, block, cond) {
        if let Some(header) = tested.next {
            let (s4, then_block, merge_block, else_block) = rules::open_if(
                tested.state,
                header,
                tested.value,
                else_expr is Some,
            );
            lemma_lower_expr(cx, s4, then_block, then_expr);
            if let Some(then_end) = rules::lower_expr(cx, s4, then_block, then_expr) {
                let s5 = rules::join(then_end.state, then_end.next, merge_block);
                if let Some(else_expr) = else_expr {
                    lemma_lower_expr(cx, s5, else_block, else_expr);
                }
            }
        }
    }
}

/// Lowering an expression in statement position only adds.
pub proof fn lemma_lower_expr_stmt(
    cx: CheckedBody,
    s: State,
    block: BasicBlockId,
    stmt: StmtId,
    expr: ExprId,
)
    requires
        cx.wf(),
        cx.has_expr(expr),
    ensures
        rules::lower_expr_stmt(cx, s, block, stmt, expr) matches Some(lowered) ==> grows(
            s,
            lowered.state,
        ),
    decreases expr.0 as nat, 5nat, 0nat,
{
    reveal(rules::assign_space);
    assert(cx.body.expr_before(cx.body.exprs@[expr.0 as int], expr.0 as nat));
    lemma_intrinsic_stmt(cx, s, block, expr);
    match cx.expr(expr) {
        Partial::Absent => {},
        Partial::Present(Expr::Assign(target, value)) => {
            lemma_lower_expr(cx, s, block, value);
            if let Some(value) = rules::lower_expr(cx, s, block, value) {
                if let Some(next) = value.next {
                    let s1 = rules::assign_space(cx, value.state, target, value.value);
                    lemma_field_assign(cx, s1, next, expr, target, value.value);
                }
            }
        },
        Partial::Present(Expr::If(cond, then_expr, else_expr)) => {
            lemma_lower_if(cx, s, block, expr, cond, then_expr, else_expr);
        },
        Partial::Present(Expr::AugAssign(target, value, op)) => {
            lemma_lower_expr(cx, s, block, value);
        },
        Partial::Present(_) => lemma_lower_expr(cx, s, block, expr),
    }
}

} // verus!
