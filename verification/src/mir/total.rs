//! Which bodies can be lowered.

use vstd::prelude::*;

use crate::hir::body;
use crate::hir::body::{BinOp, Expr, FieldInit, LitKind, MatchArm, Partial, Stmt};
use crate::hir::ids::{ExprId, PatId, StmtId};
use crate::hir::typed::{FieldAccessInfo, PrimTy, TyBase};
use crate::mir::growth;
use crate::mir::input::CheckedBody;
use crate::mir::ir::{BasicBlockId, LoopScope, Terminator, ValueId};
use crate::mir::rules;
use crate::mir::rules::{Aggregate, Iterable, LoopStart};
use crate::mir::state::State;

verus! {

/// Whether every `break` and `continue` in an expression stands in a loop, be it a loop around
/// the expression, and every `for` loop in it runs over a range, an integer literal or an array.
pub open spec fn expr_fine(cx: CheckedBody, expr: ExprId, looped: bool) -> bool
    decreases expr.0 as nat, 2nat,
    when cx.wf() && cx.has_expr(expr)
{
    match cx.expr(expr) {
        Partial::Absent => true,
        Partial::Present(data) => match data {
            Expr::Lit(_) => true,
            Expr::Block(stmts) => {
                proof {
                    rules::lemma_stmts_top_least(cx, stmts@, expr.0 as nat);
                }
                stmts_fine(cx, stmts@, looped)
            },
            Expr::Bin(lhs, rhs, _) => expr_fine(cx, lhs, looped) && expr_fine(cx, rhs, looped),
            Expr::Un(operand, _) => expr_fine(cx, operand, looped),
            Expr::Call(callee, args) => {
                &&& expr_fine(cx, callee, looped)
                &&& forall|i: int| 0 <= i < args@.len() ==> expr_fine(cx, args@[i], looped)
            },
            Expr::MethodCall(receiver, _, args) => {
                &&& expr_fine(cx, receiver, looped)
                &&& forall|i: int| 0 <= i < args@.len() ==> expr_fine(cx, args@[i], looped)
            },
            Expr::Path(_) => true,
            Expr::RecordInit(_, fields) => forall|i: int|
                0 <= i < fields@.len() ==> expr_fine(cx, fields@[i].expr, looped),
            Expr::Field(lhs, _) => expr_fine(cx, lhs, looped),
            Expr::Tuple(elems) => forall|i: int|
                0 <= i < elems@.len() ==> expr_fine(cx, elems@[i], looped),
            Expr::Array(elems) => forall|i: int|
                0 <= i < elems@.len() ==> expr_fine(cx, elems@[i], looped),
            Expr::If(cond, then_expr, else_expr) => {
                &&& expr_fine(cx, cond, looped)
                &&& expr_fine(cx, then_expr, looped)
                &&& else_expr matches Some(e) ==> expr_fine(cx, e, looped)
            },
            Expr::Match(scrutinee, arms) => {
                &&& expr_fine(cx, scrutinee, looped)
                &&& arms matches Partial::Present(arms) ==> forall|i: int|
                    0 <= i < arms@.len() ==> expr_fine(cx, arms@[i].body, looped)
            },
            Expr::Assign(target, value) => expr_fine(cx, target, looped) && expr_fine(
                cx,
                value,
                looped,
            ),
            Expr::AugAssign(target, value, _) => expr_fine(cx, target, looped) && expr_fine(
                cx,
                value,
                looped,
            ),
        },
    }
}

/// `expr_fine` for statements.
pub open spec fn stmts_fine(cx: CheckedBody, stmts: Seq<StmtId>, looped: bool) -> bool
    decreases rules::stmts_top(cx, stmts), 1nat,
    when cx.wf() && cx.body.stmts_before(stmts, cx.body.exprs@.len())
{
    forall|i: int|
        0 <= i < stmts.len() ==> {
            proof {
                rules::lemma_stmts_top(cx, stmts, i);
            }
            stmt_fine(cx, #[trigger] stmts[i], looped)
        }
}

/// `expr_fine` for a statement.
pub open spec fn stmt_fine(cx: CheckedBody, stmt: StmtId, looped: bool) -> bool
    decreases body::stmt_top(cx.stmt(stmt)), 0nat,
    when cx.wf() && cx.has_stmt(stmt)
{
    match cx.stmt(stmt) {
        Partial::Absent => true,
        Partial::Present(data) => match data {
            Stmt::Let(_, _, Some(value)) => expr_fine(cx, value, looped),
            Stmt::Let(_, _, None) => true,
            Stmt::For(_, iter, body) => {
                &&& rules::iterable(cx, iter) is Some
                &&& expr_fine(cx, iter, looped)
                &&& expr_fine(cx, body, true)
            },
            Stmt::While(cond, body) => expr_fine(cx, cond, looped) && expr_fine(cx, body, true),
            Stmt::Continue => looped,
            Stmt::Break => looped,
            Stmt::Return(Some(value)) => expr_fine(cx, value, looped),
            Stmt::Return(None) => true,
            Stmt::Expr(expr) => expr_fine(cx, expr, looped),
        },
    }
}

impl CheckedBody {
    /// Returns whether, in the body whose root is `root`, every `break` and `continue` stands in
    /// a loop and every `for` loop runs over a range, an integer literal or an array. Such a body
    /// can be lowered.
    pub fn can_lower(&self, root: ExprId) -> (fine: bool)
        requires
            self.wf(),
            self.has_expr(root),
        ensures
            fine == expr_fine(*self, root, false),
    {
        self.expr_is_fine(root, false)
    }

    /// Decides `expr_fine`.
    fn expr_is_fine(&self, expr: ExprId, looped: bool) -> (fine: bool)
        requires
            self.wf(),
            self.has_expr(expr),
        ensures
            fine == expr_fine(*self, expr, looped),
        decreases expr.0 as nat, 2nat, 0nat,
    {
        assert(self.body.expr_before(self.body.exprs@[expr.0 as int], expr.0 as nat));
        match &self.body.exprs[expr.0] {
            Partial::Absent => true,
            Partial::Present(data) => match data {
                Expr::Lit(_) => true,
                Expr::Block(stmts) => {
                    proof {
                        rules::lemma_stmts_top_least(*self, stmts@, expr.0 as nat);
                    }
                    self.stmts_are_fine(stmts, looped)
                },
                Expr::Bin(lhs, rhs, _) => self.expr_is_fine(*lhs, looped) && self.expr_is_fine(
                    *rhs,
                    looped,
                ),
                Expr::Un(operand, _) => self.expr_is_fine(*operand, looped),
                Expr::Call(callee, args) => self.expr_is_fine(*callee, looped)
                    && self.exprs_are_fine(args, expr, looped),
                Expr::MethodCall(receiver, _, args) => self.expr_is_fine(*receiver, looped)
                    && self.exprs_are_fine(args, expr, looped),
                Expr::Path(_) => true,
                Expr::RecordInit(_, fields) => self.fields_are_fine(fields, expr, looped),
                Expr::Field(lhs, _) => self.expr_is_fine(*lhs, looped),
                Expr::Tuple(elems) => self.exprs_are_fine(elems, expr, looped),
                Expr::Array(elems) => self.exprs_are_fine(elems, expr, looped),
                Expr::If(cond, then_expr, else_expr) => {
                    let else_fine = match else_expr {
                        Some(other) => self.expr_is_fine(*other, looped),
                        None => true,
                    };
                    self.expr_is_fine(*cond, looped) && self.expr_is_fine(*then_expr, looped)
                        && else_fine
                },
                Expr::Match(scrutinee, arms) => {
                    let arms_fine = match arms {
                        Partial::Present(arms) => self.arms_are_fine(arms, expr, looped),
                        Partial::Absent => true,
                    };
                    self.expr_is_fine(*scrutinee, looped) && arms_fine
                },
                Expr::Assign(target, value) => self.expr_is_fine(*target, looped)
                    && self.expr_is_fine(*value, looped),
                Expr::AugAssign(target, value, _) => self.expr_is_fine(*target, looped)
                    && self.expr_is_fine(*value, looped),
            },
        }
    }

    /// Decides `expr_fine` for expressions that stand in `outer`.
    fn exprs_are_fine(&self, exprs: &Vec<ExprId>, outer: ExprId, looped: bool) -> (fine: bool)
        requires
            self.wf(),
            self.has_expr(outer),
            body::all_before(exprs@, outer.0 as nat),
        ensures
            fine == (forall|i: int|
                0 <= i < exprs@.len() ==> expr_fine(*self, #[trigger] exprs@[i], looped)),
        decreases outer.0 as nat, 1nat, 0nat,
    {
        let mut i: usize = 0;
        while i < exprs.len()
            invariant
                i <= exprs@.len(),
                self.wf(),
                self.has_expr(outer),
                body::all_before(exprs@, outer.0 as nat),
                forall|j: int|
                    0 <= j < i ==> expr_fine(*self, #[trigger] exprs@[j], looped),
            decreases exprs@.len() - i,
        {
            if !self.expr_is_fine(exprs[i], looped) {
                assert(!expr_fine(*self, exprs@[i as int], looped));
                return false;
            }
            i += 1;
        }
        true
    }

    /// Decides `expr_fine` for the values of fields that stand in `outer`.
    fn fields_are_fine(&self, fields: &Vec<FieldInit>, outer: ExprId, looped: bool) -> (fine: bool)
        requires
            self.wf(),
            self.has_expr(outer),
            forall|i: int| 0 <= i < fields@.len() ==> (#[trigger] fields@[i]).expr.0 < outer.0,
        ensures
            fine == (forall|i: int|
                0 <= i < fields@.len() ==> expr_fine(*self, (#[trigger] fields@[i]).expr, looped)),
        decreases outer.0 as nat, 1nat, 0nat,
    {
        let mut i: usize = 0;
        while i < fields.len()
            invariant
                i <= fields@.len(),
                self.wf(),
                self.has_expr(outer),
                forall|j: int| 0 <= j < fields@.len() ==> (#[trigger] fields@[j]).expr.0 < outer.0,
                forall|j: int|
                    0 <= j < i ==> expr_fine(*self, (#[trigger] fields@[j]).expr, looped),
            decreases fields@.len() - i,
        {
            if !self.expr_is_fine(fields[i].expr, looped) {
                assert(!expr_fine(*self, fields@[i as int].expr, looped));
                return false;
            }
            i += 1;
        }
        true
    }

    /// Decides `expr_fine` for the bodies of arms that stand in `outer`.
    fn arms_are_fine(&self, arms: &Vec<MatchArm>, outer: ExprId, looped: bool) -> (fine: bool)
        requires
            self.wf(),
            self.has_expr(outer),
            rules::arms_before(arms@, outer.0 as nat),
        ensures
            fine == (forall|i: int|
                0 <= i < arms@.len() ==> expr_fine(*self, (#[trigger] arms@[i]).body, looped)),
        decreases outer.0 as nat, 1nat, 0nat,
    {
        let mut i: usize = 0;
        while i < arms.len()
            invariant
                i <= arms@.len(),
                self.wf(),
                self.has_expr(outer),
                rules::arms_before(arms@, outer.0 as nat),
                forall|j: int|
                    0 <= j < i ==> expr_fine(*self, (#[trigger] arms@[j]).body, looped),
            decreases arms@.len() - i,
        {
            if !self.expr_is_fine(arms[i].body, looped) {
                assert(!expr_fine(*self, arms@[i as int].body, looped));
                return false;
            }
            i += 1;
        }
        true
    }

    /// Decides `stmts_fine`.
    fn stmts_are_fine(&self, stmts: &Vec<StmtId>, looped: bool) -> (fine: bool)
        requires
            self.wf(),
            self.body.stmts_before(stmts@, self.body.exprs@.len()),
        ensures
            fine == stmts_fine(*self, stmts@, looped),
        decreases rules::stmts_top(*self, stmts@), 1nat, 0nat,
    {
        let mut i: usize = 0;
        while i < stmts.len()
            invariant
                i <= stmts@.len(),
                self.wf(),
                self.body.stmts_before(stmts@, self.body.exprs@.len()),
                forall|j: int| 0 <= j < i ==> stmt_fine(*self, #[trigger] stmts@[j], looped),
            decreases stmts@.len() - i,
        {
            proof {
                rules::lemma_stmts_top(*self, stmts@, i as int);
            }
            if !self.stmt_is_fine(stmts[i], looped) {
                assert(!stmt_fine(*self, stmts@[i as int], looped));
                return false;
            }
            i += 1;
        }
        true
    }

    /// Decides `stmt_fine`.
    fn stmt_is_fine(&self, stmt: StmtId, looped: bool) -> (fine: bool)
        requires
            self.wf(),
            self.has_stmt(stmt),
        ensures
            fine == stmt_fine(*self, stmt, looped),
        decreases body::stmt_top(self.stmt(stmt)), 0nat, 0nat,
    {
        assert(body::stmt_top(self.body.stmts@[stmt.0 as int]) <= self.body.exprs@.len());
        match &self.body.stmts[stmt.0] {
            Partial::Absent => true,
            Partial::Present(data) => match data {
                Stmt::Let(_, _, Some(value)) => self.expr_is_fine(*value, looped),
                Stmt::Let(_, _, None) => true,
                Stmt::For(_, iter, body) => self.is_iterable(*iter) && self.expr_is_fine(
                    *iter,
                    looped,
                ) && self.expr_is_fine(*body, true),
                Stmt::While(cond, body) => self.expr_is_fine(*cond, looped) && self.expr_is_fine(
                    *body,
                    true,
                ),
                Stmt::Continue => looped,
                Stmt::Break => looped,
                Stmt::Return(Some(value)) => self.expr_is_fine(*value, looped),
                Stmt::Return(None) => true,
                Stmt::Expr(expr) => self.expr_is_fine(*expr, looped),
            },
        }
    }

    /// Returns whether a `for` loop can run over an expression.
    fn is_iterable(&self, iter: ExprId) -> (ok: bool)
        requires
            self.wf(),
            self.has_expr(iter),
        ensures
            ok == (rules::iterable(*self, iter) is Some),
    {
        match &self.body.exprs[iter.0] {
            Partial::Present(Expr::Bin(_, _, op)) => matches!(op, BinOp::Index),
            Partial::Present(Expr::Lit(LitKind::Int(_))) => true,
            _ => matches!(
                self.typed_body.types[self.typed_body.exprs[iter.0].ty.0].base,
                TyBase::Prim(PrimTy::Array)
            ),
        }
    }
}

/// An expression that is fine can be lowered, wherever it stands in a loop if it has to.
pub proof fn lemma_lower_expr(
    cx: CheckedBody,
    s: State,
    block: BasicBlockId,
    expr: ExprId,
    looped: bool,
)
    requires
        cx.wf(),
        cx.has_expr(expr),
        expr_fine(cx, expr, looped),
        looped ==> s.loop_stack.len() > 0,
    ensures
        rules::lower_expr(cx, s, block, expr) is Some,
    decreases expr.0 as nat, 4nat, 0nat,
{
    assert(cx.body.expr_before(cx.body.exprs@[expr.0 as int], expr.0 as nat));
    growth::lemma_inits_before(cx, expr);
    if let Some(_) = rules::intrinsic_stmt(cx, s, block, expr) {
    } else if let Some(aggregate) = rules::variant_ctor(cx, expr) {
        assert(inits_fine(cx, aggregate.inits, looped)) by {
            reveal(rules::variant_ctor);
        }
        lemma_lower_aggregate(cx, s, block, expr, aggregate, looped);
    } else if let Some(aggregate) = rules::unit_variant(cx, expr) {
        assert(inits_fine(cx, aggregate.inits, looped)) by {
            reveal(rules::unit_variant);
        }
        lemma_lower_aggregate(cx, s, block, expr, aggregate, looped);
    } else {
        match cx.expr(expr) {
            Partial::Present(Expr::Block(stmts)) => {
                rules::lemma_stmts_top_least(cx, stmts@, expr.0 as nat);
                lemma_lower_stmts(cx, s, block, stmts@, 0, looped);
            },
            Partial::Present(Expr::RecordInit(_, fields)) => {
                let aggregate = rules::record(cx, expr, fields@);
                assert(inits_fine(cx, aggregate.inits, looped)) by {
                    reveal(rules::record);
                }
                lemma_lower_aggregate(cx, s, block, expr, aggregate, looped);
            },
            Partial::Present(Expr::Match(scrutinee, Partial::Present(arms))) => {
                if let Some(patterns) = rules::arm_patterns(cx, arms@) {
                    let (s1, _) = rules::ensure_value(cx, s, expr);
                    growth::lemma_ensure_value(cx, s, expr);
                    lemma_lower_expr(cx, s1, block, scrutinee, looped);
                    growth::lemma_lower_expr(cx, s1, block, scrutinee);
                    let tested = rules::lower_expr(cx, s1, block, scrutinee)->0;
                    lemma_lower_arms(
                        cx,
                        tested.state,
                        expr,
                        arms@,
                        0,
                        None,
                        Seq::empty(),
                        looped,
                    );
                }
            },
            _ => {},
        }
    }
}

/// Whether the parts of an aggregate are fine.
spec fn inits_fine(
    cx: CheckedBody,
    inits: Seq<(ExprId, Option<FieldAccessInfo>)>,
    looped: bool,
) -> bool {
    forall|i: int| 0 <= i < inits.len() ==> expr_fine(cx, (#[trigger] inits[i]).0, looped)
}

/// An aggregate of parts that are fine can be lowered.
proof fn lemma_lower_aggregate(
    cx: CheckedBody,
    s: State,
    block: BasicBlockId,
    expr: ExprId,
    aggregate: Aggregate,
    looped: bool,
)
    requires
        cx.wf(),
        cx.has_expr(expr),
        rules::inits_before(aggregate.inits, expr.0 as nat),
        inits_fine(cx, aggregate.inits, looped),
        looped ==> s.loop_stack.len() > 0,
    ensures
        rules::lower_aggregate(cx, s, block, expr, aggregate) is Some,
    decreases expr.0 as nat, 3nat, aggregate.inits.len() + 1,
{
    reveal(rules::alloc_aggregate);
    reveal(rules::store_discriminant);
    let (s1, base) = rules::alloc_aggregate(cx, s, block, expr, aggregate.size_bytes);
    let s2 = match aggregate.discriminant {
        Some(d) => rules::store_discriminant(cx, s1, block, expr, base, d),
        None => s1,
    };
    lemma_lower_inits(cx, s2, block, expr, base, aggregate.inits, 0, looped);
}

/// Parts that are fine can be computed and stored.
proof fn lemma_lower_inits(
    cx: CheckedBody,
    s: State,
    block: BasicBlockId,
    expr: ExprId,
    base: ValueId,
    inits: Seq<(ExprId, Option<FieldAccessInfo>)>,
    i: nat,
    looped: bool,
)
    requires
        cx.wf(),
        cx.has_expr(expr),
        rules::inits_before(inits, expr.0 as nat),
        inits_fine(cx, inits, looped),
        looped ==> s.loop_stack.len() > 0,
    ensures
        rules::lower_inits(cx, s, block, expr, base, inits, i) is Some,
    decreases expr.0 as nat, 3nat, inits.len() - i,
{
    reveal(rules::store_field);
    if i < inits.len() {
        lemma_lower_expr(cx, s, block, inits[i as int].0, looped);
        growth::lemma_lower_expr(cx, s, block, inits[i as int].0);
        let init = rules::lower_expr(cx, s, block, inits[i as int].0)->0;
        if let Some(next) = init.next {
            let s1 = match inits[i as int].1 {
                Some(info) => rules::store_field(
                    cx,
                    init.state,
                    next,
                    expr,
                    base,
                    info,
                    init.value,
                ),
                None => init.state,
            };
            lemma_lower_inits(cx, s1, next, expr, base, inits, i + 1, looped);
        }
    }
}

/// Arms that are fine can be lowered.
proof fn lemma_lower_arms(
    cx: CheckedBody,
    s: State,
    expr: ExprId,
    arms: Seq<MatchArm>,
    i: nat,
    merge: Option<BasicBlockId>,
    entries: Seq<BasicBlockId>,
    looped: bool,
)
    requires
        cx.wf(),
        cx.has_expr(expr),
        rules::arms_before(arms, expr.0 as nat),
        forall|j: int| 0 <= j < arms.len() ==> expr_fine(cx, (#[trigger] arms[j]).body, looped),
        looped ==> s.loop_stack.len() > 0,
    ensures
        rules::lower_arms(cx, s, expr, arms, i, merge, entries) is Some,
    decreases expr.0 as nat, 3nat, arms.len() - i,
{
    if i < arms.len() {
        let entry = s.next_block();
        let arm_body = arms[i as int].body;
        lemma_lower_expr(cx, s.with_block(), entry, arm_body, looped);
        growth::lemma_lower_expr(cx, s.with_block(), entry, arm_body);
        let arm = rules::lower_expr(cx, s.with_block(), entry, arm_body)->0;
        let (s1, merge1) = rules::meet(arm, merge);
        lemma_lower_arms(cx, s1, expr, arms, i + 1, merge1, entries.push(entry), looped);
    }
}

/// Statements that are fine can be lowered.
pub proof fn lemma_lower_stmts(
    cx: CheckedBody,
    s: State,
    block: BasicBlockId,
    stmts: Seq<StmtId>,
    i: nat,
    looped: bool,
)
    requires
        cx.wf(),
        cx.body.stmts_before(stmts, cx.body.exprs@.len()),
        stmts_fine(cx, stmts, looped),
        looped ==> s.loop_stack.len() > 0,
    ensures
        rules::lower_stmts(cx, s, block, stmts, i) is Some,
    decreases rules::stmts_top(cx, stmts), 3nat, stmts.len() - i,
{
    if i < stmts.len() {
        rules::lemma_stmts_top(cx, stmts, i as int);
        lemma_lower_stmt(cx, s, block, stmts[i as int], looped);
        growth::lemma_lower_stmt(cx, s, block, stmts[i as int]);
        let stmt = rules::lower_stmt(cx, s, block, stmts[i as int])->0;
        if let Some(next) = stmt.next {
            lemma_lower_stmts(cx, stmt.state, next, stmts, i + 1, looped);
        }
    }
}

/// A statement that is fine can be lowered.
pub proof fn lemma_lower_stmt(
    cx: CheckedBody,
    s: State,
    block: BasicBlockId,
    stmt: StmtId,
    looped: bool,
)
    requires
        cx.wf(),
        cx.has_stmt(stmt),
        stmt_fine(cx, stmt, looped),
        looped ==> s.loop_stack.len() > 0,
    ensures
        rules::lower_stmt(cx, s, block, stmt) is Some,
    decreases body::stmt_top(cx.stmt(stmt)), 2nat, 0nat,
{
    assert(body::stmt_top(cx.body.stmts@[stmt.0 as int]) <= cx.body.exprs@.len());
    match cx.stmt(stmt) {
        Partial::Absent => {},
        Partial::Present(data) => match data {
            Stmt::Let(_, _, Some(init)) => lemma_lower_expr(cx, s, block, init, looped),
            Stmt::For(pat, iter, body) => {
                lemma_lower_for(cx, s, block, stmt, pat, iter, body, looped);
            },
            Stmt::While(cond, body) => lemma_lower_while(cx, s, block, cond, body, looped),
            Stmt::Return(Some(value)) => lemma_lower_expr(cx, s, block, value, looped),
            Stmt::Expr(expr) => lemma_lower_expr_stmt(cx, s, block, stmt, expr, looped),
            _ => {},
        },
    }
}

/// A `while` loop that is fine can be lowered.
proof fn lemma_lower_while(
    cx: CheckedBody,
    s: State,
    block: BasicBlockId,
    cond: ExprId,
    body: ExprId,
    looped: bool,
)
    requires
        cx.wf(),
        cx.has_expr(cond),
        cx.has_expr(body),
        expr_fine(cx, cond, looped),
        expr_fine(cx, body, true),
        looped ==> s.loop_stack.len() > 0,
    ensures
        rules::lower_while(cx, s, block, cond, body) is Some,
    decreases rules::pair_top(cond, body), 1nat, 0nat,
{
    let cond_entry = s.next_block();
    let body_block = s.with_block().next_block();
    let exit_block = s.with_block().with_block().next_block();
    let s3 = s.with_block().with_block().with_block().with_terminator(
        block,
        Terminator::Goto { target: cond_entry },
    );
    lemma_lower_expr(cx, s3, cond_entry, cond, looped);
    let tested = rules::lower_expr(cx, s3, cond_entry, cond)->0;
    let scope = LoopScope { continue_target: cond_entry, break_target: exit_block };
    lemma_lower_expr(cx, tested.state.enter_loop(scope), body_block, body, true);
}

/// A `for` loop that is fine can be lowered.
proof fn lemma_lower_for(
    cx: CheckedBody,
    s: State,
    block: BasicBlockId,
    stmt: StmtId,
    pat: PatId,
    iter: ExprId,
    body: ExprId,
    looped: bool,
)
    requires
        cx.wf(),
        cx.has_expr(iter),
        cx.has_expr(body),
        rules::iterable(cx, iter) is Some,
        expr_fine(cx, iter, looped),
        expr_fine(cx, body, true),
        looped ==> s.loop_stack.len() > 0,
    ensures
        rules::lower_for(cx, s, block, stmt, pat, iter, body) is Some,
    decreases rules::pair_top(iter, body), 1nat, 0nat,
{
    assert(cx.body.expr_before(cx.body.exprs@[iter.0 as int], iter.0 as nat));
    match rules::iterable(cx, iter) {
        None => {},
        Some(Iterable::Literal(end)) => {
            let from = rules::start_at_zero(cx, s, block, end);
            lemma_run_loop(cx, from, stmt, pat, iter, None, body, false, looped);
        },
        Some(Iterable::Array(length)) => {
            let from = rules::start_at_zero(cx, s, block, length);
            lemma_run_loop(cx, from, stmt, pat, iter, None, body, true, looped);
        },
        Some(Iterable::Range(start, end)) => {
            lemma_lower_expr(cx, s, block, start, looped);
            growth::lemma_lower_expr(cx, s, block, start);
            let first = rules::lower_expr(cx, s, block, start)->0;
            if let Some(next) = first.next {
                let (from, end_expr) = rules::range_start(cx, first, next, end);
                lemma_run_loop(cx, from, stmt, pat, iter, end_expr, body, false, looped);
            }
        },
    }
}

/// A `for` loop whose end and body are fine can be run.
proof fn lemma_run_loop(
    cx: CheckedBody,
    from: LoopStart,
    stmt: StmtId,
    pat: PatId,
    iter: ExprId,
    end_expr: Option<ExprId>,
    body: ExprId,
    over_array: bool,
    looped: bool,
)
    requires
        cx.wf(),
        cx.has_expr(iter),
        cx.has_expr(body),
        rules::end_before(end_expr, iter),
        end_expr matches Some(end) ==> expr_fine(cx, end, looped),
        expr_fine(cx, body, true),
        looped ==> from.state.loop_stack.len() > 0,
    ensures
        rules::run_loop(cx, from, stmt, pat, iter, end_expr, body, over_array) is Some,
    decreases rules::pair_top(iter, body), 0nat, 0nat,
{
    reveal(rules::open_loop);
    let (s1, blocks) = rules::open_loop(
        cx,
        from.state,
        from.block,
        from.start,
        stmt,
        pat,
        over_array,
    );
    match end_expr {
        Some(end) => {
            lemma_lower_expr(cx, s1, blocks.cond_entry, end, looped);
            let bound = rules::lower_expr(cx, s1, blocks.cond_entry, end)->0;
            let (s2, _) = rules::test_variable(
                cx,
                bound.state,
                blocks,
                pat,
                iter,
                bound.value,
                over_array,
            );
            lemma_lower_expr(cx, rules::in_loop(s2, blocks), blocks.body_block, body, true);
        },
        None => {
            let (s2, _) = rules::test_variable(
                cx,
                s1,
                blocks,
                pat,
                iter,
                from.end->0,
                over_array,
            );
            lemma_lower_expr(cx, rules::in_loop(s2, blocks), blocks.body_block, body, true);
        },
    }
}

/// An `if` whose parts are fine can be lowered.
proof fn lemma_lower_if(
    cx: CheckedBody,
    s: State,
    block: BasicBlockId,
    if_expr: ExprId,
    cond: ExprId,
    then_expr: ExprId,
    else_expr: Option<ExprId>,
    looped: bool,
)
    requires
        cx.wf(),
        cx.has_expr(if_expr),
        rules::if_top(cond, then_expr, else_expr) <= cx.body.exprs@.len(),
        expr_fine(cx, cond, looped),
        expr_fine(cx, then_expr, looped),
        else_expr matches Some(e) ==> expr_fine(cx, e, looped),
        looped ==> s.loop_stack.len() > 0,
    ensures
        rules::lower_if(cx, s, block, if_expr, cond, then_expr, else_expr) is Some,
    decreases rules::if_top(cond, then_expr, else_expr), 1nat, 0nat,
{
    reveal(rules::open_if);
    lemma_lower_expr(cx, s, block, cond, looped);
    growth::lemma_lower_expr(cx, s, block, cond);
    let tested = rules::lower_expr(cx, s, block, cond)->0;
    if let Some(header) = tested.next {
        let (s4, then_block, merge_block, else_block) = rules::open_if(
            tested.state,
            header,
            tested.value,
            else_expr is Some,
        );
        lemma_lower_expr(cx, s4, then_block, then_expr, looped);
        growth::lemma_lower_expr(cx, s4, then_block, then_expr);
        let then_end = rules::lower_expr(cx, s4, then_block, then_expr)->0;
        let s5 = rules::join(then_end.state, then_end.next, merge_block);
        if let Some(else_expr) = else_expr {
            lemma_lower_expr(cx, s5, else_block, else_expr, looped);
        }
    }
}

/// An expression in statement position that is fine can be lowered.
pub proof fn lemma_lower_expr_stmt(
    cx: CheckedBody,
    s: State,
    block: BasicBlockId,
    stmt: StmtId,
    expr: ExprId,
    looped: bool,
)
    requires
        cx.wf(),
        cx.has_expr(expr),
        expr_fine(cx, expr, looped),
        looped ==> s.loop_stack.len() > 0,
    ensures
        rules::lower_expr_stmt(cx, s, block, stmt, expr) is Some,
    decreases expr.0 as nat, 5nat, 0nat,
{
    assert(cx.body.expr_before(cx.body.exprs@[expr.0 as int], expr.0 as nat));
    match cx.expr(expr) {
        Partial::Absent => {},
        Partial::Present(Expr::Assign(_, value)) => lemma_lower_expr(cx, s, block, value, looped),
        Partial::Present(Expr::If(cond, then_expr, else_expr)) => {
            lemma_lower_if(cx, s, block, expr, cond, then_expr, else_expr, looped);
        },
        Partial::Present(Expr::AugAssign(_, value, _)) => {
            lemma_lower_expr(cx, s, block, value, looped);
        },
        Partial::Present(_) => lemma_lower_expr(cx, s, block, expr, looped),
    }
}

/// A body can be lowered if, in its root, every `break` and `continue` stands in a loop and every
/// `for` loop runs over a range, an integer literal or an array.
pub proof fn lemma_lower_root(cx: CheckedBody, s: State, block: BasicBlockId, expr: ExprId)
    requires
        cx.wf(),
        cx.has_expr(expr),
        expr_fine(cx, expr, false),
    ensures
        rules::lower_root(cx, s, block, expr) is Some,
{
    assert(cx.body.expr_before(cx.body.exprs@[expr.0 as int], expr.0 as nat));
    match cx.expr(expr) {
        Partial::Present(Expr::Block(stmts)) => {
            rules::lemma_stmts_top_least(cx, stmts@, expr.0 as nat);
            lemma_lower_stmts(cx, s, block, stmts@, 0, false);
        },
        _ => lemma_lower_expr(cx, s, block, expr, false),
    }
}

/// Whether a `for` loop can run over an expression: over a range, an integer literal or an array.
pub open spec fn can_run_over(cx: CheckedBody, iter: ExprId) -> bool {
    match cx.expr(iter) {
        Partial::Present(Expr::Bin(_, _, op)) => op == BinOp::Index,
        Partial::Present(Expr::Lit(LitKind::Int(_))) => true,
        _ => cx.typed_body.types@[cx.typed_body.exprs@[iter.0 as int].ty.0 as int].base
            == TyBase::Prim(PrimTy::Array),
    }
}

/// Whether every `for` loop of a body runs over something that it can run over.
pub open spec fn loops_can_run(cx: CheckedBody) -> bool {
    forall|i: int|
        0 <= i < cx.body.stmts@.len() ==> (#[trigger] cx.body.stmts@[i] matches Partial::Present(
            Stmt::For(_, iter, _),
        ) ==> can_run_over(cx, iter))
}

/// Whether a body has neither `break` nor `continue`.
pub open spec fn never_jumps(cx: CheckedBody) -> bool {
    forall|i: int|
        0 <= i < cx.body.stmts@.len() ==> #[trigger] cx.body.stmts@[i] != Partial::Present(
            Stmt::Break,
        ) && cx.body.stmts@[i] != Partial::Present(Stmt::Continue)
}

/// A body is refused for nothing but a loop that cannot run and a jump out of no loop: where every
/// `for` loop can run, every expression inside of a loop is fine, and so is every other one if the
/// body never jumps.
pub proof fn lemma_fine(cx: CheckedBody, expr: ExprId, looped: bool)
    requires
        cx.wf(),
        cx.has_expr(expr),
        loops_can_run(cx),
        looped || never_jumps(cx),
    ensures
        expr_fine(cx, expr, looped),
    decreases expr.0 as nat, 2nat,
{
    assert(cx.body.expr_before(cx.body.exprs@[expr.0 as int], expr.0 as nat));
    if let Partial::Present(data) = cx.expr(expr) {
        match data {
            Expr::Block(stmts) => {
                rules::lemma_stmts_top_least(cx, stmts@, expr.0 as nat);
                assert forall|i: int| 0 <= i < stmts@.len() implies stmt_fine(
                    cx,
                    #[trigger] stmts@[i],
                    looped,
                ) by {
                    rules::lemma_stmts_top(cx, stmts@, i);
                    lemma_stmt_fine(cx, stmts@[i], looped);
                }
                assert(cx.body.stmts_before(stmts@, cx.body.exprs@.len()));
                assert(stmts_fine(cx, stmts@, looped));
            },
            Expr::Bin(lhs, rhs, _) => {
                lemma_fine(cx, lhs, looped);
                lemma_fine(cx, rhs, looped);
            },
            Expr::Un(operand, _) => lemma_fine(cx, operand, looped),
            Expr::Call(first, args) => {
                lemma_fine(cx, first, looped);
                assert forall|i: int| 0 <= i < args@.len() implies expr_fine(
                    cx,
                    args@[i],
                    looped,
                ) by {
                    lemma_fine(cx, args@[i], looped);
                }
            },
            Expr::MethodCall(first, _, args) => {
                lemma_fine(cx, first, looped);
                assert forall|i: int| 0 <= i < args@.len() implies expr_fine(
                    cx,
                    args@[i],
                    looped,
                ) by {
                    lemma_fine(cx, args@[i], looped);
                }
            },
            Expr::RecordInit(_, fields) => {
                assert forall|i: int| 0 <= i < fields@.len() implies expr_fine(
                    cx,
                    fields@[i].expr,
                    looped,
                ) by {
                    lemma_fine(cx, fields@[i].expr, looped);
                }
            },
            Expr::Field(lhs, _) => lemma_fine(cx, lhs, looped),
            Expr::Tuple(elems) => {
                assert forall|i: int| 0 <= i < elems@.len() implies expr_fine(
                    cx,
                    elems@[i],
                    looped,
                ) by {
                    lemma_fine(cx, elems@[i], looped);
                }
            },
            Expr::Array(elems) => {
                assert forall|i: int| 0 <= i < elems@.len() implies expr_fine(
                    cx,
                    elems@[i],
                    looped,
                ) by {
                    lemma_fine(cx, elems@[i], looped);
                }
            },
            Expr::If(cond, then_expr, else_expr) => {
                lemma_fine(cx, cond, looped);
                lemma_fine(cx, then_expr, looped);
                if let Some(other) = else_expr {
                    lemma_fine(cx, other, looped);
                }
            },
            Expr::Match(scrutinee, arms) => {
                lemma_fine(cx, scrutinee, looped);
                if let Partial::Present(arms) = arms {
                    assert forall|i: int| 0 <= i < arms@.len() implies expr_fine(
                        cx,
                        arms@[i].body,
                        looped,
                    ) by {
                        lemma_fine(cx, arms@[i].body, looped);
                    }
                }
            },
            Expr::Assign(target, value) => {
                lemma_fine(cx, target, looped);
                lemma_fine(cx, value, looped);
            },
            Expr::AugAssign(target, value, _) => {
                lemma_fine(cx, target, looped);
                lemma_fine(cx, value, looped);
            },
            _ => {},
        }
    }
}

/// `lemma_fine` for a statement.
proof fn lemma_stmt_fine(cx: CheckedBody, stmt: StmtId, looped: bool)
    requires
        cx.wf(),
        cx.has_stmt(stmt),
        loops_can_run(cx),
        looped || never_jumps(cx),
    ensures
        stmt_fine(cx, stmt, looped),
    decreases body::stmt_top(cx.stmt(stmt)), 0nat,
{
    assert(body::stmt_top(cx.body.stmts@[stmt.0 as int]) <= cx.body.exprs@.len());
    if let Partial::Present(data) = cx.stmt(stmt) {
        match data {
            Stmt::Let(_, _, Some(value)) => lemma_fine(cx, value, looped),
            Stmt::For(_, iter, body) => {
                assert(can_run_over(cx, iter));
                lemma_fine(cx, iter, looped);
                lemma_fine(cx, body, true);
            },
            Stmt::While(cond, body) => {
                lemma_fine(cx, cond, looped);
                lemma_fine(cx, body, true);
            },
            Stmt::Return(Some(value)) => lemma_fine(cx, value, looped),
            Stmt::Expr(expr) => lemma_fine(cx, expr, looped),
            _ => {},
        }
    }
}

/// In the body of a loop, `break` and `continue` are fine, whatever is around the loop.
pub proof fn lemma_loop_body_fine(cx: CheckedBody, stmt: StmtId, looped: bool)
    requires
        cx.wf(),
        cx.has_stmt(stmt),
    ensures
        cx.stmt(stmt) matches Partial::Present(Stmt::While(cond, body)) ==> (stmt_fine(
            cx,
            stmt,
            looped,
        ) <==> expr_fine(cx, cond, looped) && expr_fine(cx, body, true)),
        cx.stmt(stmt) matches Partial::Present(Stmt::For(_, iter, body)) ==> (stmt_fine(
            cx,
            stmt,
            looped,
        ) <==> can_run_over(cx, iter) && expr_fine(cx, iter, looped) && expr_fine(cx, body, true)),
        cx.stmt(stmt) == Partial::Present(Stmt::Break) ==> (stmt_fine(cx, stmt, looped)
            <==> looped),
        cx.stmt(stmt) == Partial::Present(Stmt::Continue) ==> (stmt_fine(cx, stmt, looped)
            <==> looped),
{
}

} // verus!
