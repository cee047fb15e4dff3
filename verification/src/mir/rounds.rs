//! How loops run once they are lowered.
//!
//! The laws here relate the lowering of a loop to the lowering of its test and its body: control
//! comes to the test, from there to a round or to the exit, and from the end of a round back to
//! the test.

use vstd::prelude::*;

use crate::hir::body;
use crate::hir::body::{ArithBinOp, BinOp, CompBinOp, Expr, LitKind, Partial, Stmt, Word};
use crate::hir::ids::{ExprId, PatId, StmtId};
use crate::hir::typed;
use crate::hir::typed::{LocalBinding, PrimTy, References, TyBase};
use crate::mir::effects;
use crate::mir::flow;
use crate::mir::frame;
use crate::mir::growth;
use crate::mir::input::CheckedBody;
use crate::mir::ir::{
    BasicBlockId, InstModel, LoopInfo, LoopScope, MirInst, SwitchTarget, SyntheticValue,
    Terminator, ValueId, ValueOrigin,
};
use crate::mir::laws;
use crate::mir::loops;
use crate::mir::loops::{LoopPlan, Passage};
use crate::mir::meaning;
use crate::mir::paths;
use crate::mir::paths::Run;
use crate::mir::rules;
use crate::mir::rules::LoopStart;
use crate::mir::sound;
use crate::mir::state;
use crate::mir::state::State;

verus! {

/// A loop: the block in which its test begins and the one in which it ends, the value that the
/// test yields, the block in which a round begins, the body, and the exit.
pub struct Loop {
    pub test_entry: BasicBlockId,
    pub header: BasicBlockId,
    pub test: ValueId,
    pub round_entry: BasicBlockId,
    pub round: Run,
    pub exit: BasicBlockId,
}

/// Whether `t` holds what `run` lowered, up to where it goes on.
pub open spec fn holds_inside(t: State, run: Run) -> bool {
    &&& run.entry.0 < run.end.state.blocks.len() <= t.blocks.len()
    &&& run.end.next matches Some(end) ==> end == run.entry || run.start.blocks.len() <= end.0
        < run.end.state.blocks.len()
    &&& frame::keeps_values(run.end.state, t)
    &&& forall|b: int|
        #![trigger t.blocks[b]]
        (b == run.entry.0 || run.start.blocks.len() <= b < run.end.state.blocks.len())
            && !paths::goes_on_in(run, b) ==> t.blocks[b] == run.end.state.blocks[b]
}

/// Whether, from `s` to `t`, a loop over `body` begins at the end of `block`. Control comes to the
/// test, from the end of the test to a round if the test holds and to the exit otherwise, and from
/// the end of a round back to the test. Inside the body, `continue` leads to the test and `break`
/// to the exit, which is new and empty.
pub open spec fn is_closed(
    cx: CheckedBody,
    s: State,
    block: BasicBlockId,
    body: ExprId,
    t: State,
    lp: Loop,
) -> bool {
    &&& t.blocks[block.0 as int].terminator == Some(
        Terminator::<Seq<SwitchTarget>>::Goto { target: lp.test_entry },
    )
    &&& t.blocks[lp.header.0 as int].terminator == Some(
        Terminator::<Seq<SwitchTarget>>::Branch {
            cond: lp.test,
            then_bb: lp.round_entry,
            else_bb: lp.exit,
        },
    )
    &&& lp.round_entry != lp.round.entry ==> t.blocks[lp.round_entry.0 as int].terminator == Some(
        Terminator::<Seq<SwitchTarget>>::Goto { target: lp.round.entry },
    )
    &&& paths::is_run(cx, lp.round, body)
    &&& paths::begins_new(s, lp.round)
    &&& holds_inside(t, lp.round)
    &&& paths::leads_on(t, lp.round, lp.test_entry)
    &&& lp.round.start.loop_stack == s.loop_stack.push(
        LoopScope { continue_target: lp.test_entry, break_target: lp.exit },
    )
    &&& t.loop_stack == s.loop_stack
    &&& s.blocks.len() <= lp.test_entry.0 < t.blocks.len()
    &&& s.blocks.len() <= lp.exit.0 < t.blocks.len()
    &&& t.blocks[lp.exit.0 as int] == state::open_block()
    &&& lp.test_entry != lp.round.entry
    &&& lp.test_entry != lp.exit
    &&& lp.exit != lp.round.entry
    &&& t.loop_headers.contains_key(lp.test_entry.0)
    &&& t.loop_headers[lp.test_entry.0] == (LoopInfo {
        body: lp.round_entry,
        exit: lp.exit,
        backedge: lp.round.end.next,
    })
}

/// The states on the way through a loop are held in the one after it.
proof fn lemma_passed(p: Passage, plan: LoopPlan)
    requires
        loops::passes(p, plan),
        forall|i: int|
            p.before.blocks.len() <= i < p.opened.blocks.len() ==> (
            #[trigger] p.opened.blocks[i]).insts.len() == 0,
    ensures
        ({
            let t = loops::closed_loop(plan, p.stepped);
            &&& t.blocks.len() == p.round.blocks.len()
            &&& p.opened.blocks.len() <= p.tested.blocks.len() <= p.round.blocks.len()
            &&& p.prepared.blocks.len() == p.tested.blocks.len()
            &&& plan.header == plan.cond_entry || p.opened.blocks.len() <= plan.header.0
                < p.tested.blocks.len()
            &&& plan.body_end matches Some(end) ==> end == plan.body_block
                || p.prepared.blocks.len() <= end.0 < p.round.blocks.len()
            &&& t.blocks[plan.exit_block.0 as int] == state::open_block()
            &&& p.prepared.blocks[plan.body_block.0 as int] == state::open_block()
            &&& forall|b: int|
                #![trigger t.blocks[b]]
                b == plan.cond_entry.0 || p.opened.blocks.len() <= b < p.tested.blocks.len() ==> {
                    &&& t.blocks[b].insts == p.tested.blocks[b].insts
                    &&& b != plan.header.0 ==> t.blocks[b] == p.tested.blocks[b]
                }
            &&& forall|b: int|
                #![trigger t.blocks[b]]
                (b == plan.body_block.0 || p.prepared.blocks.len() <= b < p.round.blocks.len())
                    && (plan.body_end is None || b != (plan.body_end->0).0) ==> t.blocks[b]
                    == p.round.blocks[b]
            &&& t.loop_stack == p.before.loop_stack
            &&& frame::keeps_values(p.tested, t)
            &&& frame::keeps_values(p.round, t)
            &&& frame::keeps_values(p.before, p.prepared)
            &&& p.prepared.loop_stack == p.before.loop_stack
        }),
{
    reveal(frame::step);
    let t = loops::closed_loop(plan, p.stepped);
    let scope = LoopScope { continue_target: plan.cond_entry, break_target: plan.exit_block };
    let entered = p.prepared.enter_loop(scope);
    let x = plan.exit_block.0 as int;
    let y = plan.body_block.0 as int;
    assert(p.opened.blocks[x].insts.len() == 0 && p.opened.blocks[y].insts.len() == 0);
    assert(p.opened.blocks[x] =~= state::open_block());
    assert(p.opened.blocks[y] =~= state::open_block());
    assert(p.tested.blocks[x] == p.opened.blocks[x]);
    assert(p.tested.blocks[y] == p.opened.blocks[y]);
    assert(p.prepared.blocks[x] == p.tested.blocks[x]);
    assert(p.prepared.blocks[y] == p.tested.blocks[y]);
    assert(p.round.blocks[x] == entered.blocks[x]);
    assert(plan.body_end is Some ==> p.stepped.blocks[x] == p.round.blocks[x]);
    assert forall|b: int|
        #![trigger t.blocks[b]]
        b == plan.cond_entry.0 || p.opened.blocks.len() <= b < p.tested.blocks.len() implies {
        &&& t.blocks[b].insts == p.tested.blocks[b].insts
        &&& b != plan.header.0 ==> t.blocks[b] == p.tested.blocks[b]
    } by {
        assert(p.prepared.blocks[b] == p.tested.blocks[b]);
        assert(p.round.blocks[b] == entered.blocks[b]);
        assert(plan.body_end is Some ==> p.stepped.blocks[b] == p.round.blocks[b]);
    }
    assert forall|b: int|
        #![trigger t.blocks[b]]
        (b == plan.body_block.0 || p.prepared.blocks.len() <= b < p.round.blocks.len()) && (
        plan.body_end is None || b != (plan.body_end->0).0) implies t.blocks[b]
        == p.round.blocks[b] by {
        assert(plan.body_end is Some ==> p.stepped.blocks[b] == p.round.blocks[b]);
    }
    assert(p.prepared.loop_stack.push(scope).drop_last() =~= p.prepared.loop_stack);
    frame::lemma_keeps_values_trans(p.before, p.opened, p.tested);
    frame::lemma_keeps_values_trans(p.before, p.tested, p.prepared);
    frame::lemma_keeps_values_trans(p.tested, p.prepared, entered);
    frame::lemma_keeps_values_trans(p.tested, entered, p.round);
    frame::lemma_keeps_values_trans(p.tested, p.round, p.stepped);
    frame::lemma_keeps_values_trans(p.tested, p.stepped, t);
    frame::lemma_keeps_values_trans(p.round, p.stepped, t);
}

/// From `s` to `t`, a loop is entered, and nothing else changes.
pub open spec fn enters(s: State, t: State) -> bool {
    &&& t.blocks == s.blocks
    &&& t.values == s.values
    &&& t.expr_values == s.expr_values
    &&& t.loop_headers == s.loop_headers
    &&& t.array_index_info == s.array_index_info
    &&& t.value_spaces == s.value_spaces
    &&& t.pat_spaces == s.pat_spaces
}

/// From `s` to `t`, what is known of expressions and of variables stays.
pub open spec fn leaves(s: State, t: State) -> bool {
    &&& t.expr_values == s.expr_values
    &&& t.array_index_info == s.array_index_info
    &&& t.value_spaces == s.value_spaces
    &&& t.pat_spaces == s.pat_spaces
}

// While loops.

/// Whether, from `s` to `t`, a `while` loop runs: its test is the condition, on whose value it
/// branches, and a round is its body and nothing else.
pub open spec fn is_while(
    cx: CheckedBody,
    s: State,
    block: BasicBlockId,
    cond: ExprId,
    body: ExprId,
    t: State,
    tested: Run,
    lp: Loop,
) -> bool {
    &&& is_closed(cx, s, block, body, t, lp)
    &&& t.blocks[block.0 as int].insts == s.blocks[block.0 as int].insts
    &&& paths::is_run(cx, tested, cond)
    &&& paths::begins_new(s, tested)
    &&& paths::holds_run(t, tested)
    &&& tested.entry == lp.test_entry
    &&& tested.end.next == Some(lp.header)
    &&& tested.end.value == lp.test
    &&& lp.round_entry == lp.round.entry
    &&& paths::holds_run(t, lp.round)
    &&& paths::changes_blocks(s, tested.start)
    &&& enters(tested.end.state, lp.round.start)
    &&& leaves(lp.round.end.state, t)
    &&& t.values == lp.round.end.state.values
}

/// A `while` loop tests its condition before every round, runs its body as long as the condition
/// holds, and goes on at its exit. Where control does not come out of the condition, no round
/// follows.
pub proof fn lemma_while_runs(
    cx: CheckedBody,
    s: State,
    block: BasicBlockId,
    stmt: StmtId,
    cond: ExprId,
    body: ExprId,
)
    requires
        cx.wf(),
        cx.has_stmt(stmt),
        cx.stmt(stmt) == Partial::Present(Stmt::While(cond, body)),
        block.0 < s.blocks.len(),
        sound::sound(s),
    ensures
        rules::lower_stmt(cx, s, block, stmt) matches Some(l) ==> frame::fits(l.state) ==> {
            &&& l.value is None
            &&& l.next is Some ==> exists|tested: Run, lp: Loop| #[trigger]
                is_while(cx, s, block, cond, body, l.state, tested, lp) && l.next == Some(lp.exit)
            &&& l.next is None ==> exists|tested: Run|
                {
                    &&& #[trigger] paths::is_run(cx, tested, cond)
                    &&& paths::begins_new(s, tested)
                    &&& tested.end.next is None
                    &&& l.state == tested.end.state
                    &&& tested.start.blocks[block.0 as int].terminator == Some(
                        Terminator::<Seq<SwitchTarget>>::Goto { target: tested.entry },
                    )
                }
        },
{
    assert(body::stmt_top(cx.body.stmts@[stmt.0 as int]) <= cx.body.exprs@.len());
    if let Some(l) = rules::lower_stmt(cx, s, block, stmt) {
        if frame::fits(l.state) {
            laws::lemma_lower_while(cx, s, block, cond, body);
            let opened = laws::while_opened(s, block);
            let tested = laws::while_tested(cx, s, block, cond)->0;
            let round = laws::while_round(cx, s, tested, body)->0;
            let plan = laws::while_plan(s, block, tested, round);
            growth::lemma_lower_while(cx, s, block, cond, body);
            growth::lemma_lower_expr(cx, opened, plan.cond_entry, cond);
            let scope = LoopScope {
                continue_target: plan.cond_entry,
                break_target: plan.exit_block,
            };
            let entered = tested.state.enter_loop(scope);
            if tested.next is Some {
                growth::lemma_lower_expr(cx, entered, plan.body_block, body);
            }
            let s1 = s.with_block();
            let s2 = s1.with_block();
            let s3 = s2.with_block();
            sound::lemma_with_block(s);
            sound::lemma_with_block(s1);
            sound::lemma_with_block(s2);
            sound::lemma_with_terminator(
                s3,
                block,
                Terminator::Goto { target: plan.cond_entry },
            );
            laws::lemma_lower_expr(cx, opened, plan.cond_entry, cond);
            let first = Run { start: opened, entry: plan.cond_entry, end: tested };
            assert(opened.blocks[plan.cond_entry.0 as int] == state::open_block());
            assert(frame::keeps_values(s, opened));
            assert(paths::is_run(cx, first, cond));
            assert(paths::begins_new(s, first));
            if let Some(header) = tested.next {
                flow::lemma_next_known(opened, plan.cond_entry, tested.state, header);
                sound::lemma_enter_loop(tested.state, scope);
                laws::lemma_lower_expr(cx, entered, plan.body_block, body);
                let p = Passage {
                    before: s,
                    opened,
                    tested: tested.state,
                    prepared: tested.state,
                    round: round.state,
                    stepped: round.state,
                };
                assert(loops::opens(s, plan, opened)) by {
                    let insts = s.blocks[block.0 as int].insts;
                    assert(insts =~= insts.subrange(0, insts.len() as int));
                }
                if let Some(end) = round.next {
                    flow::lemma_next_known(entered, plan.body_block, round.state, end);
                    flow::lemma_rest(round.state, end);
                }
                lemma_passed(p, plan);
                loops::lemma_is_loop(p, plan);
                laws::lemma_closed_loop(plan, round.state);
                assert(loops::closed_loop(plan, round.state) == l.state);
                let lp = Loop {
                    test_entry: plan.cond_entry,
                    header,
                    test: tested.value,
                    round_entry: plan.body_block,
                    round: Run { start: entered, entry: plan.body_block, end: round },
                    exit: plan.exit_block,
                };
                frame::lemma_keeps_values_trans(s, tested.state, entered);
                assert(is_closed(cx, s, block, body, l.state, lp));
                assert(is_while(cx, s, block, cond, body, l.state, first, lp));
            }
        }
    }
}

// For loops.

/// Whether `expr` is the first reference to a binding: the first of the references that are listed
/// for it.
pub open spec fn is_first_reference(
    cx: CheckedBody,
    binding: LocalBinding,
    expr: ExprId,
) -> bool {
    let table = cx.typed_body.references@;
    exists|i: int|
        {
            &&& 0 <= i < table.len()
            &&& #[trigger] table[i].binding == binding
            &&& table[i].exprs@.len() > 0
            &&& table[i].exprs@[0] == expr
            &&& forall|j: int|
                0 <= j < i && #[trigger] table[j].binding == binding ==> table[j].exprs@.len()
                    == 0
        }
}

/// The first use of a variable is the first reference to what its pattern binds.
pub proof fn lemma_first_use(cx: CheckedBody, pat: PatId)
    ensures
        cx.typed_body.first_use(pat) matches Some(expr) ==> pat.0 < cx.typed_body.pats@.len()
            && cx.typed_body.pats@[pat.0 as int].binding is Some && is_first_reference(
            cx,
            cx.typed_body.pats@[pat.0 as int].binding->0,
            expr,
        ),
        cx.typed_body.first_use(pat) is None && pat.0 < cx.typed_body.pats@.len()
            ==> (cx.typed_body.pats@[pat.0 as int].binding matches Some(binding)
            ==> forall|i: int|
            0 <= i < cx.typed_body.references@.len()
                && #[trigger] cx.typed_body.references@[i].binding == binding ==> cx.typed_body.references@[i].exprs@.len() == 0),
{
    if pat.0 < cx.typed_body.pats@.len() {
        if let Some(binding) = cx.typed_body.pats@[pat.0 as int].binding {
            lemma_first_reference(
                cx.typed_body.references@,
                binding,
                cx.typed_body.references@.len(),
            );
        }
    }
}

/// The first reference to a binding in a table stands in the first entry that has any.
proof fn lemma_first_reference(table: Seq<References>, binding: LocalBinding, n: nat)
    requires
        n <= table.len(),
    ensures
        match typed::first_reference_in(table, binding, n) {
            Some(expr) => exists|i: int|
                {
                    &&& 0 <= i < n
                    &&& #[trigger] table[i].binding == binding
                    &&& table[i].exprs@.len() > 0
                    &&& table[i].exprs@[0] == expr
                    &&& forall|j: int|
                        0 <= j < i && #[trigger] table[j].binding == binding
                            ==> table[j].exprs@.len() == 0
                },
            None => forall|j: int|
                0 <= j < n && #[trigger] table[j].binding == binding ==> table[j].exprs@.len()
                    == 0,
        },
    decreases n,
{
    if n > 0 {
        lemma_first_reference(table, binding, (n - 1) as nat);
        if typed::first_reference_in(table, binding, (n - 1) as nat) is None
            && typed::first_reference_in(table, binding, n) is Some {
            assert(table[n - 1].binding == binding);
        }
    }
}

/// Whether a value is what the variable of a pattern holds: the value of the variable's first use
/// or, without one, a value that stands for the variable.
pub open spec fn is_held(
    cx: CheckedBody,
    s: State,
    t: State,
    pat: PatId,
    value: ValueId,
) -> bool {
    &&& value.0 < t.values.len()
    &&& match cx.typed_body.first_use(pat) {
        Some(expr) => rules::ensure_value(cx, s, expr).1 == value,
        None => t.values[value.0 as int].origin == ValueOrigin::<Seq<ValueId>>::Synthetic(
            SyntheticValue::Variable(pat),
        ) && t.values[value.0 as int].ty == if pat.0 < cx.typed_body.pats@.len() {
            cx.typed_body.pats@[pat.0 as int].ty
        } else {
            cx.typed_body.u256_ty
        },
    }
}

/// Whether a value says whether the variable of a pattern is less than `end`.
pub open spec fn is_less(
    cx: CheckedBody,
    s: State,
    t: State,
    pat: PatId,
    end: ValueId,
    test: ValueId,
) -> bool {
    let data = t.values[test.0 as int];
    &&& test.0 < t.values.len()
    &&& data.ty == cx.typed_body.bool_ty
    &&& data.origin is Synthetic
    &&& data.origin->Synthetic_0 is Comparison
    &&& data.origin->Synthetic_0->Comparison_op == CompBinOp::Lt
    &&& data.origin->Synthetic_0->Comparison_right == end
    &&& is_held(cx, s, t, pat, data.origin->Synthetic_0->Comparison_left)
}

/// Whether an instruction adds one to the variable of a pattern: through its first use where that
/// is a path, and directly otherwise.
pub open spec fn adds_one(
    cx: CheckedBody,
    t: State,
    inst: InstModel,
    stmt: StmtId,
    pat: PatId,
) -> bool {
    let through = cx.typed_body.first_use(pat) is Some && (cx.expr(
        cx.typed_body.first_use(pat)->0,
    ) matches Partial::Present(Expr::Path(_)));
    match inst {
        MirInst::AugAssign { stmt: by, target, value, op } => by == stmt && through
            && cx.typed_body.first_use(pat) == Some(target) && op == ArithBinOp::Add
            && meaning::is_constant(cx, t, value, 1),
        MirInst::AugAssignVariable { stmt: by, pat: variable, value, op } => by == stmt
            && !through && variable == pat && op == ArithBinOp::Add && meaning::is_constant(
            cx,
            t,
            value,
            1,
        ),
        _ => false,
    }
}

/// Whether, from the end of a block on, a counting loop runs from `start`, whose first state is
/// `opened`. The variable is declared as `start`, and lives where that lives. The test is whether
/// the variable is less than the end, which is known before the loop or else is evaluated in the
/// test. A round that comes to its end adds one to the variable.
pub open spec fn counts(
    cx: CheckedBody,
    from: LoopStart,
    stmt: StmtId,
    pat: PatId,
    end_expr: Option<ExprId>,
    body: ExprId,
    t: State,
    opened: State,
    lp: Loop,
) -> bool {
    let s = from.state;
    &&& is_closed(cx, s, from.block, body, t, lp)
    &&& frame::keeps_values(s, t)
    &&& t.blocks[from.block.0 as int].insts == s.blocks[from.block.0 as int].insts.push(
        MirInst::Let { stmt, pat, ty: None, value: Some(from.start) },
    )
    &&& effects::moves(s, pat, meaning::home(cx, s, from.start), opened)
    &&& effects::keeps_rest(s, opened)
    &&& leaves(lp.round.end.state, t)
    &&& match end_expr {
        None => {
            &&& lp.header == lp.test_entry
            &&& t.blocks[lp.test_entry.0 as int].insts.len() == 0
            &&& is_less(cx, opened, t, pat, from.end->0, lp.test)
            &&& lp.round.start.pat_spaces == opened.pat_spaces
            &&& lp.round_entry == lp.round.entry ==> meaning::keeps_known(opened, lp.round.start)
        },
        Some(end) => {
            let tested = Run {
                start: opened,
                entry: lp.test_entry,
                end: rules::lower_expr(cx, opened, lp.test_entry, end)->0,
            };
            &&& paths::is_run(cx, tested, end)
            &&& paths::begins_new(s, tested)
            &&& paths::holds_run(t, tested)
            &&& tested.end.next == Some(lp.header)
            &&& is_less(cx, tested.end.state, t, pat, tested.end.value, lp.test)
            &&& lp.round.start.pat_spaces == tested.end.state.pat_spaces
            &&& lp.round_entry == lp.round.entry ==> meaning::keeps_known(
                tested.end.state,
                lp.round.start,
            )
        },
    }
    &&& lp.round.end.next matches Some(e) ==> {
        let inst = t.blocks[e.0 as int].insts.last();
        &&& t.blocks[e.0 as int].insts == lp.round.end.state.blocks[e.0 as int].insts.push(inst)
        &&& adds_one(cx, t, inst, stmt, pat)
    }
}

/// Whether the expression at a position indexes into `array` with the variable of a pattern.
pub open spec fn is_indexing(cx: CheckedBody, array: ExprId, pat: PatId, i: int) -> bool {
    &&& 0 <= i < cx.body.exprs@.len()
    &&& pat.0 < cx.typed_body.pats@.len()
    &&& cx.typed_body.pats@[pat.0 as int].binding is Some
    &&& cx.body.exprs@[i] matches Partial::Present(Expr::Bin(lhs, rhs, op)) && op
        == BinOp::Index && lhs == array && cx.typed_body.exprs@[rhs.0 as int].binding
        == cx.typed_body.pats@[pat.0 as int].binding
}

/// The first expression that indexes into an array with a variable is found.
proof fn lemma_indexing(cx: CheckedBody, array: ExprId, pat: PatId, i: nat)
    requires
        i <= cx.body.exprs@.len() <= usize::MAX,
    ensures
        match rules::first_indexing(cx, array, pat, i) {
            Some(expr) => i <= expr.0 && is_indexing(cx, array, pat, expr.0 as int)
                && forall|j: int| i <= j < expr.0 ==> !#[trigger] is_indexing(cx, array, pat, j),
            None => forall|j: int| i <= j ==> !#[trigger] is_indexing(cx, array, pat, j),
        },
    decreases cx.body.exprs@.len() - i,
{
    if i < cx.body.exprs@.len() {
        assert(is_indexing(cx, array, pat, i as int) <==> rules::indexes(
            cx,
            cx.body.exprs@[i as int],
            array,
            pat,
        ));
        if !is_indexing(cx, array, pat, i as int) {
            lemma_indexing(cx, array, pat, i + 1);
        }
    }
}

/// Whether a round of a loop over an array, whose index is known in `known`, begins by binding
/// `element` to the first use of the variable, and `element` is the element at the index: the
/// value of the first expression that indexes into the array with the variable or, without one, a
/// value of the type of elements that is recorded with the array and the index.
pub open spec fn is_bound(
    cx: CheckedBody,
    s: State,
    known: State,
    t: State,
    pat: PatId,
    iter: ExprId,
    lp: Loop,
    element: ValueId,
) -> bool {
    let index = t.values[lp.test.0 as int].origin->Synthetic_0->Comparison_left;
    let array = rules::ensure_value(cx, known, iter).1;
    let after = rules::ensure_value(cx, known, iter).0;
    let first = cx.typed_body.first_use(pat);
    let ty = cx.typed_body.exprs@[iter.0 as int].ty;
    &&& frame::keeps_values(s, known)
    &&& meaning::keeps_known(s, known)
    &&& element.0 < t.values.len()
    &&& t.blocks[lp.round_entry.0 as int].insts == seq![
        MirInst::<Seq<ValueId>>::EvalExpr {
            expr: if first is Some {
                first->0
            } else {
                iter
            },
            value: element,
            bind_value: true,
        },
    ]
    &&& first is Some ==> meaning::has_value(lp.round.start, first->0, element)
    &&& forall|i: int| #[trigger]
        is_indexing(cx, iter, pat, i) && (forall|j: int|
            0 <= j < i ==> !#[trigger] is_indexing(cx, iter, pat, j)) ==> element
            == rules::ensure_value(cx, after, ExprId(i as usize)).1
    &&& (forall|i: int| !#[trigger] is_indexing(cx, iter, pat, i)) ==> {
        &&& t.values[element.0 as int].ty == cx.typed_body.types@[ty.0 as int].args@[0]
        &&& t.array_index_info.contains_key(element.0)
        &&& t.array_index_info[element.0] == (array, index)
    }
}

/// Whether a round of a loop over an array begins by binding the element at the index.
#[verifier::opaque]
pub open spec fn binds_element(
    cx: CheckedBody,
    s: State,
    t: State,
    pat: PatId,
    iter: ExprId,
    lp: Loop,
) -> bool {
    exists|known: State, element: ValueId| #[trigger]
        is_bound(cx, s, known, t, pat, iter, lp, element)
}

/// A round of a loop over an array begins by binding the element at the index.
proof fn lemma_binds_element(
    cx: CheckedBody,
    s: State,
    blocks: rules::LoopBlocks,
    pat: PatId,
    iter: ExprId,
    end: ValueId,
    t: State,
    lp: Loop,
)
    requires
        cx.wf(),
        cx.has_expr(iter),
        sound::sound(s),
        blocks.body_entry.0 < s.blocks.len(),
        s.blocks[blocks.body_entry.0 as int].insts.len() == 0,
        lp.round_entry == blocks.body_entry,
        ({
            let (s2, test) = rules::test_variable(cx, s, blocks, pat, iter, end, true);
            &&& frame::fits(s2)
            &&& frame::keeps_values(s2, t)
            &&& lp.test == test
            &&& lp.round.start == rules::in_loop(s2, blocks)
            &&& t.blocks[blocks.body_entry.0 as int] == s2.blocks[blocks.body_entry.0 as int]
        }),
    ensures
        binds_element(cx, s, t, pat, iter, lp),
{
    let (s2, test) = rules::test_variable(cx, s, blocks, pat, iter, end, true);
    let (known, index) = rules::loop_variable(cx, s, pat);
    let (after, array) = rules::ensure_value(cx, known, iter);
    let (bound, element) = rules::array_element(cx, known, pat, iter, index);
    laws::lemma_bound_element(cx, s, blocks, pat, iter, end, t);
    growth::lemma_first_use_known(cx, pat);
    if let Some(expr) = cx.typed_body.first_use(pat) {
        growth::lemma_ensure_value(cx, s, expr);
        meaning::lemma_value_given(cx, s, expr);
    }
    laws::lemma_element_grows(cx, known, pat, iter, index);
    assert(bound.values.len() < s2.values.len() && bound.blocks.len() == s2.blocks.len()) by {
        reveal(rules::test_variable);
    }
    assert(cx.body.exprs@.len() == cx.body.exprs.len());
    laws::lemma_loop_variable(cx, s, pat);
    laws::lemma_array_element(cx, known, pat, iter, index);
    lemma_indexing(cx, iter, pat, 0);
    assert(t.values[test.0 as int].origin == ValueOrigin::<Seq<ValueId>>::Synthetic(
        SyntheticValue::Comparison { left: index, right: end, op: CompBinOp::Lt },
    )) by {
        reveal(rules::test_variable);
        assert(t.values[test.0 as int] == s2.values[test.0 as int]);
    }
    if let Some(first) = cx.typed_body.first_use(pat) {
        assert(meaning::has_value(lp.round.start, first, element)) by {
            reveal(rules::test_variable);
        }
    }
    let insts = s.blocks[blocks.body_entry.0 as int].insts;
    assert(insts =~= Seq::empty());
    assert forall|i: int| #[trigger]
        is_indexing(cx, iter, pat, i) && (forall|j: int|
            0 <= j < i ==> !#[trigger] is_indexing(cx, iter, pat, j)) implies element
        == rules::ensure_value(cx, after, ExprId(i as usize)).1 by {
        let found = rules::first_indexing(cx, iter, pat, 0)->0;
        assert(found.0 == i);
    }
    let seen = t.blocks[blocks.body_entry.0 as int].insts;
    assert(seen =~= seq![seen[0]]);
    reveal(binds_element);
    assert(is_bound(cx, s, known, t, pat, iter, lp, element));
}

/// A `for` loop counts: it declares its variable as the start, runs a round as long as the
/// variable is less than the end, and adds one to the variable at the end of a round.
#[verifier::rlimit(60)]
pub proof fn lemma_for_counts(
    cx: CheckedBody,
    from: LoopStart,
    stmt: StmtId,
    pat: PatId,
    iter: ExprId,
    end_expr: Option<ExprId>,
    body: ExprId,
    over_array: bool,
)
    requires
        cx.wf(),
        cx.has_expr(iter),
        cx.has_expr(body),
        rules::end_before(end_expr, iter),
        from.block.0 < from.state.blocks.len(),
        sound::sound(from.state),
        from.start.0 < from.state.values.len(),
        end_expr is None ==> from.end is Some && (from.end->0).0 < from.state.values.len(),
    ensures
        rules::run_loop(cx, from, stmt, pat, iter, end_expr, body, over_array) matches Some(l)
            ==> frame::fits(l.state) ==> {
            &&& l.value is None
            &&& l.next is Some ==> exists|opened: State, lp: Loop|
                {
                    &&& #[trigger] counts(
                        cx,
                        from,
                        stmt,
                        pat,
                        end_expr,
                        body,
                        l.state,
                        opened,
                        lp,
                    )
                    &&& l.next == Some(lp.exit)
                    &&& lp.round_entry == lp.round.entry <==> !over_array
                    &&& over_array && end_expr is None ==> binds_element(
                        cx,
                        opened,
                        l.state,
                        pat,
                        iter,
                        lp,
                    )
                }
            &&& end_expr is None ==> l.next is Some
        },
{
    if let Some(l) = rules::run_loop(cx, from, stmt, pat, iter, end_expr, body, over_array) {
        if frame::fits(l.state) && l.next is Some {
            let (s1, blocks) = rules::open_loop(
                cx,
                from.state,
                from.block,
                from.start,
                stmt,
                pat,
                over_array,
            );
            let (mid, header, end) = laws::for_test(cx, from, stmt, pat, end_expr, over_array);
            let (s2, test) = rules::test_variable(cx, mid, blocks, pat, iter, end, over_array);
            let entered = rules::in_loop(s2, blocks);
            let round = rules::lower_expr(cx, entered, blocks.body_block, body)->0;
            let plan = laws::for_plan(from.block, blocks, header, round, test);
            let stepped = laws::for_stepped(cx, round, stmt, pat);
            laws::lemma_counted_loop(cx, from, stmt, pat, iter, end_expr, body, over_array);
            if let Some(e) = end_expr {
                growth::lemma_lower_expr(cx, s1, blocks.cond_entry, e);
            }
            laws::lemma_round_fits(
                cx,
                mid,
                blocks,
                header,
                stmt,
                pat,
                iter,
                body,
                end,
                over_array,
            );
            laws::lemma_open_loop(
                cx,
                from.state,
                from.block,
                from.start,
                stmt,
                pat,
                over_array,
                plan,
            );
            match end_expr {
                Some(e) => {
                    laws::lemma_lower_expr(cx, s1, blocks.cond_entry, e);
                    flow::lemma_next_known(s1, blocks.cond_entry, mid, header);
                },
                None => flow::lemma_rest(s1, blocks.cond_entry),
            }
            laws::lemma_rounds(cx, from, stmt, pat, iter, body, over_array, mid, header, end);
            growth::lemma_test_variable(cx, mid, blocks, pat, iter, end, over_array);
            laws::lemma_test_variable(cx, mid, blocks, pat, iter, end, over_array, plan);
            let scope = LoopScope {
                continue_target: blocks.cond_entry,
                break_target: blocks.exit_block,
            };
            assert(frame::fits(stepped) && frame::fits(round.state)) by {
                reveal(rules::step_variable);
            }
            growth::lemma_lower_expr(cx, entered, blocks.body_block, body);
            sound::lemma_enter_loop(s2, scope);
            laws::lemma_lower_expr(cx, entered, blocks.body_block, body);
            if let Some(e) = round.next {
                flow::lemma_next_known(entered, blocks.body_block, round.state, e);
                laws::lemma_step_variable(cx, round.state, e, stmt, pat);
            }
            let p = Passage {
                before: from.state,
                opened: s1,
                tested: mid,
                prepared: s2,
                round: round.state,
                stepped,
            };
            lemma_opened(cx, from, stmt, pat, over_array);
            lemma_passed(p, plan);
            laws::lemma_closed_loop(plan, stepped);
            assert(loops::closed_loop(plan, stepped) == l.state);
            let lp = Loop {
                test_entry: blocks.cond_entry,
                header,
                test,
                round_entry: blocks.body_entry,
                round: Run { start: entered, entry: blocks.body_block, end: round },
                exit: blocks.exit_block,
            };
            frame::lemma_keeps_values_trans(from.state, s2, entered);
            assert(is_closed(cx, from.state, from.block, body, l.state, lp));
            frame::lemma_keeps_values_trans(from.state, s2, l.state);
            lemma_less(cx, mid, blocks, pat, iter, end, over_array, l.state);
            assert(leaves(round.state, l.state)) by {
                reveal(rules::step_variable);
            }
            lemma_test_keeps(cx, mid, blocks, pat, iter, end, over_array);
            if round.next is Some {
                lemma_adds_one(cx, round, stmt, pat, l.state);
            }
            assert(counts(cx, from, stmt, pat, end_expr, body, l.state, s1, lp));
            if over_array && end_expr is None {
                lemma_binds_element(cx, s1, blocks, pat, iter, end, l.state, lp);
            }
        }
    }
}

/// A loop opens with new blocks that are empty, and with its variable declared.
proof fn lemma_opened(
    cx: CheckedBody,
    from: LoopStart,
    stmt: StmtId,
    pat: PatId,
    over_array: bool,
)
    requires
        from.block.0 < from.state.blocks.len(),
        from.start.0 < from.state.values.len(),
        frame::fits(
            rules::open_loop(
                cx,
                from.state,
                from.block,
                from.start,
                stmt,
                pat,
                over_array,
            ).0,
        ),
    ensures
        ({
            let (t, blocks) = rules::open_loop(
                cx,
                from.state,
                from.block,
                from.start,
                stmt,
                pat,
                over_array,
            );
            &&& forall|i: int|
                from.state.blocks.len() <= i < t.blocks.len() ==> (
                #[trigger] t.blocks[i]).insts.len() == 0
            &&& effects::moves(
                from.state,
                pat,
                meaning::home(cx, from.state, from.start),
                t,
            )
            &&& effects::keeps_rest(from.state, t)
            &&& t.blocks[blocks.cond_entry.0 as int] == state::open_block()
        }),
{
    reveal(rules::open_loop);
    meaning::lemma_home(cx, from.state, from.start);
}

/// The test of a loop moves no variable and, but for the element of an array, leaves the values of
/// expressions alone.
proof fn lemma_test_keeps(
    cx: CheckedBody,
    s: State,
    blocks: rules::LoopBlocks,
    pat: PatId,
    iter: ExprId,
    end: ValueId,
    over_array: bool,
)
    requires
        cx.wf(),
        cx.has_expr(iter),
    ensures
        ({
            let t = rules::test_variable(cx, s, blocks, pat, iter, end, over_array).0;
            &&& t.pat_spaces == s.pat_spaces
            &&& !over_array ==> meaning::keeps_known(s, t)
        }),
{
    reveal(rules::test_variable);
    growth::lemma_first_use_known(cx, pat);
    let (s1, variable) = rules::loop_variable(cx, s, pat);
    if let Some(expr) = cx.typed_body.first_use(pat) {
        meaning::lemma_value_given(cx, s, expr);
    }
    if over_array {
        meaning::lemma_value_given(cx, s1, iter);
        let s2 = rules::ensure_value(cx, s1, iter).0;
        assert(cx.body.exprs@.len() == cx.body.exprs.len());
        growth::lemma_first_indexing_known(cx, iter, pat, 0);
        if let Some(expr) = rules::first_indexing(cx, iter, pat, 0) {
            meaning::lemma_value_given(cx, s2, expr);
        }
    }
}

/// The test of a loop says whether the variable is less than the end.
proof fn lemma_less(
    cx: CheckedBody,
    s: State,
    blocks: rules::LoopBlocks,
    pat: PatId,
    iter: ExprId,
    end: ValueId,
    over_array: bool,
    t: State,
)
    requires
        cx.wf(),
        cx.has_expr(iter),
        sound::sound(s),
        frame::fits(rules::test_variable(cx, s, blocks, pat, iter, end, over_array).0),
        frame::keeps_values(
            rules::test_variable(cx, s, blocks, pat, iter, end, over_array).0,
            t,
        ),
    ensures
        is_less(
            cx,
            s,
            t,
            pat,
            end,
            rules::test_variable(cx, s, blocks, pat, iter, end, over_array).1,
        ),
{
    reveal(rules::test_variable);
    growth::lemma_first_use_known(cx, pat);
    let (s1, variable) = rules::loop_variable(cx, s, pat);
    if let Some(expr) = cx.typed_body.first_use(pat) {
        growth::lemma_ensure_value(cx, s, expr);
    }
    let (s2, test) = rules::test_variable(cx, s, blocks, pat, iter, end, over_array);
    if over_array {
        laws::lemma_element_grows(cx, s1, pat, iter, variable);
        laws::lemma_loop_variable(cx, s, pat);
        laws::lemma_array_element(cx, s1, pat, iter, variable);
    } else {
        laws::lemma_loop_variable(cx, s, pat);
    }
    assert(s2.values[variable.0 as int] == s1.values[variable.0 as int]);
    assert(t.values[variable.0 as int] == s2.values[variable.0 as int]);
    assert(t.values[test.0 as int] == s2.values[test.0 as int]);
}

/// The end of a round adds one to the variable.
proof fn lemma_adds_one(
    cx: CheckedBody,
    round: rules::LoweredExpr,
    stmt: StmtId,
    pat: PatId,
    t: State,
)
    requires
        round.next is Some,
        (round.next->0).0 < round.state.blocks.len(),
        frame::fits(rules::step_variable(cx, round.state, round.next->0, stmt, pat)),
        frame::keeps_values(
            rules::step_variable(cx, round.state, round.next->0, stmt, pat),
            t,
        ),
    ensures
        ({
            let e = (round.next->0).0 as int;
            let after = rules::step_variable(cx, round.state, round.next->0, stmt, pat).blocks[e];
            &&& after.insts == round.state.blocks[e].insts.push(after.insts.last())
            &&& adds_one(cx, t, after.insts.last(), stmt, pat)
        }),
{
    reveal(rules::step_variable);
    let stepped = rules::step_variable(cx, round.state, round.next->0, stmt, pat);
    let one = round.state.next_value();
    assert(one.0 == round.state.values.len());
    assert(t.values[one.0 as int] == stepped.values[one.0 as int]);
}

/// Whether a loop starts at zero at the end of `block`, and ends before the number `end`: nothing
/// but the two constants is added to `s`.
pub open spec fn starts_at_zero(
    cx: CheckedBody,
    s: State,
    block: BasicBlockId,
    end: Word,
    from: LoopStart,
) -> bool {
    &&& from.block == block
    &&& from.state.blocks == s.blocks
    &&& from.state.expr_values == s.expr_values
    &&& from.state.pat_spaces == s.pat_spaces
    &&& from.state.loop_stack == s.loop_stack
    &&& frame::keeps_values(s, from.state)
    &&& meaning::is_constant(cx, from.state, from.start, 0)
    &&& from.end is Some
    &&& (from.end->0).0 < from.state.values.len()
    &&& from.state.values[(from.end->0).0 as int].ty == cx.typed_body.u256_ty
    &&& from.state.values[(from.end->0).0 as int].origin == ValueOrigin::<
        Seq<ValueId>,
    >::Synthetic(SyntheticValue::Int(end))
}

/// A loop that starts at zero has its two constants.
proof fn lemma_at_zero(cx: CheckedBody, s: State, block: BasicBlockId, end: Word)
    requires
        s.values.len() + 2 <= usize::MAX,
    ensures
        starts_at_zero(cx, s, block, end, rules::start_at_zero(cx, s, block, end)),
{
}

/// `for pat in n`, where `n` is an integer literal, counts from zero up to `n`.
pub proof fn lemma_for_literal(
    cx: CheckedBody,
    s: State,
    block: BasicBlockId,
    stmt: StmtId,
    pat: PatId,
    iter: ExprId,
    body: ExprId,
    n: Word,
)
    requires
        cx.wf(),
        cx.has_stmt(stmt),
        cx.stmt(stmt) == Partial::Present(Stmt::For(pat, iter, body)),
        cx.expr(iter) == Partial::Present(Expr::Lit(LitKind::Int(n))),
        block.0 < s.blocks.len(),
        sound::sound(s),
    ensures
        rules::lower_stmt(cx, s, block, stmt) matches Some(l) ==> frame::fits(l.state) ==> {
            &&& l.value is None
            &&& exists|from: LoopStart, opened: State, lp: Loop|
                {
                    &&& #[trigger] counts(
                        cx,
                        from,
                        stmt,
                        pat,
                        None,
                        body,
                        l.state,
                        opened,
                        lp,
                    )
                    &&& starts_at_zero(cx, s, block, n, from)
                    &&& l.next == Some(lp.exit)
                    &&& lp.round_entry == lp.round.entry
                }
        },
{
    assert(body::stmt_top(cx.body.stmts@[stmt.0 as int]) <= cx.body.exprs@.len());
    if let Some(l) = rules::lower_stmt(cx, s, block, stmt) {
        if frame::fits(l.state) {
            let from = rules::start_at_zero(cx, s, block, n);
            growth::lemma_run_loop(cx, from, stmt, pat, iter, None, body, false);
            lemma_at_zero(cx, s, block, n);
            laws::lemma_start_at_zero(cx, s, block, n);
            lemma_for_counts(cx, from, stmt, pat, iter, None, body, false);
        }
    }
}

/// `for pat in array` counts from zero up to the number of elements of the array's type, and a
/// round begins by binding the element at the index.
pub proof fn lemma_for_array(
    cx: CheckedBody,
    s: State,
    block: BasicBlockId,
    stmt: StmtId,
    pat: PatId,
    iter: ExprId,
    body: ExprId,
    n: Word,
)
    requires
        cx.wf(),
        cx.has_stmt(stmt),
        cx.stmt(stmt) == Partial::Present(Stmt::For(pat, iter, body)),
        !(cx.expr(iter) matches Partial::Present(Expr::Lit(LitKind::Int(_)))),
        !(cx.expr(iter) matches Partial::Present(Expr::Bin(_, _, _))),
        cx.typed_body.types@[cx.typed_body.exprs@[iter.0 as int].ty.0 as int].base == TyBase::Prim(
            PrimTy::Array,
        ),
        cx.typed_body.types@[cx.typed_body.exprs@[iter.0 as int].ty.0 as int].length == Some(n),
        block.0 < s.blocks.len(),
        sound::sound(s),
    ensures
        rules::lower_stmt(cx, s, block, stmt) matches Some(l) ==> frame::fits(l.state) ==> {
            &&& l.value is None
            &&& exists|from: LoopStart, opened: State, lp: Loop|
                {
                    &&& #[trigger] counts(
                        cx,
                        from,
                        stmt,
                        pat,
                        None,
                        body,
                        l.state,
                        opened,
                        lp,
                    )
                    &&& starts_at_zero(cx, s, block, n, from)
                    &&& l.next == Some(lp.exit)
                    &&& lp.round_entry != lp.round.entry
                    &&& binds_element(cx, opened, l.state, pat, iter, lp)
                }
        },
{
    assert(body::stmt_top(cx.body.stmts@[stmt.0 as int]) <= cx.body.exprs@.len());
    if let Some(l) = rules::lower_stmt(cx, s, block, stmt) {
        if frame::fits(l.state) {
            let from = rules::start_at_zero(cx, s, block, n);
            growth::lemma_run_loop(cx, from, stmt, pat, iter, None, body, true);
            lemma_at_zero(cx, s, block, n);
            laws::lemma_start_at_zero(cx, s, block, n);
            lemma_for_counts(cx, from, stmt, pat, iter, None, body, true);
        }
    }
}

/// Whether a loop starts, at the end of `block`, at a value that was lowered to `first`. An end
/// that is a literal is known as a constant.
pub open spec fn starts_range(
    cx: CheckedBody,
    first: rules::LoweredExpr,
    block: BasicBlockId,
    end: ExprId,
    from: LoopStart,
) -> bool {
    &&& from.block == block
    &&& from.start == first.value
    &&& match cx.expr(end) {
        Partial::Present(Expr::Lit(LitKind::Int(n))) => {
            &&& from.state.blocks == first.state.blocks
            &&& from.state.expr_values == first.state.expr_values
            &&& from.state.pat_spaces == first.state.pat_spaces
            &&& from.state.loop_stack == first.state.loop_stack
            &&& frame::keeps_values(first.state, from.state)
            &&& from.end is Some
            &&& (from.end->0).0 < from.state.values.len()
            &&& from.state.values[(from.end->0).0 as int].ty == cx.typed_body.u256_ty
            &&& from.state.values[(from.end->0).0 as int].origin == ValueOrigin::<
                Seq<ValueId>,
            >::Synthetic(SyntheticValue::Int(n))
        },
        _ => from.state == first.state,
    }
}

/// The end of a range, unless it is a literal.
pub open spec fn left_to_test(cx: CheckedBody, end: ExprId) -> Option<ExprId> {
    match cx.expr(end) {
        Partial::Present(Expr::Lit(LitKind::Int(_))) => None,
        _ => Some(end),
    }
}

/// `for pat in start..end` evaluates `start` and counts from there up to `end`, which is a
/// constant if it is a literal, and is evaluated in every test otherwise.
pub proof fn lemma_for_range(
    cx: CheckedBody,
    s: State,
    block: BasicBlockId,
    stmt: StmtId,
    pat: PatId,
    iter: ExprId,
    body: ExprId,
    start: ExprId,
    end: ExprId,
)
    requires
        cx.wf(),
        cx.has_stmt(stmt),
        cx.stmt(stmt) == Partial::Present(Stmt::For(pat, iter, body)),
        cx.expr(iter) == Partial::Present(Expr::Bin(start, end, BinOp::Index)),
        block.0 < s.blocks.len(),
        sound::sound(s),
    ensures
        rules::lower_stmt(cx, s, block, stmt) matches Some(l) ==> frame::fits(l.state) ==> {
            let first = rules::lower_expr(cx, s, block, start)->0;
            let end_expr = left_to_test(cx, end);
            &&& l.value is None
            &&& rules::lower_expr(cx, s, block, start) is Some
            &&& first.next is None ==> l.next is None && l.state == first.state
            &&& first.next is Some && l.next is Some ==> exists|
                from: LoopStart,
                opened: State,
                lp: Loop,
            |
                {
                    &&& #[trigger] counts(
                        cx,
                        from,
                        stmt,
                        pat,
                        end_expr,
                        body,
                        l.state,
                        opened,
                        lp,
                    )
                    &&& starts_range(cx, first, first.next->0, end, from)
                    &&& l.next == Some(lp.exit)
                    &&& lp.round_entry == lp.round.entry
                }
            &&& first.next is Some && end_expr is None ==> l.next is Some
        },
{
    assert(body::stmt_top(cx.body.stmts@[stmt.0 as int]) <= cx.body.exprs@.len());
    assert(cx.body.expr_before(cx.body.exprs@[iter.0 as int], iter.0 as nat));
    if let Some(l) = rules::lower_stmt(cx, s, block, stmt) {
        let first = rules::lower_expr(cx, s, block, start)->0;
        assert(Some(l) == rules::lower_for(cx, s, block, stmt, pat, iter, body));
        assert(rules::lower_expr(cx, s, block, start) is Some);
        if frame::fits(l.state) && first.next is Some {
            let next = first.next->0;
            let (from, end_expr) = rules::range_start(cx, first, next, end);
            growth::lemma_lower_expr(cx, s, block, start);
            growth::lemma_run_loop(cx, from, stmt, pat, iter, end_expr, body, false);
            laws::lemma_lower_expr(cx, s, block, start);
            flow::lemma_next_known(s, block, first.state, next);
            if let Some(word) = rules::int_literal(cx, end) {
                flow::lemma_word(cx, first.state, next, word);
            }
            assert(Some(l) == rules::run_loop(cx, from, stmt, pat, iter, end_expr, body, false));
            assert(starts_range(cx, first, next, end, from));
            assert(end_expr == left_to_test(cx, end));
            lemma_for_counts(cx, from, stmt, pat, iter, end_expr, body, false);
        }
    }
}

/// A loop over anything else cannot be lowered.
pub proof fn lemma_for_refused(
    cx: CheckedBody,
    s: State,
    block: BasicBlockId,
    stmt: StmtId,
    pat: PatId,
    iter: ExprId,
    body: ExprId,
)
    requires
        cx.wf(),
        cx.has_stmt(stmt),
        cx.stmt(stmt) == Partial::Present(Stmt::For(pat, iter, body)),
        !(cx.expr(iter) matches Partial::Present(Expr::Lit(LitKind::Int(_)))),
        match cx.expr(iter) {
            Partial::Present(Expr::Bin(_, _, op)) => op != BinOp::Index,
            _ => cx.typed_body.types@[cx.typed_body.exprs@[iter.0 as int].ty.0 as int].base
                != TyBase::Prim(PrimTy::Array),
        },
    ensures
        rules::lower_stmt(cx, s, block, stmt) is None,
{
    assert(body::stmt_top(cx.body.stmts@[stmt.0 as int]) <= cx.body.exprs@.len());
}

/// A counting loop whose end is evaluated in the test, but lets no control out, ends there: no
/// round follows.
pub proof fn lemma_for_stuck(
    cx: CheckedBody,
    from: LoopStart,
    stmt: StmtId,
    pat: PatId,
    iter: ExprId,
    end: ExprId,
    body: ExprId,
)
    requires
        cx.wf(),
        cx.has_expr(iter),
        cx.has_expr(body),
        end.0 < iter.0,
        from.block.0 < from.state.blocks.len(),
        from.start.0 < from.state.values.len(),
    ensures
        rules::run_loop(cx, from, stmt, pat, iter, Some(end), body, false) matches Some(l)
            ==> frame::fits(l.state) ==> l.next is None ==> exists|tested: Run|
            {
                &&& #[trigger] paths::is_run(cx, tested, end)
                &&& paths::begins_new(from.state, tested)
                &&& effects::moves(
                    from.state,
                    pat,
                    meaning::home(cx, from.state, from.start),
                    tested.start,
                )
                &&& tested.start.blocks[from.block.0 as int].terminator == Some(
                    Terminator::<Seq<SwitchTarget>>::Goto { target: tested.entry },
                )
                &&& tested.end.next is None
                &&& l.state == tested.end.state
            },
{
    if let Some(l) = rules::run_loop(cx, from, stmt, pat, iter, Some(end), body, false) {
        if frame::fits(l.state) && l.next is None {
            let (s1, blocks) = rules::open_loop(
                cx,
                from.state,
                from.block,
                from.start,
                stmt,
                pat,
                false,
            );
            let bound = rules::lower_expr(cx, s1, blocks.cond_entry, end)->0;
            growth::lemma_lower_expr(cx, s1, blocks.cond_entry, end);
            assert(frame::fits(s1));
            lemma_opened(cx, from, stmt, pat, false);
            let tested = Run { start: s1, entry: blocks.cond_entry, end: bound };
            reveal(rules::open_loop);
            assert(paths::is_run(cx, tested, end));
        }
    }
}

} // verus!
