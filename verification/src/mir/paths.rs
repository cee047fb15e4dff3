//! Where control goes in lowered code, and what it meets on the way.
//!
//! The laws here relate the lowering of a construct to the lowering of its own parts: which part
//! stands in which block, how control reaches it, and what becomes of its value.

use vstd::prelude::*;

use crate::hir::body::{Expr, MatchArm, Partial};
use crate::hir::ids::{ExprId, StmtId};
use crate::hir::typed::MatchArmPattern;
use crate::mir::flow;
use crate::mir::frame;
use crate::mir::growth;
use crate::mir::input::CheckedBody;
use crate::mir::ir::{BasicBlockId, SwitchTarget, Terminator, TerminatorModel, ValueId};
use crate::mir::laws;
use crate::mir::meaning;
use crate::mir::rules;
use crate::mir::rules::LoweredExpr;
use crate::mir::sound;
use crate::mir::state;
use crate::mir::state::State;

verus! {

// Parts.

/// A part of a construct that is lowered from the state `start` on in the block `entry`, with the
/// outcome `end`.
pub struct Run {
    pub start: State,
    pub entry: BasicBlockId,
    pub end: LoweredExpr,
}

/// Whether `run` is the lowering of `expr`.
pub open spec fn is_run(cx: CheckedBody, run: Run, expr: ExprId) -> bool {
    rules::lower_expr(cx, run.start, run.entry, expr) == Some(run.end)
}

/// From `s` to `t`, nothing changes but blocks.
pub open spec fn changes_blocks(s: State, t: State) -> bool {
    &&& t.values == s.values
    &&& t.expr_values == s.expr_values
    &&& t.loop_headers == s.loop_headers
    &&& t.array_index_info == s.array_index_info
    &&& t.loop_stack == s.loop_stack
    &&& t.value_spaces == s.value_spaces
    &&& t.pat_spaces == s.pat_spaces
}

/// Whether `runs` follow each other on the way from `s` to `t`, with nothing but blocks changed
/// before, between and after them.
#[verifier::opaque]
pub open spec fn in_turn(s: State, runs: Seq<Run>, t: State) -> bool {
    &&& runs.len() == 0 ==> changes_blocks(s, t)
    &&& runs.len() > 0 ==> changes_blocks(s, runs[0].start) && changes_blocks(
        runs.last().end.state,
        t,
    )
    &&& forall|i: int, j: int|
        0 <= i < runs.len() && j == i + 1 && j < runs.len() ==> changes_blocks(
            (#[trigger] runs[i]).end.state,
            (#[trigger] runs[j]).start,
        )
}

/// A run before runs that follow each other is followed by them.
proof fn lemma_in_turn(s: State, first: Run, mid: State, rest: Seq<Run>, t: State)
    requires
        changes_blocks(s, first.start),
        changes_blocks(first.end.state, mid),
        in_turn(mid, rest, t),
    ensures
        in_turn(s, seq![first] + rest, t),
{
    reveal(in_turn);
    let runs = seq![first] + rest;
    if rest.len() > 0 {
        assert(runs.last() == rest.last());
        assert(runs[1] == rest[0]);
    }
    assert forall|i: int, j: int|
        0 <= i < runs.len() && j == i + 1 && j < runs.len() implies changes_blocks(
        (#[trigger] runs[i]).end.state,
        (#[trigger] runs[j]).start,
    ) by {
        assert(runs[j] == rest[i]);
        if i > 0 {
            assert(runs[i] == rest[i - 1]);
        }
    }
}

/// What comes after runs that follow each other may change blocks.
proof fn lemma_turn_ends(s: State, runs: Seq<Run>, t: State, u: State)
    requires
        in_turn(s, runs, t),
        changes_blocks(t, u),
    ensures
        in_turn(s, runs, u),
{
    reveal(in_turn);
}

/// Nothing but blocks changes where there are no runs.
proof fn lemma_no_turn(s: State, t: State)
    requires
        changes_blocks(s, t),
    ensures
        in_turn(s, Seq::empty(), t),
{
    reveal(in_turn);
}

/// Whether `run` begins with an empty block that is newer than the blocks of `s`.
pub open spec fn begins_new(s: State, run: Run) -> bool {
    &&& s.blocks.len() <= run.entry.0 < run.start.blocks.len()
    &&& run.start.blocks[run.entry.0 as int] == state::open_block()
    &&& frame::keeps_values(s, run.start)
}

/// Whether the block at position `b` is where control goes on after `run`.
pub open spec fn goes_on_in(run: Run, b: int) -> bool {
    run.end.next is Some && (run.end.next->0).0 == b
}

/// Whether `t` holds what `run` lowered: its values, and in its entry block and in the blocks that
/// it made, in one of which it goes on, the same instructions and, but for the block where it goes
/// on, the same terminators.
pub open spec fn holds_run(t: State, run: Run) -> bool {
    &&& run.entry.0 < run.end.state.blocks.len() <= t.blocks.len()
    &&& run.end.next matches Some(end) ==> end == run.entry || run.start.blocks.len() <= end.0
        < run.end.state.blocks.len()
    &&& frame::keeps_values(run.end.state, t)
    &&& forall|b: int|
        #![trigger t.blocks[b]]
        b == run.entry.0 || run.start.blocks.len() <= b < run.end.state.blocks.len() ==> {
            &&& t.blocks[b].insts == run.end.state.blocks[b].insts
            &&& !goes_on_in(run, b) ==> t.blocks[b] == run.end.state.blocks[b]
        }
}

/// Whether control that comes out of `run` is led to `target`.
pub open spec fn leads_on(t: State, run: Run, target: BasicBlockId) -> bool {
    run.end.next matches Some(end) ==> t.blocks[end.0 as int].terminator == Some(
        Terminator::<Seq<SwitchTarget>>::Goto { target },
    )
}

// Matches.

/// What the pattern of an arm tests.
pub open spec fn tested_by(cx: CheckedBody, arm: MatchArm) -> Option<MatchArmPattern> {
    if arm.pat.0 < cx.typed_body.pats@.len() {
        cx.typed_body.pats@[arm.pat.0 as int].arm
    } else {
        None
    }
}

/// Whether each of the first `n` arms tests for a value.
pub open spec fn test_values(cx: CheckedBody, arms: Seq<MatchArm>, n: int) -> bool {
    forall|j: int| 0 <= j < n ==> tested_by(cx, #[trigger] arms[j]) matches Some(
        MatchArmPattern::Value(_),
    )
}

/// Whether a switch leads to the arms of a match: for the value that an arm tests to the block
/// in which that very arm was lowered, up to the first arm that tests nothing, and by default to
/// that arm. Without such an arm the default cannot be reached.
pub open spec fn leads_to_arms(
    cx: CheckedBody,
    s: State,
    t: State,
    end: TerminatorModel,
    discr: ValueId,
    arms: Seq<MatchArm>,
    runs: Seq<Run>,
) -> bool {
    &&& end is Switch
    &&& end->Switch_discr == discr
    &&& forall|i: int|
        #![trigger runs[i]]
        0 <= i < arms.len() && test_values(cx, arms, i + 1) ==> {
            &&& i < end->Switch_targets.len()
            &&& tested_by(cx, arms[i]) == Some(
                MatchArmPattern::Value(end->Switch_targets[i].value),
            )
            &&& end->Switch_targets[i].block == runs[i].entry
        }
    &&& forall|i: int|
        #![trigger runs[i]]
        0 <= i < arms.len() && test_values(cx, arms, i) && tested_by(cx, arms[i]) == Some(
            MatchArmPattern::Wildcard,
        ) ==> end->Switch_targets.len() == i && end->Switch_default == runs[i].entry
    &&& test_values(cx, arms, arms.len() as int) ==> {
        &&& end->Switch_targets.len() == arms.len()
        &&& s.blocks.len() <= end->Switch_default.0 < t.blocks.len()
        &&& t.blocks[end->Switch_default.0 as int].insts.len() == 0
        &&& t.blocks[end->Switch_default.0 as int].terminator == Some(
            Terminator::<Seq<SwitchTarget>>::Unreachable,
        )
    }
}

/// Whether `runs` are the arms of a match in `t`: they are lowered in turn, each in a new block of
/// its own, and control that comes out of an arm is led to `merge`.
pub open spec fn are_arms(
    cx: CheckedBody,
    s: State,
    t: State,
    merge: Option<BasicBlockId>,
    arms: Seq<MatchArm>,
    runs: Seq<Run>,
) -> bool {
    &&& runs.len() == arms.len()
    &&& in_turn(s, runs, t)
    &&& forall|i: int|
        0 <= i < arms.len() ==> {
            &&& is_run(cx, #[trigger] runs[i], arms[i].body)
            &&& begins_new(s, runs[i])
            &&& holds_run(t, runs[i])
            &&& runs[i].end.next is Some ==> merge is Some && leads_on(t, runs[i], merge->0)
        }
    &&& forall|i: int, j: int|
        0 <= i < j < arms.len() ==> (#[trigger] runs[i]).end.state.blocks.len() <= (
        #[trigger] runs[j]).entry.0
    &&& merge matches Some(m) ==> {
        &&& s.blocks.len() <= m.0 < t.blocks.len()
        &&& t.blocks[m.0 as int] == state::open_block()
        &&& exists|i: int| 0 <= i < arms.len() && (#[trigger] runs[i]).end.next is Some
    }
}

/// The arms of a match from the `i`-th on, as they are lowered.
spec fn arm_runs(
    cx: CheckedBody,
    s: State,
    expr: ExprId,
    arms: Seq<MatchArm>,
    i: nat,
    merge: Option<BasicBlockId>,
) -> Seq<Run>
    decreases arms.len() - i,
{
    if i >= arms.len() {
        Seq::empty()
    } else {
        let start = s.with_block();
        let entry = s.next_block();
        match rules::lower_expr(cx, start, entry, arms[i as int].body) {
            None => Seq::empty(),
            Some(end) => {
                let (s1, merge1) = rules::meet(end, merge);
                seq![Run { start, entry, end }] + arm_runs(cx, s1, expr, arms, i + 1, merge1)
            },
        }
    }
}

/// What holds of the arms from the `i`-th on, where `merge` is where the arms before meet.
spec fn arms_lowered(
    cx: CheckedBody,
    s: State,
    merge: Option<BasicBlockId>,
    t: State,
    merge1: Option<BasicBlockId>,
    arms: Seq<MatchArm>,
    i: nat,
    runs: Seq<Run>,
) -> bool {
    &&& runs.len() == arms.len() - i
    &&& in_turn(s, runs, t)
    &&& forall|k: int|
        0 <= k < runs.len() ==> {
            &&& is_run(cx, #[trigger] runs[k], arms[i + k].body)
            &&& begins_new(s, runs[k])
            &&& holds_run(t, runs[k])
            &&& runs[k].end.next is Some ==> merge1 is Some && leads_on(t, runs[k], merge1->0)
        }
    &&& forall|j: int, k: int|
        0 <= j < k < runs.len() ==> (#[trigger] runs[j]).end.state.blocks.len() <= (
        #[trigger] runs[k]).entry.0
    &&& merge is Some ==> merge1 == merge
    &&& merge is None && merge1 is Some ==> {
        &&& s.blocks.len() <= (merge1->0).0 < t.blocks.len()
        &&& t.blocks[(merge1->0).0 as int] == state::open_block()
        &&& exists|k: int| 0 <= k < runs.len() && (#[trigger] runs[k]).end.next is Some
    }
}

/// The arms of a match are lowered one after the other, each in a block of its own.
proof fn lemma_arm_runs(
    cx: CheckedBody,
    s: State,
    expr: ExprId,
    arms: Seq<MatchArm>,
    i: nat,
    merge: Option<BasicBlockId>,
    entries: Seq<BasicBlockId>,
)
    requires
        cx.wf(),
        cx.has_expr(expr),
        rules::arms_before(arms, expr.0 as nat),
        sound::sound(s),
        i <= arms.len(),
        merge matches Some(m) ==> m.0 < s.blocks.len(),
        rules::lower_arms(cx, s, expr, arms, i, merge, entries) matches Some((t, _, _))
            && frame::fits(t),
    ensures
        ({
            let (t, merge1, all) = rules::lower_arms(cx, s, expr, arms, i, merge, entries)->0;
            let runs = arm_runs(cx, s, expr, arms, i, merge);
            &&& arms_lowered(cx, s, merge, t, merge1, arms, i, runs)
            &&& all.len() == entries.len() + runs.len()
            &&& forall|k: int| 0 <= k < entries.len() ==> #[trigger] all[k] == entries[k]
            &&& forall|k: int|
                0 <= k < runs.len() ==> all[entries.len() + k] == (#[trigger] runs[k]).entry
        }),
    decreases arms.len() - i,
{
    let (t, merge2, all) = rules::lower_arms(cx, s, expr, arms, i, merge, entries)->0;
    let runs = arm_runs(cx, s, expr, arms, i, merge);
    if i >= arms.len() {
        lemma_no_turn(s, t);
    } else {
        let entry = s.next_block();
        let start = s.with_block();
        let end = rules::lower_expr(cx, start, entry, arms[i as int].body)->0;
        let (s1, merge1) = rules::meet(end, merge);
        let rest = arm_runs(cx, s1, expr, arms, i + 1, merge1);
        growth::lemma_lower_expr(cx, start, entry, arms[i as int].body);
        growth::lemma_lower_arms(cx, s1, expr, arms, i + 1, merge1, entries.push(entry));
        sound::lemma_with_block(s);
        assert(entry.0 == s.blocks.len());
        laws::lemma_lower_expr(cx, start, entry, arms[i as int].body);
        laws::lemma_arm(s, entry, end, merge, entries);
        laws::lemma_lower_arms(cx, s1, expr, arms, i + 1, merge1, entries.push(entry));
        lemma_arm_runs(cx, s1, expr, arms, i + 1, merge1, entries.push(entry));
        let first = Run { start, entry, end };
        assert(runs[0] == first);
        assert(forall|k: int| 0 <= k < rest.len() ==> runs[k + 1] == rest[k]);
        assert(in_turn(s, runs, t)) by {
            assert(changes_blocks(end.state, s1));
            lemma_in_turn(s, first, s1, rest, t);
        }
        reveal(frame::step);
        assert(holds_run(t, first)) by {
            frame::lemma_keeps_values_trans(end.state, s1, t);
            assert forall|b: int|
                #![trigger t.blocks[b]]
                b == entry.0 || start.blocks.len() <= b < end.state.blocks.len() implies {
                &&& t.blocks[b].insts == end.state.blocks[b].insts
                &&& !goes_on_in(first, b) ==> t.blocks[b] == end.state.blocks[b]
            } by {
                assert(t.blocks[b] == s1.blocks[b]);
            }
        }
        if let Some(e) = end.next {
            assert(t.blocks[e.0 as int] == s1.blocks[e.0 as int]);
        }
        assert forall|k: int| 0 <= k < runs.len() implies {
            &&& is_run(cx, #[trigger] runs[k], arms[i + k].body)
            &&& begins_new(s, runs[k])
            &&& holds_run(t, runs[k])
            &&& runs[k].end.next is Some ==> merge2 is Some && leads_on(t, runs[k], merge2->0)
        } by {
            if k > 0 {
                assert(runs[k] == rest[k - 1]);
                frame::lemma_keeps_values_trans(s, s1, runs[k].start);
            }
        }
        assert forall|j: int, k: int| 0 <= j < k < runs.len() implies (
        #[trigger] runs[j]).end.state.blocks.len() <= (#[trigger] runs[k]).entry.0 by {
            assert(runs[k] == rest[k - 1]);
            assert(begins_new(s1, rest[k - 1]));
            if j > 0 {
                assert(runs[j] == rest[j - 1]);
            }
        }
        if merge is None && merge2 is Some {
            if merge1 is Some {
                assert(t.blocks[(merge1->0).0 as int] == s1.blocks[(merge1->0).0 as int]);
                assert(runs[0].end.next is Some);
            } else {
                let k = choose|k: int|
                    0 <= k < rest.len() && (#[trigger] rest[k]).end.next is Some;
                assert(runs[k + 1].end.next is Some);
            }
        }
        assert forall|k: int| 0 <= k < entries.len() implies #[trigger] all[k] == entries[k] by {
            assert(all[k] == entries.push(entry)[k]);
        }
        assert forall|k: int| 0 <= k < runs.len() implies all[entries.len() + k] == (
        #[trigger] runs[k]).entry by {
            if k == 0 {
                assert(all[entries.len() as int] == entries.push(entry)[entries.len() as int]);
            } else {
                assert(runs[k] == rest[k - 1]);
            }
        }
    }
}

/// The first pattern that tests nothing is behind patterns that test values, or there is none.
proof fn lemma_wildcard(patterns: Seq<MatchArmPattern>, i: nat)
    requires
        i <= patterns.len(),
    ensures
        ({
            let w = rules::first_wildcard(patterns, i);
            &&& i <= w <= patterns.len()
            &&& forall|j: int| i <= j < w ==> (#[trigger] patterns[j]) is Value
            &&& w < patterns.len() ==> patterns[w as int] is Wildcard
        }),
    decreases patterns.len() - i,
{
    if i < patterns.len() && patterns[i as int] != MatchArmPattern::Wildcard {
        lemma_wildcard(patterns, i + 1);
    }
}

/// An expression that is neither a call nor a path is lowered by no rule for those.
pub(crate) proof fn lemma_no_call(cx: CheckedBody, s: State, block: BasicBlockId, expr: ExprId)
    requires
        !meaning::is_any_call(cx, expr),
    ensures
        rules::intrinsic_stmt(cx, s, block, expr) is None,
        rules::variant_ctor(cx, expr) is None,
        !(cx.expr(expr) matches Partial::Present(Expr::Path(_))) ==> rules::unit_variant(
            cx,
            expr,
        ) is None,
{
    reveal(rules::intrinsic_stmt);
    reveal(rules::variant_ctor);
    reveal(rules::unit_variant);
}

/// A match evaluates its scrutinee, then switches on the value of the scrutinee: for the value
/// that an arm tests, control goes to the block in which the body of that very arm was lowered,
/// and by default to the first arm that tests nothing. Different arms have different blocks, and
/// control that comes out of an arm goes on where all of them meet.
pub proof fn lemma_match_switches(
    cx: CheckedBody,
    s: State,
    block: BasicBlockId,
    expr: ExprId,
    scrutinee: ExprId,
    arms: Seq<MatchArm>,
)
    requires
        cx.wf(),
        cx.has_expr(expr),
        block.0 < s.blocks.len(),
        sound::sound(s),
        cx.expr(expr) matches Partial::Present(Expr::Match(of, Partial::Present(list))) && of
            == scrutinee && list@ == arms,
        forall|i: int| 0 <= i < arms.len() ==> tested_by(cx, #[trigger] arms[i]) is Some,
    ensures
        rules::lower_expr(cx, s, block, expr) matches Some(l) ==> frame::fits(l.state) ==> {
            let (s1, value) = rules::ensure_value(cx, s, expr);
            &&& l.value == value
            &&& !l.eval
            &&& rules::lower_expr(cx, s1, block, scrutinee) is Some
            &&& match rules::lower_expr(cx, s1, block, scrutinee)->0.next {
                None => l.next is None && l.state == rules::lower_expr(
                    cx,
                    s1,
                    block,
                    scrutinee,
                )->0.state,
                Some(header) => {
                    let tested = rules::lower_expr(cx, s1, block, scrutinee)->0;
                    let before = tested.state.blocks[header.0 as int];
                    let after = l.state.blocks[header.0 as int];
                    &&& after.insts == before.insts
                    &&& after.terminator is Some
                    &&& exists|runs: Seq<Run>|
                        {
                            &&& #[trigger] are_arms(
                                cx,
                                tested.state,
                                l.state,
                                l.next,
                                arms,
                                runs,
                            )
                            &&& leads_to_arms(
                                cx,
                                tested.state,
                                l.state,
                                after.terminator->0,
                                tested.value,
                                arms,
                                runs,
                            )
                        }
                },
            }
        },
{
    lemma_no_call(cx, s, block, expr);
    assert(cx.body.expr_before(cx.body.exprs@[expr.0 as int], expr.0 as nat));
    assert(rules::arm_patterns(cx, arms) is Some) by {
        reveal(rules::arm_patterns);
        assert forall|i: int| 0 <= i < arms.len() implies cx.typed_body.arm_pattern(
            (#[trigger] arms[i]).pat,
        ) is Some by {
            assert(tested_by(cx, arms[i]) is Some);
        }
    }
    let patterns = rules::arm_patterns(cx, arms)->0;
    assert(patterns.len() == arms.len() && forall|i: int|
        0 <= i < arms.len() ==> tested_by(cx, #[trigger] arms[i]) == Some(patterns[i])) by {
        reveal(rules::arm_patterns);
    }
    if let Some(l) = rules::lower_expr(cx, s, block, expr) {
        if frame::fits(l.state) {
            let (s1, value) = rules::ensure_value(cx, s, expr);
            let tested = rules::lower_expr(cx, s1, block, scrutinee)->0;
            if let Some(header) = tested.next {
                let (s2, merge, entries) = rules::lower_arms(
                    cx,
                    tested.state,
                    expr,
                    arms,
                    0,
                    None,
                    Seq::empty(),
                )->0;
                growth::lemma_ensure_value(cx, s, expr);
                growth::lemma_lower_expr(cx, s1, block, scrutinee);
                growth::lemma_lower_arms(cx, tested.state, expr, arms, 0, None, Seq::empty());
                assert(frame::fits(s2)) by {
                    reveal(rules::close_match);
                }
                flow::lemma_ensure_value(cx, s, expr);
                laws::lemma_lower_expr(cx, s1, block, scrutinee);
                flow::lemma_next_known(s1, block, tested.state, header);
                laws::lemma_lower_arms(cx, tested.state, expr, arms, 0, None, Seq::empty());
                lemma_arm_runs(cx, tested.state, expr, arms, 0, None, Seq::empty());
                let runs = arm_runs(cx, tested.state, expr, arms, 0, None);
                lemma_closed_match(cx, tested, header, s2, merge, entries, arms, patterns, runs);
                assert(are_arms(cx, tested.state, l.state, l.next, arms, runs));
            }
        }
    }
}

/// The switch of a match leads to its arms.
proof fn lemma_closed_match(
    cx: CheckedBody,
    tested: LoweredExpr,
    header: BasicBlockId,
    t: State,
    merge: Option<BasicBlockId>,
    entries: Seq<BasicBlockId>,
    arms: Seq<MatchArm>,
    patterns: Seq<MatchArmPattern>,
    runs: Seq<Run>,
)
    requires
        header.0 < tested.state.blocks.len(),
        arms_lowered(cx, tested.state, None, t, merge, arms, 0, runs),
        tested.state.blocks.len() <= t.blocks.len(),
        t.blocks[header.0 as int] == tested.state.blocks[header.0 as int],
        entries.len() == runs.len(),
        forall|k: int| 0 <= k < runs.len() ==> entries[k] == (#[trigger] runs[k]).entry,
        patterns.len() == arms.len(),
        forall|i: int|
            0 <= i < arms.len() ==> tested_by(cx, #[trigger] arms[i]) == Some(patterns[i]),
        frame::fits(rules::close_match(t, header, tested.value, patterns, entries)),
    ensures
        ({
            let u = rules::close_match(t, header, tested.value, patterns, entries);
            let after = u.blocks[header.0 as int];
            &&& after.insts == tested.state.blocks[header.0 as int].insts
            &&& after.terminator is Some
            &&& are_arms(cx, tested.state, u, merge, arms, runs)
            &&& leads_to_arms(
                cx,
                tested.state,
                u,
                after.terminator->0,
                tested.value,
                arms,
                runs,
            )
        }),
{
    reveal(rules::close_match);
    let u = rules::close_match(t, header, tested.value, patterns, entries);
    let end = u.blocks[header.0 as int].terminator->0;
    let w = rules::first_wildcard(patterns, 0);
    lemma_wildcard(patterns, 0);
    assert forall|b: int| 0 <= b < t.blocks.len() && b != header.0 implies #[trigger] u.blocks[b]
        == t.blocks[b] by {}
    assert(frame::keeps_values(t, u));
    lemma_turn_ends(tested.state, runs, t, u);
    assert forall|i: int| 0 <= i < arms.len() implies {
        &&& is_run(cx, #[trigger] runs[i], arms[i].body)
        &&& begins_new(tested.state, runs[i])
        &&& holds_run(u, runs[i])
        &&& runs[i].end.next is Some ==> merge is Some && leads_on(u, runs[i], merge->0)
    } by {
        assert(holds_run(t, runs[i]));
        frame::lemma_keeps_values_trans(runs[i].end.state, t, u);
        assert forall|b: int|
            #![trigger u.blocks[b]]
            b == runs[i].entry.0 || runs[i].start.blocks.len() <= b
                < runs[i].end.state.blocks.len() implies {
            &&& u.blocks[b].insts == runs[i].end.state.blocks[b].insts
            &&& !goes_on_in(runs[i], b) ==> u.blocks[b] == runs[i].end.state.blocks[b]
        } by {
            assert(u.blocks[b] == t.blocks[b]);
        }
    }
    assert(forall|j: int| 0 <= j < w ==> tested_by(cx, #[trigger] arms[j]) == Some(patterns[j])
        && patterns[j] is Value);
    if w < arms.len() {
        assert(tested_by(cx, arms[w as int]) == Some(MatchArmPattern::Wildcard));
    }
    assert forall|i: int|
        #![trigger runs[i]]
        0 <= i < arms.len() && test_values(cx, arms, i + 1) implies {
        &&& i < end->Switch_targets.len()
        &&& tested_by(cx, arms[i]) == Some(MatchArmPattern::Value(end->Switch_targets[i].value))
        &&& end->Switch_targets[i].block == runs[i].entry
    } by {
        if w <= i {
            assert(tested_by(cx, arms[w as int]) == Some(MatchArmPattern::Wildcard));
        }
        assert(tested_by(cx, arms[i]) == Some(patterns[i]));
        assert(entries[i] == runs[i].entry);
    }
    assert forall|i: int|
        #![trigger runs[i]]
        0 <= i < arms.len() && test_values(cx, arms, i) && tested_by(cx, arms[i]) == Some(
            MatchArmPattern::Wildcard,
        ) implies end->Switch_targets.len() == i && end->Switch_default == runs[i].entry by {
        if w < i {
            assert(tested_by(cx, arms[w as int]) == Some(MatchArmPattern::Wildcard));
        }
        if i < w {
            assert(patterns[i] is Value);
        }
        assert(entries[i] == runs[i].entry);
    }
}

/// A match with an arm whose pattern no switch can test stays an expression.
pub proof fn lemma_match_kept(
    cx: CheckedBody,
    s: State,
    block: BasicBlockId,
    expr: ExprId,
    arms: Seq<MatchArm>,
    i: int,
)
    requires
        cx.wf(),
        cx.has_expr(expr),
        cx.expr(expr) matches Partial::Present(Expr::Match(_, Partial::Present(list))) && list@
            == arms,
        0 <= i < arms.len(),
        tested_by(cx, arms[i]) is None,
    ensures
        rules::lower_expr(cx, s, block, expr) matches Some(l) && l.next == Some(block) && l.eval
            && (l.state, l.value) == rules::ensure_value(cx, s, expr) && l.state.blocks
            == s.blocks,
{
    lemma_no_call(cx, s, block, expr);
    growth::lemma_ensure_value(cx, s, expr);
    reveal(rules::arm_patterns);
    assert(cx.typed_body.arm_pattern(arms[i].pat) is None);
}

// Branches.

/// Whether, from `s` to `t`, the part `run` was lowered in a new block and control that comes out
/// of it is led to `target`.
pub open spec fn is_branch(
    cx: CheckedBody,
    s: State,
    t: State,
    run: Run,
    expr: ExprId,
    target: BasicBlockId,
) -> bool {
    &&& is_run(cx, run, expr)
    &&& begins_new(s, run)
    &&& holds_run(t, run)
    &&& leads_on(t, run, target)
}

/// Whether, from `s` to `t`, control that comes to the end of `header` branches on `cond`: where it
/// holds, to the then-branch, and otherwise to the else-branch or, without one, to `merge`. Both
/// branches lead to `merge`, which is new and empty.
pub open spec fn branches(
    cx: CheckedBody,
    s: State,
    header: BasicBlockId,
    cond: ValueId,
    then_expr: ExprId,
    else_expr: Option<ExprId>,
    t: State,
    merge: BasicBlockId,
    then_run: Run,
    else_run: Run,
) -> bool {
    let before = s.blocks[header.0 as int];
    let after = t.blocks[header.0 as int];
    &&& after.insts == before.insts
    &&& after.terminator == Some(
        Terminator::<Seq<SwitchTarget>>::Branch {
            cond,
            then_bb: then_run.entry,
            else_bb: if else_expr is Some {
                else_run.entry
            } else {
                merge
            },
        },
    )
    &&& is_branch(cx, s, t, then_run, then_expr, merge)
    &&& in_turn(
        s,
        if else_expr is Some {
            seq![then_run, else_run]
        } else {
            seq![then_run]
        },
        t,
    )
    &&& else_expr matches Some(other) ==> is_branch(cx, s, t, else_run, other, merge)
        && then_run.entry != else_run.entry && else_run.entry != merge
    &&& then_run.entry != merge
    &&& s.blocks.len() <= merge.0 < t.blocks.len()
    &&& t.blocks[merge.0 as int] == state::open_block()
}

/// An `if` without a value evaluates its condition. Where control goes on, it branches on the
/// value of the condition to the branches, each in a block of its own, and goes on where they
/// meet.
pub proof fn lemma_if_branches(
    cx: CheckedBody,
    s: State,
    block: BasicBlockId,
    stmt: StmtId,
    expr: ExprId,
    cond: ExprId,
    then_expr: ExprId,
    else_expr: Option<ExprId>,
)
    requires
        cx.wf(),
        cx.has_expr(expr),
        cx.expr(expr) == Partial::Present(Expr::If(cond, then_expr, else_expr)),
        meaning::is_nothing(cx, cx.typed_body.exprs@[expr.0 as int].ty),
        block.0 < s.blocks.len(),
        sound::sound(s),
    ensures
        rules::lower_expr_stmt(cx, s, block, stmt, expr) matches Some(l) ==> frame::fits(l.state)
            ==> {
            let tested = rules::lower_expr(cx, s, block, cond)->0;
            &&& rules::lower_expr(cx, s, block, cond) is Some
            &&& l.value is None
            &&& match tested.next {
                None => l.next is None && l.state == tested.state,
                Some(header) => l.next is Some && exists|then_run: Run, else_run: Run| #[trigger]
                    branches(
                        cx,
                        tested.state,
                        header,
                        tested.value,
                        then_expr,
                        else_expr,
                        l.state,
                        l.next->0,
                        then_run,
                        else_run,
                    ),
            }
        },
{
    lemma_no_call(cx, s, block, expr);
    assert(cx.body.expr_before(cx.body.exprs@[expr.0 as int], expr.0 as nat));
    if let Some(l) = rules::lower_expr_stmt(cx, s, block, stmt, expr) {
        let tested = rules::lower_expr(cx, s, block, cond)->0;
        let lowered = rules::lower_if(cx, s, block, expr, cond, then_expr, else_expr)->0;
        assert(rules::lower_expr(cx, s, block, cond) is Some);
        assert(lowered.value is None && l.state == lowered.state && l.next == lowered.next);
        if frame::fits(l.state) && tested.next is Some {
            let header = tested.next->0;
            let (opened, then_block, merge, else_block) = rules::open_if(
                tested.state,
                header,
                tested.value,
                else_expr is Some,
            );
            let then_end = rules::lower_expr(cx, opened, then_block, then_expr)->0;
            let mid = rules::join(then_end.state, then_end.next, merge);
            growth::lemma_lower_expr(cx, s, block, cond);
            growth::lemma_lower_expr(cx, opened, then_block, then_expr);
            if let Some(other) = else_expr {
                growth::lemma_lower_expr(cx, mid, else_block, other);
            }
            assert(frame::fits(opened) && frame::fits(tested.state)) by {
                reveal(rules::open_if);
            }
            laws::lemma_lower_expr(cx, s, block, cond);
            flow::lemma_next_known(s, block, tested.state, header);
            laws::lemma_open_if(tested.state, header, tested.value, else_expr is Some);
            laws::lemma_lower_expr(cx, opened, then_block, then_expr);
            laws::lemma_join(then_end.state, then_end.next, merge);
            let then_run = Run { start: opened, entry: then_block, end: then_end };
            let else_end = match else_expr {
                Some(other) => rules::lower_expr(cx, mid, else_block, other)->0,
                None => then_end,
            };
            let else_run = Run { start: mid, entry: else_block, end: else_end };
            if let Some(other) = else_expr {
                laws::lemma_lower_expr(cx, mid, else_block, other);
            }
            assert(frame::keeps_values(tested.state, opened)) by {
                reveal(rules::open_if);
            }
            assert(l.next == Some(merge));
            lemma_branches(
                cx,
                tested.state,
                header,
                tested.value,
                then_expr,
                else_expr,
                l.state,
                l.next->0,
                then_run,
                else_run,
            );
        }
    }
}

/// Branches that are lowered one after the other are the branches of an `if`.
proof fn lemma_branches(
    cx: CheckedBody,
    s: State,
    header: BasicBlockId,
    cond: ValueId,
    then_expr: ExprId,
    else_expr: Option<ExprId>,
    t: State,
    merge: BasicBlockId,
    then_run: Run,
    else_run: Run,
)
    requires
        header.0 < s.blocks.len(),
        frame::fits(then_run.start),
        rules::open_if(s, header, cond, else_expr is Some) == (
            then_run.start,
            then_run.entry,
            merge,
            else_run.entry,
        ),
        frame::keeps_values(s, then_run.start),
        is_run(cx, then_run, then_expr),
        frame::step(
            then_run.start,
            then_run.entry,
            then_run.end.state,
            then_run.end.next,
        ),
        else_run.start == rules::join(then_run.end.state, then_run.end.next, merge),
        else_expr matches Some(other) ==> is_run(cx, else_run, other) && frame::step(
            else_run.start,
            else_run.entry,
            else_run.end.state,
            else_run.end.next,
        ),
        t == match else_expr {
            Some(_) => rules::join(else_run.end.state, else_run.end.next, merge),
            None => else_run.start,
        },
    ensures
        branches(
            cx,
            s,
            header,
            cond,
            then_expr,
            else_expr,
            t,
            merge,
            then_run,
            else_run,
        ),
{
    reveal(rules::open_if);
    reveal(frame::step);
    reveal(in_turn);
    let opened = then_run.start;
    let first = then_run.end.state;
    let mid = else_run.start;
    let h = header.0 as int;
    let m = merge.0 as int;
    let e = else_run.entry.0 as int;
    assert(first.blocks[h] == opened.blocks[h]);
    assert(first.blocks[m] == opened.blocks[m]);
    assert(else_expr is Some ==> first.blocks[e] == opened.blocks[e]);
    assert(opened.blocks[m] =~= state::open_block());
    assert(frame::keeps_values(first, mid));
    assert forall|b: int|
        0 <= b < mid.blocks.len() && b != e && b != m implies #[trigger] t.blocks[b]
        == mid.blocks[b] by {
        if else_expr is Some {
            assert(else_run.end.state.blocks[b] == mid.blocks[b]);
        }
    }
    if else_expr is Some {
        assert(else_run.end.state.blocks[m] == mid.blocks[m]);
        assert(t.blocks[m] == mid.blocks[m]);
        assert(frame::keeps_values(else_run.end.state, t));
        frame::lemma_keeps_values_trans(mid, else_run.end.state, t);
        frame::lemma_keeps_values_trans(s, opened, first);
        frame::lemma_keeps_values_trans(s, first, mid);
    }
    frame::lemma_keeps_values_trans(first, mid, t);
    assert(holds_run(t, then_run)) by {
        assert forall|b: int|
            #![trigger t.blocks[b]]
            b == then_run.entry.0 || opened.blocks.len() <= b < first.blocks.len() implies {
            &&& t.blocks[b].insts == first.blocks[b].insts
            &&& !goes_on_in(then_run, b) ==> t.blocks[b] == first.blocks[b]
        } by {
            assert(t.blocks[b] == mid.blocks[b]);
        }
    }
}

} // verus!
