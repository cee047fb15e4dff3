//! The blocks of a loop, taken together, are one step.

use vstd::prelude::*;

use crate::mir::frame;
use crate::mir::ir::{
    BasicBlockId, LoopInfo, LoopScope, SwitchTarget, Terminator, ValueId,
};
use crate::mir::state::State;

verus! {

/// The states on the way through a loop.
pub struct Passage {
    /// Before the loop, at the end of `block`.
    pub before: State,
    /// The blocks of the loop are made and `block` leads to the test.
    pub opened: State,
    /// The test is lowered.
    pub tested: State,
    /// A round is prepared.
    pub prepared: State,
    /// The body is lowered.
    pub round: State,
    /// The end of a round is reached.
    pub stepped: State,
}

/// The blocks of a loop.
pub struct LoopPlan {
    pub block: BasicBlockId,
    pub cond_entry: BasicBlockId,
    /// The end of the test.
    pub header: BasicBlockId,
    /// The first block of a round.
    pub body_entry: BasicBlockId,
    pub body_block: BasicBlockId,
    /// The end of a round.
    pub body_end: Option<BasicBlockId>,
    pub exit_block: BasicBlockId,
    pub test: ValueId,
}

/// The state after the loop.
pub open spec fn closed_loop(plan: LoopPlan, stepped: State) -> State {
    let s1 = match plan.body_end {
        Some(end) => stepped.with_terminator(end, Terminator::Goto { target: plan.cond_entry }),
        None => stepped,
    };
    let branch = Terminator::Branch {
        cond: plan.test,
        then_bb: plan.body_entry,
        else_bb: plan.exit_block,
    };
    let info = LoopInfo { body: plan.body_entry, exit: plan.exit_block, backedge: plan.body_end };
    s1.leave_loop().with_terminator(plan.header, branch).with_loop(plan.cond_entry, info)
}

/// Whether `plan` is made of new blocks, and `opened` adds just these, all of them open.
pub open spec fn opens(before: State, plan: LoopPlan, opened: State) -> bool {
    let n = before.blocks.len();
    let m = opened.blocks.len();
    let b = plan.block.0 as int;
    &&& plan.block.0 < n
    &&& n <= plan.cond_entry.0 < m
    &&& n <= plan.body_block.0 < m
    &&& n <= plan.body_entry.0 < m
    &&& n <= plan.exit_block.0 < m
    &&& plan.cond_entry != plan.body_block
    &&& plan.cond_entry != plan.body_entry
    &&& plan.cond_entry != plan.exit_block
    &&& plan.exit_block != plan.body_block
    &&& plan.exit_block != plan.body_entry
    &&& forall|i: int|
        0 <= i < n && i != b ==> #[trigger] opened.blocks[i] == before.blocks[i]
    &&& forall|i: int|
        n <= i < m ==> (#[trigger] opened.blocks[i]).terminator is None && (i
            == plan.cond_entry.0 || i == plan.body_block.0 || i == plan.body_entry.0 || i
            == plan.exit_block.0)
    &&& before.blocks[b].insts.is_prefix_of(opened.blocks[b].insts)
    &&& opened.blocks[b].terminator == Some(
        Terminator::<Seq<SwitchTarget>>::Goto { target: plan.cond_entry },
    )
    &&& frame::keeps_values(before, opened)
    &&& opened.loop_headers == before.loop_headers
    &&& opened.loop_stack == before.loop_stack
}

/// Whether a round is prepared: its first block, where it is not the body's, leads to the body.
pub open spec fn prepares(plan: LoopPlan, tested: State, prepared: State) -> bool {
    &&& prepared.blocks.len() == tested.blocks.len()
    &&& forall|i: int|
        0 <= i < tested.blocks.len() && (i != plan.body_entry.0 || plan.body_entry
            == plan.body_block) ==> #[trigger] prepared.blocks[i] == tested.blocks[i]
    &&& plan.body_entry != plan.body_block ==> prepared.blocks[plan.body_entry.0 as int].terminator
        == Some(
        Terminator::<Seq<SwitchTarget>>::Goto { target: plan.body_block },
    )
    &&& frame::keeps_values(tested, prepared)
    &&& prepared.loop_headers == tested.loop_headers
    &&& prepared.loop_stack == tested.loop_stack
}

/// Whether the states of a passage follow each other as those of a loop do.
pub open spec fn passes(p: Passage, plan: LoopPlan) -> bool {
    let scope = LoopScope { continue_target: plan.cond_entry, break_target: plan.exit_block };
    &&& opens(p.before, plan, p.opened)
    &&& frame::step(p.opened, plan.cond_entry, p.tested, Some(plan.header))
    &&& prepares(plan, p.tested, p.prepared)
    &&& frame::step(p.prepared.enter_loop(scope), plan.body_block, p.round, plan.body_end)
    &&& match plan.body_end {
        Some(end) => frame::step(p.round, end, p.stepped, Some(end)) && p.stepped.blocks.len()
            == p.round.blocks.len(),
        None => p.stepped == p.round,
    }
}

/// A step leaves no block without terminator that had one.
proof fn lemma_ends_stay(
    s: State,
    block: BasicBlockId,
    t: State,
    next: Option<BasicBlockId>,
    i: int,
)
    requires
        frame::step(s, block, t, next),
        0 <= i < s.blocks.len(),
        s.blocks[i].terminator is Some,
    ensures
        t.blocks[i].terminator is Some,
{
    reveal(frame::step);
    if i != block.0 {
        assert(t.blocks[i] == s.blocks[i]);
    }
}

/// A loop keeps the blocks, the values and the loops from before it.
proof fn lemma_loop_keeps(p: Passage, plan: LoopPlan)
    requires
        passes(p, plan),
    ensures
        frame::keeps_values(p.before, closed_loop(plan, p.stepped)),
        frame::keeps_loops(p.before, closed_loop(plan, p.stepped)),
        frame::keeps_blocks(p.before, plan.block, closed_loop(plan, p.stepped)),
        closed_loop(plan, p.stepped).blocks[plan.block.0 as int].terminator is Some,
        closed_loop(plan, p.stepped).blocks[plan.exit_block.0 as int].terminator is None,
        closed_loop(plan, p.stepped).loop_stack == p.before.loop_stack,
        plan.exit_block.0 < closed_loop(plan, p.stepped).blocks.len(),
{
    reveal(frame::step);
    let t = closed_loop(plan, p.stepped);
    let n = p.before.blocks.len();
    let scope = LoopScope { continue_target: plan.cond_entry, break_target: plan.exit_block };
    assert(p.prepared.loop_stack.push(scope).drop_last() == p.prepared.loop_stack);
    assert forall|i: int| 0 <= i < p.opened.blocks.len() && i != plan.cond_entry.0 && i
        != plan.body_block.0 && i != plan.body_entry.0 implies #[trigger] t.blocks[i]
        == p.opened.blocks[i] by {
        assert(p.tested.blocks[i] == p.opened.blocks[i]);
        assert(p.prepared.blocks[i] == p.tested.blocks[i]);
        assert(p.round.blocks[i] == p.prepared.blocks[i]);
        if plan.body_end is Some {
            assert(p.stepped.blocks[i] == p.round.blocks[i]);
        }
    }
    frame::lemma_keeps_values_trans(p.before, p.opened, p.tested);
    frame::lemma_keeps_values_trans(p.before, p.tested, p.prepared);
    let entered = p.prepared.enter_loop(scope);
    frame::lemma_keeps_values_trans(p.before, p.prepared, entered);
    frame::lemma_keeps_values_trans(p.before, entered, p.round);
    frame::lemma_keeps_values_trans(p.before, p.round, p.stepped);
    assert forall|h: usize|
        h < p.before.blocks.len() && #[trigger] p.before.loop_headers.contains_key(
            h,
        ) implies t.loop_headers.contains_key(h) && t.loop_headers[h]
        == p.before.loop_headers[h] by {
        assert(p.opened.loop_headers.contains_key(h));
        assert(p.tested.loop_headers.contains_key(h));
        assert(p.prepared.enter_loop(scope).loop_headers.contains_key(h));
        assert(p.round.loop_headers.contains_key(h));
        assert(p.stepped.loop_headers.contains_key(h));
    }
    assert(t.blocks[plan.block.0 as int] == p.opened.blocks[plan.block.0 as int]);
    assert(t.blocks[plan.exit_block.0 as int] == p.opened.blocks[plan.exit_block.0 as int]);
}

/// Blocks that have a terminator when the body is lowered still have one after the loop.
proof fn lemma_closed_after(p: Passage, plan: LoopPlan)
    requires
        passes(p, plan),
    ensures
        forall|i: int|
            0 <= i < p.round.blocks.len() && p.round.blocks[i].terminator is Some ==> (
            #[trigger] closed_loop(plan, p.stepped).blocks[i]).terminator is Some,
        forall|i: int|
            0 <= i < p.tested.blocks.len() && p.tested.blocks[i].terminator is Some ==> (
            #[trigger] closed_loop(plan, p.stepped).blocks[i]).terminator is Some,
        closed_loop(plan, p.stepped).blocks[plan.header.0 as int].terminator is Some,
        closed_loop(plan, p.stepped).blocks[plan.cond_entry.0 as int].terminator is Some,
        closed_loop(plan, p.stepped).blocks[plan.body_block.0 as int].terminator is Some,
        closed_loop(plan, p.stepped).blocks[plan.body_entry.0 as int].terminator is Some,
        plan.body_end matches Some(end) ==> closed_loop(
            plan,
            p.stepped,
        ).blocks[end.0 as int].terminator is Some,
{
    let t = closed_loop(plan, p.stepped);
    let scope = LoopScope { continue_target: plan.cond_entry, break_target: plan.exit_block };
    let entered = p.prepared.enter_loop(scope);
    assert forall|i: int| 0 <= i < p.round.blocks.len() && p.round.blocks[i].terminator is Some
        implies (#[trigger] t.blocks[i]).terminator is Some by {
        if let Some(end) = plan.body_end {
            lemma_ends_stay(p.round, end, p.stepped, Some(end), i);
        }
        reveal(frame::step);
    }
    assert forall|i: int| 0 <= i < p.prepared.blocks.len()
        && p.prepared.blocks[i].terminator is Some implies p.round.blocks[i].terminator is Some by {
        lemma_ends_stay(entered, plan.body_block, p.round, plan.body_end, i);
    }
    reveal(frame::step);
    assert forall|i: int| 0 <= i < p.tested.blocks.len() && p.tested.blocks[i].terminator is Some
        implies (#[trigger] t.blocks[i]).terminator is Some by {
        assert(p.prepared.blocks[i].terminator is Some);
        assert(p.round.blocks[i].terminator is Some);
    }
    if plan.body_entry != plan.body_block {
        assert(p.prepared.blocks[plan.body_entry.0 as int].terminator is Some);
        assert(p.round.blocks[plan.body_entry.0 as int].terminator is Some);
    }
    if plan.body_end != Some(plan.body_block) {
        assert(p.round.blocks[plan.body_block.0 as int].terminator is Some);
    }
    if plan.header != plan.cond_entry {
        assert(p.tested.blocks[plan.cond_entry.0 as int].terminator is Some);
    }
}

/// A loop is a step from the block before it to its exit.
pub proof fn lemma_loop(p: Passage, plan: LoopPlan)
    requires
        passes(p, plan),
    ensures
        frame::step(p.before, plan.block, closed_loop(plan, p.stepped), Some(plan.exit_block)),
{
    let t = closed_loop(plan, p.stepped);
    let next = Some(plan.exit_block);
    lemma_loop_keeps(p, plan);
    lemma_closed_after(p, plan);
    assert(frame::wired(p.before, plan.block, t, next)) by {
        assert forall|i: int, target: BasicBlockId|
            frame::ended(p.before, plan.block, t, next, i) && t.blocks[i].terminator is Some
                && #[trigger] frame::leads_to(
                t.blocks[i].terminator->0,
                target,
            ) implies frame::cared_for(t, next, target) by {
            lemma_loop_leads(p, plan, i, target);
        }
    }
    reveal(frame::step);
}

/// What a loop looks like once it is closed.
pub open spec fn is_loop(t: State, plan: LoopPlan) -> bool {
    let branch = Terminator::<Seq<SwitchTarget>>::Branch {
        cond: plan.test,
        then_bb: plan.body_entry,
        else_bb: plan.exit_block,
    };
    let back = Terminator::<Seq<SwitchTarget>>::Goto { target: plan.cond_entry };
    let info = LoopInfo { body: plan.body_entry, exit: plan.exit_block, backedge: plan.body_end };
    &&& t.blocks[plan.block.0 as int].terminator == Some(back)
    &&& t.blocks[plan.header.0 as int].terminator == Some(branch)
    &&& plan.body_end matches Some(end) ==> t.blocks[end.0 as int].terminator == Some(back)
    &&& plan.body_entry != plan.body_block ==> t.blocks[plan.body_entry.0 as int].terminator
        == Some(Terminator::<Seq<SwitchTarget>>::Goto { target: plan.body_block })
    &&& t.blocks[plan.exit_block.0 as int].terminator is None
    &&& t.loop_headers.contains_key(plan.cond_entry.0)
    &&& t.loop_headers[plan.cond_entry.0] == info
}

/// A loop leads to its test, the test to a round or to the exit, and a round back to the test.
pub proof fn lemma_is_loop(p: Passage, plan: LoopPlan)
    requires
        passes(p, plan),
    ensures
        is_loop(closed_loop(plan, p.stepped), plan),
        closed_loop(plan, p.stepped).blocks[plan.block.0 as int]
            == p.opened.blocks[plan.block.0 as int],
        plan.body_end matches Some(end) ==> closed_loop(plan, p.stepped).blocks[end.0 as int].insts
            == p.stepped.blocks[end.0 as int].insts,
        plan.body_entry != plan.body_block ==> closed_loop(
            plan,
            p.stepped,
        ).blocks[plan.body_entry.0 as int] == p.prepared.blocks[plan.body_entry.0 as int],
        frame::keeps_values(p.prepared, closed_loop(plan, p.stepped)),
        frame::keeps_values(p.stepped, closed_loop(plan, p.stepped)),
{
    let t = closed_loop(plan, p.stepped);
    let scope = LoopScope { continue_target: plan.cond_entry, break_target: plan.exit_block };
    let entered = p.prepared.enter_loop(scope);
    lemma_loop_keeps(p, plan);
    reveal(frame::step);
    let b = plan.block.0 as int;
    assert(p.tested.blocks[b] == p.opened.blocks[b]);
    assert(p.prepared.blocks[b] == p.tested.blocks[b]);
    assert(p.round.blocks[b] == p.prepared.blocks[b]);
    if plan.body_end is Some {
        assert(p.stepped.blocks[b] == p.round.blocks[b]);
    }
    if plan.body_entry != plan.body_block {
        let e = plan.body_entry.0 as int;
        assert(p.round.blocks[e] == p.prepared.blocks[e]);
        if plan.body_end is Some {
            assert(p.stepped.blocks[e] == p.round.blocks[e]);
        }
    }
    frame::lemma_keeps_values_trans(p.prepared, entered, p.round);
    frame::lemma_keeps_values_trans(p.prepared, p.round, p.stepped);
    frame::lemma_keeps_values_trans(p.prepared, p.stepped, t);
}

/// Wherever the blocks of a loop lead, control is taken care of.
proof fn lemma_loop_leads(p: Passage, plan: LoopPlan, i: int, target: BasicBlockId)
    requires
        passes(p, plan),
        ({
            let t = closed_loop(plan, p.stepped);
            &&& i == plan.block.0 || p.before.blocks.len() <= i < t.blocks.len()
            &&& t.blocks[i].terminator is Some
            &&& frame::leads_to(t.blocks[i].terminator->0, target)
        }),
    ensures
        frame::cared_for(closed_loop(plan, p.stepped), Some(plan.exit_block), target),
{
    let t = closed_loop(plan, p.stepped);
    let scope = LoopScope { continue_target: plan.cond_entry, break_target: plan.exit_block };
    let entered = p.prepared.enter_loop(scope);
    lemma_loop_keeps(p, plan);
    lemma_closed_after(p, plan);
    reveal(frame::step);
    assert(p.prepared.loop_stack.push(scope).drop_last() == p.prepared.loop_stack);
    assert(entered.loop_stack.last() == scope);
    if i == plan.header.0 {
    } else if plan.body_end is Some && i == (plan.body_end->0).0 {
    } else {
        assert(t.blocks[i] == p.stepped.blocks[i]);
        if plan.body_end is Some {
            assert(p.stepped.blocks[i] == p.round.blocks[i]);
        }
        assert(t.blocks[i] == p.round.blocks[i]);
        if i >= p.prepared.blocks.len() || i == plan.body_block.0 {
            assert(frame::ended(entered, plan.body_block, p.round, plan.body_end, i));
            assert(frame::leads_to(p.round.blocks[i].terminator->0, target));
            assert(frame::cared_for(p.round, plan.body_end, target));
        } else {
            assert(p.round.blocks[i] == p.prepared.blocks[i]);
            if i == plan.body_entry.0 {
            } else {
                assert(p.prepared.blocks[i] == p.tested.blocks[i]);
                if i >= p.opened.blocks.len() || i == plan.cond_entry.0 {
                    assert(frame::ended(
                        p.opened,
                        plan.cond_entry,
                        p.tested,
                        Some(plan.header),
                        i,
                    ));
                    assert(frame::leads_to(p.tested.blocks[i].terminator->0, target));
                    assert(frame::cared_for(p.tested, Some(plan.header), target));
                } else {
                    assert(p.tested.blocks[i] == p.opened.blocks[i]);
                }
            }
        }
    }
}

} // verus!
