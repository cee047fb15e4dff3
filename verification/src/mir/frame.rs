//! What a step of lowering leaves alone.

use vstd::prelude::*;

use crate::mir::ir::{BasicBlockId, InstModel, Terminator, TerminatorModel, ValueModel};
use crate::mir::state::State;

verus! {

/// Whether the blocks and values of a state can all be numbered.
pub open spec fn fits(s: State) -> bool {
    &&& s.blocks.len() <= usize::MAX
    &&& s.values.len() <= usize::MAX
}

/// From `s` to `t`, the values of `s` stay, and so does what is known of them as elements of
/// arrays.
pub open spec fn keeps_values(s: State, t: State) -> bool {
    &&& s.values.len() <= t.values.len()
    &&& forall|i: int| 0 <= i < s.values.len() ==> #[trigger] t.values[i] == s.values[i]
    &&& forall|v: usize|
        v < s.values.len() && #[trigger] s.array_index_info.contains_key(v)
            ==> t.array_index_info.contains_key(v) && t.array_index_info[v]
            == s.array_index_info[v]
}

/// From `s` to `t`, the loops that have a header in `s` stay as they are.
pub open spec fn keeps_loops(s: State, t: State) -> bool {
    forall|h: usize|
        h < s.blocks.len() && #[trigger] s.loop_headers.contains_key(h)
            ==> t.loop_headers.contains_key(h) && t.loop_headers[h] == s.loop_headers[h]
}

/// From `s` to `t`, every block of `s` but `block` stays as it is, and `block` keeps its
/// instructions as the first ones.
pub open spec fn keeps_blocks(s: State, block: BasicBlockId, t: State) -> bool {
    &&& s.blocks.len() <= t.blocks.len()
    &&& forall|i: int|
        0 <= i < s.blocks.len() && i != block.0 ==> #[trigger] t.blocks[i] == s.blocks[i]
    &&& s.blocks[block.0 as int].insts.is_prefix_of(t.blocks[block.0 as int].insts)
}

/// Control that was at the end of `block` goes on in `next`, or nowhere.
///
/// It goes on at the end of `block` itself, which then ends as it did, or at the end of a new
/// block, which is open. Where it does not go on in `block`, the block has a terminator.
pub open spec fn goes_on(
    s: State,
    block: BasicBlockId,
    t: State,
    next: Option<BasicBlockId>,
) -> bool {
    match next {
        Some(next) if next == block => t.blocks[block.0 as int].terminator
            == s.blocks[block.0 as int].terminator,
        Some(next) => {
            &&& s.blocks.len() <= next.0 < t.blocks.len()
            &&& t.blocks[next.0 as int].terminator is None
            &&& t.blocks[block.0 as int].terminator is Some
        },
        None => t.blocks[block.0 as int].terminator is Some,
    }
}

/// Whether a terminator leads to `target`.
pub open spec fn leads_to(end: TerminatorModel, target: BasicBlockId) -> bool {
    match end {
        Terminator::Return(_) => false,
        Terminator::ReturnData { .. } => false,
        Terminator::Goto { target: only } => only == target,
        Terminator::Branch { then_bb, else_bb, .. } => then_bb == target || else_bb == target,
        Terminator::Switch { targets, default, .. } => default == target || exists|i: int|
            0 <= i < targets.len() && (#[trigger] targets[i]).block == target,
        Terminator::Unreachable => false,
    }
}

/// Whether `block` is where `continue` or `break` lead.
pub open spec fn is_loop_target(s: State, block: BasicBlockId) -> bool {
    s.loop_stack.len() > 0 && (s.loop_stack.last().continue_target == block
        || s.loop_stack.last().break_target == block)
}

/// Whether control that reaches `target` is taken care of: the block has a terminator, or
/// lowering goes on there, or it belongs to the loop around.
pub open spec fn cared_for(t: State, next: Option<BasicBlockId>, target: BasicBlockId) -> bool {
    ||| target.0 < t.blocks.len() && t.blocks[target.0 as int].terminator is Some
    ||| next == Some(target)
    ||| is_loop_target(t, target)
}

/// Whether the end of the block at position `i` was written on the way from `s` to `t`.
pub open spec fn ended(
    s: State,
    block: BasicBlockId,
    t: State,
    next: Option<BasicBlockId>,
    i: int,
) -> bool {
    ||| s.blocks.len() <= i < t.blocks.len()
    ||| i == block.0 && next != Some(block)
}

/// Wherever the blocks that were ended on the way from `s` to `t` lead, control is taken care of.
pub open spec fn wired(
    s: State,
    block: BasicBlockId,
    t: State,
    next: Option<BasicBlockId>,
) -> bool {
    forall|i: int, target: BasicBlockId|
        ended(s, block, t, next, i) && t.blocks[i].terminator is Some && #[trigger] leads_to(
            t.blocks[i].terminator->0,
            target,
        ) ==> cared_for(t, next, target)
}

/// A step of lowering that starts at the end of `block` and goes on at the end of `next`.
#[verifier::opaque]
pub open spec fn step(
    s: State,
    block: BasicBlockId,
    t: State,
    next: Option<BasicBlockId>,
) -> bool {
    &&& block.0 < s.blocks.len()
    &&& keeps_values(s, t)
    &&& keeps_loops(s, t)
    &&& keeps_blocks(s, block, t)
    &&& goes_on(s, block, t, next)
    &&& wired(s, block, t, next)
    &&& s.loop_stack == t.loop_stack
}

/// What is kept from `s` to `t` and from `t` to `u` is kept from `s` to `u`.
pub proof fn lemma_keeps_values_trans(s: State, t: State, u: State)
    requires
        keeps_values(s, t),
        keeps_values(t, u),
    ensures
        keeps_values(s, u),
{
    assert forall|i: int| 0 <= i < s.values.len() implies #[trigger] u.values[i]
        == s.values[i] by {
        assert(t.values[i] == s.values[i]);
    }
    assert forall|v: usize| v < s.values.len() && #[trigger] s.array_index_info.contains_key(
        v,
    ) implies u.array_index_info.contains_key(v) && u.array_index_info[v]
        == s.array_index_info[v] by {
        assert(t.array_index_info.contains_key(v));
    }
}

/// One step after another is a step.
pub proof fn lemma_trans(
    s: State,
    block: BasicBlockId,
    t: State,
    mid: BasicBlockId,
    u: State,
    next: Option<BasicBlockId>,
)
    requires
        step(s, block, t, Some(mid)),
        step(t, mid, u, next),
    ensures
        step(s, block, u, next),
{
    reveal(step);
    let b = block.0 as int;
    assert(s.blocks[b].insts.is_prefix_of(u.blocks[b].insts)) by {
        if mid != block {
            assert(u.blocks[b] == t.blocks[b]);
        } else {
            let first = s.blocks[b].insts;
            let second = t.blocks[b].insts;
            let third = u.blocks[b].insts;
            assert(first =~= second.subrange(0, first.len() as int));
            assert(second =~= third.subrange(0, second.len() as int));
            assert(first =~= third.subrange(0, first.len() as int));
        }
    }
    lemma_keeps_values_trans(s, t, u);
    assert forall|i: int| 0 <= i < s.blocks.len() && i != block.0 implies #[trigger] u.blocks[i]
        == s.blocks[i] by {
        assert(t.blocks[i] == s.blocks[i]);
    }
    if mid != block {
        assert(u.blocks[b] == t.blocks[b]);
    }
    assert(wired(s, block, u, next)) by {
        assert forall|i: int, target: BasicBlockId|
            ended(s, block, u, next, i) && u.blocks[i].terminator is Some && #[trigger] leads_to(
                u.blocks[i].terminator->0,
                target,
            ) implies cared_for(u, next, target) by {
            if !ended(t, mid, u, next, i) && i < t.blocks.len() {
                assert(ended(s, block, t, Some(mid), i));
                if i != mid.0 {
                    assert(u.blocks[i] == t.blocks[i]);
                }
                assert(leads_to(t.blocks[i].terminator->0, target));
                assert(cared_for(t, Some(mid), target));
                if target.0 < t.blocks.len() && target != mid {
                    assert(u.blocks[target.0 as int] == t.blocks[target.0 as int]);
                }
            }
        }
    }
}

/// Adding values, and nothing else, is a step.
pub proof fn lemma_values(s: State, block: BasicBlockId, t: State)
    requires
        block.0 < s.blocks.len(),
        t.blocks == s.blocks,
        t.loop_headers == s.loop_headers,
        t.loop_stack == s.loop_stack,
        keeps_values(s, t),
    ensures
        step(s, block, t, Some(block)),
{
    reveal(step);
    let insts = s.blocks[block.0 as int].insts;
    assert(insts =~= insts.subrange(0, insts.len() as int));
}

/// Adding one value is a step.
pub proof fn lemma_with_value(s: State, block: BasicBlockId, value: ValueModel)
    requires
        block.0 < s.blocks.len(),
    ensures
        step(s, block, s.with_value(value), Some(block)),
{
    lemma_values(s, block, s.with_value(value));
}

/// Adding an instruction is a step.
pub proof fn lemma_with_inst(s: State, block: BasicBlockId, inst: InstModel)
    requires
        block.0 < s.blocks.len(),
    ensures
        step(s, block, s.with_inst(block, inst), Some(block)),
{
    reveal(step);
    let insts = s.blocks[block.0 as int].insts;
    assert(insts =~= insts.push(inst).subrange(0, insts.len() as int));
}

/// Ending a block is a step that does not go on.
pub proof fn lemma_with_terminator(s: State, block: BasicBlockId, end: TerminatorModel)
    requires
        block.0 < s.blocks.len(),
        forall|target: BasicBlockId| #[trigger]
            leads_to(end, target) ==> cared_for(s.with_terminator(block, end), None, target),
    ensures
        step(s, block, s.with_terminator(block, end), None),
{
    reveal(step);
    let insts = s.blocks[block.0 as int].insts;
    assert(insts =~= insts.subrange(0, insts.len() as int));
}

} // verus!
