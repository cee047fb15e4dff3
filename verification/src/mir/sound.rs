//! What a sound lowering state is, and that the elementary steps keep it sound.

use vstd::prelude::*;

use crate::hir::ids::ExprId;
use crate::mir::ir::{
    BasicBlockId, BlockModel, InstModel, LoopInfo, LoopScope, MirInst, SwitchTarget,
    SyntheticValue, TerminatorModel, Terminator, ValueId, ValueModel, ValueOrigin,
};
use crate::mir::state::State;

verus! {

/// Whether all of `ids` are below `n`.
pub open spec fn values_below(ids: Seq<ValueId>, n: nat) -> bool {
    forall|i: int| 0 <= i < ids.len() ==> (#[trigger] ids[i]).0 < n
}

/// Whether an optional value is below `n`.
pub open spec fn option_below(id: Option<ValueId>, n: nat) -> bool {
    match id {
        Some(id) => id.0 < n,
        None => true,
    }
}

/// Whether a value is built from values below `n` only.
pub open spec fn value_sound(value: ValueModel, n: nat) -> bool {
    match value.origin {
        ValueOrigin::Expr(_) => true,
        ValueOrigin::Synthetic(SyntheticValue::Comparison { left, right, .. }) => left.0 < n
            && right.0 < n,
        ValueOrigin::Synthetic(_) => true,
        ValueOrigin::Intrinsic(intrinsic) => values_below(intrinsic.args, n),
        ValueOrigin::Call(call) => values_below(call.args, n),
        ValueOrigin::FieldPtr(ptr) => ptr.base.0 < n,
    }
}

/// Whether an instruction works on values below `n` only.
pub open spec fn inst_sound(inst: InstModel, n: nat) -> bool {
    match inst {
        MirInst::Let { value, .. } => option_below(value, n),
        MirInst::Assign { value, .. } => value.0 < n,
        MirInst::AugAssign { value, .. } => value.0 < n,
        MirInst::AugAssignVariable { value, .. } => value.0 < n,
        MirInst::Eval { value, .. } => value.0 < n,
        MirInst::EvalExpr { value, .. } => value.0 < n,
        MirInst::IntrinsicStmt { args, .. } => values_below(args, n),
    }
}

/// Whether the blocks of all cases are below `n`.
pub open spec fn targets_below(targets: Seq<SwitchTarget>, n: nat) -> bool {
    forall|i: int| 0 <= i < targets.len() ==> (#[trigger] targets[i]).block.0 < n
}

/// Whether a terminator leads to blocks below `blocks` and reads values below `values` only.
pub open spec fn end_sound(end: TerminatorModel, blocks: nat, values: nat) -> bool {
    match end {
        Terminator::Return(value) => option_below(value, values),
        Terminator::ReturnData { offset, size } => offset.0 < values && size.0 < values,
        Terminator::Goto { target } => target.0 < blocks,
        Terminator::Branch { cond, then_bb, else_bb } => cond.0 < values && then_bb.0 < blocks
            && else_bb.0 < blocks,
        Terminator::Switch { discr, targets, default } => discr.0 < values && default.0 < blocks
            && targets_below(targets, blocks),
        Terminator::Unreachable => true,
    }
}

/// Whether a block's instructions and terminator are sound.
pub open spec fn block_sound(block: BlockModel, blocks: nat, values: nat) -> bool {
    &&& forall|i: int| 0 <= i < block.insts.len() ==> inst_sound(#[trigger] block.insts[i], values)
    &&& block.terminator matches Some(end) ==> end_sound(end, blocks, values)
}

/// Whether the blocks of a loop are below `n`.
pub open spec fn loop_below(info: LoopInfo, n: nat) -> bool {
    &&& info.body.0 < n
    &&& info.exit.0 < n
    &&& info.backedge matches Some(block) ==> block.0 < n
}

/// Whether every identifier in a state names something that exists, and every value is built
/// from earlier values.
#[verifier::opaque]
pub open spec fn sound(s: State) -> bool {
    &&& forall|i: int|
        0 <= i < s.blocks.len() ==> block_sound(
            #[trigger] s.blocks[i],
            s.blocks.len(),
            s.values.len(),
        )
    &&& forall|i: int| 0 <= i < s.values.len() ==> value_sound(#[trigger] s.values[i], i as nat)
    &&& forall|e: usize|
        s.expr_values.contains_key(e) ==> (#[trigger] s.expr_values[e]).0 < s.values.len()
    &&& forall|h: usize| #[trigger]
        s.loop_headers.contains_key(h) ==> h < s.blocks.len() && loop_below(
            s.loop_headers[h],
            s.blocks.len(),
        )
    &&& forall|i: int|
        0 <= i < s.loop_stack.len() ==> (#[trigger] s.loop_stack[i]).continue_target.0
            < s.blocks.len() && s.loop_stack[i].break_target.0 < s.blocks.len()
    &&& forall|v: usize| #[trigger]
        s.array_index_info.contains_key(v) ==> v < s.values.len() && s.array_index_info[v].0.0
            < s.values.len() && s.array_index_info[v].1.0 < s.values.len()
    &&& forall|v: usize| #[trigger] s.value_spaces.contains_key(v) ==> v < s.values.len()
}

/// Soundness of a block lasts when there are more blocks and values.
proof fn lemma_block_sound_lasts(block: BlockModel, b1: nat, v1: nat, b2: nat, v2: nat)
    requires
        block_sound(block, b1, v1),
        b1 <= b2,
        v1 <= v2,
    ensures
        block_sound(block, b2, v2),
{
    assert forall|i: int| 0 <= i < block.insts.len() implies inst_sound(
        #[trigger] block.insts[i],
        v2,
    ) by {
        assert(inst_sound(block.insts[i], v1));
    }
}

/// Soundness does not depend on where variables live, nor on where the values that exist live.
pub proof fn lemma_same(s: State, t: State)
    requires
        sound(s),
        t.blocks == s.blocks,
        t.values == s.values,
        t.expr_values == s.expr_values,
        t.loop_headers == s.loop_headers,
        t.loop_stack == s.loop_stack,
        t.array_index_info == s.array_index_info,
        forall|v: usize| #[trigger]
            t.value_spaces.contains_key(v) ==> s.value_spaces.contains_key(v) || v < s.values.len(),
    ensures
        sound(t),
{
    reveal(sound);
}

/// Where a value lives is settled only once the value exists.
pub proof fn lemma_settled_exists(s: State, value: ValueId)
    requires
        sound(s),
        s.value_spaces.contains_key(value.0),
    ensures
        value.0 < s.values.len(),
{
    reveal(sound);
}

/// A value that an expression already has exists.
pub proof fn lemma_known_value(s: State, expr: ExprId)
    requires
        sound(s),
        s.expr_values.contains_key(expr.0),
    ensures
        s.expr_values[expr.0].0 < s.values.len(),
{
    reveal(sound);
}

/// The blocks around the current point exist.
pub proof fn lemma_open_loops(s: State)
    requires
        sound(s),
        s.loop_stack.len() > 0,
    ensures
        s.loop_stack.last().continue_target.0 < s.blocks.len(),
        s.loop_stack.last().break_target.0 < s.blocks.len(),
{
    reveal(sound);
    assert(s.loop_stack[s.loop_stack.len() - 1] == s.loop_stack.last());
}

/// A new block keeps a state sound.
pub proof fn lemma_with_block(s: State)
    requires
        sound(s),
    ensures
        sound(s.with_block()),
{
    reveal(sound);
    let t = s.with_block();
    assert forall|i: int| 0 <= i < t.blocks.len() implies block_sound(
        #[trigger] t.blocks[i],
        t.blocks.len(),
        t.values.len(),
    ) by {
        if i < s.blocks.len() {
            assert(t.blocks[i] == s.blocks[i]);
            lemma_block_sound_lasts(
                s.blocks[i],
                s.blocks.len(),
                s.values.len(),
                t.blocks.len(),
                t.values.len(),
            );
        }
    }
}

/// A new value that is built from earlier ones keeps a state sound.
pub proof fn lemma_with_value(s: State, value: ValueModel)
    requires
        sound(s),
        value_sound(value, s.values.len()),
    ensures
        sound(s.with_value(value)),
{
    reveal(sound);
    let t = s.with_value(value);
    assert forall|i: int| 0 <= i < t.blocks.len() implies block_sound(
        #[trigger] t.blocks[i],
        t.blocks.len(),
        t.values.len(),
    ) by {
        lemma_block_sound_lasts(
            s.blocks[i],
            s.blocks.len(),
            s.values.len(),
            t.blocks.len(),
            t.values.len(),
        );
    }
}

/// A new instruction on values that exist keeps a state sound.
pub proof fn lemma_with_inst(s: State, block: BasicBlockId, inst: InstModel)
    requires
        sound(s),
        inst_sound(inst, s.values.len()),
    ensures
        sound(s.with_inst(block, inst)),
{
    reveal(sound);
    let t = s.with_inst(block, inst);
    assert forall|i: int| 0 <= i < t.blocks.len() implies block_sound(
        #[trigger] t.blocks[i],
        t.blocks.len(),
        t.values.len(),
    ) by {
        assert(block_sound(s.blocks[i], s.blocks.len(), s.values.len()));
        if i == block.0 {
            let insts = t.blocks[i].insts;
            assert forall|j: int| 0 <= j < insts.len() implies inst_sound(
                #[trigger] insts[j],
                t.values.len(),
            ) by {
                if j < s.blocks[i].insts.len() {
                    assert(insts[j] == s.blocks[i].insts[j]);
                }
            }
        }
    }
}

/// A terminator that leads to blocks and reads values that exist keeps a state sound.
pub proof fn lemma_with_terminator(s: State, block: BasicBlockId, end: TerminatorModel)
    requires
        sound(s),
        end_sound(end, s.blocks.len(), s.values.len()),
    ensures
        sound(s.with_terminator(block, end)),
{
    reveal(sound);
    let t = s.with_terminator(block, end);
    assert forall|i: int| 0 <= i < t.blocks.len() implies block_sound(
        #[trigger] t.blocks[i],
        t.blocks.len(),
        t.values.len(),
    ) by {
        assert(block_sound(s.blocks[i], s.blocks.len(), s.values.len()));
        if i == block.0 {
            assert(t.blocks[i].insts == s.blocks[i].insts);
        }
    }
}

/// Giving an expression a value that exists keeps a state sound.
pub proof fn lemma_with_expr_value(s: State, expr: ExprId, value: ValueId)
    requires
        sound(s),
        value.0 < s.values.len(),
    ensures
        sound(s.with_expr_value(expr, value)),
{
    reveal(sound);
    let t = s.with_expr_value(expr, value);
    assert forall|e: usize| t.expr_values.contains_key(e) implies (#[trigger] t.expr_values[e]).0
        < t.values.len() by {
        if e != expr.0 {
            assert(t.expr_values[e] == s.expr_values[e]);
        }
    }
}

/// Registering a loop of blocks that exist keeps a state sound.
pub proof fn lemma_with_loop(s: State, header: BasicBlockId, info: LoopInfo)
    requires
        sound(s),
        header.0 < s.blocks.len(),
        loop_below(info, s.blocks.len()),
    ensures
        sound(s.with_loop(header, info)),
{
    reveal(sound);
    let t = s.with_loop(header, info);
    assert forall|h: usize| #[trigger] t.loop_headers.contains_key(h) implies h < t.blocks.len()
        && loop_below(t.loop_headers[h], t.blocks.len()) by {
        if h != header.0 {
            assert(s.loop_headers.contains_key(h));
        }
    }
}

/// Recording an element of an array keeps a state sound.
pub proof fn lemma_with_element(s: State, value: ValueId, array: ValueId, index: ValueId)
    requires
        sound(s),
        value.0 < s.values.len(),
        array.0 < s.values.len(),
        index.0 < s.values.len(),
    ensures
        sound(s.with_element(value, array, index)),
{
    reveal(sound);
    let t = s.with_element(value, array, index);
    assert forall|v: usize| #[trigger] t.array_index_info.contains_key(v) implies v
        < t.values.len() && t.array_index_info[v].0.0 < t.values.len()
        && t.array_index_info[v].1.0 < t.values.len() by {
        if v != value.0 {
            assert(s.array_index_info.contains_key(v));
        }
    }
}

/// Entering a loop of blocks that exist keeps a state sound.
pub proof fn lemma_enter_loop(s: State, scope: LoopScope)
    requires
        sound(s),
        scope.continue_target.0 < s.blocks.len(),
        scope.break_target.0 < s.blocks.len(),
    ensures
        sound(s.enter_loop(scope)),
{
    reveal(sound);
    let t = s.enter_loop(scope);
    assert forall|i: int| 0 <= i < t.loop_stack.len() implies (
    #[trigger] t.loop_stack[i]).continue_target.0 < t.blocks.len()
        && t.loop_stack[i].break_target.0 < t.blocks.len() by {
        if i < s.loop_stack.len() {
            assert(t.loop_stack[i] == s.loop_stack[i]);
        }
    }
}

/// Leaving a loop keeps a state sound.
pub proof fn lemma_leave_loop(s: State)
    requires
        sound(s),
        s.loop_stack.len() > 0,
    ensures
        sound(s.leave_loop()),
{
    reveal(sound);
    let t = s.leave_loop();
    assert forall|i: int| 0 <= i < t.loop_stack.len() implies (
    #[trigger] t.loop_stack[i]).continue_target.0 < t.blocks.len()
        && t.loop_stack[i].break_target.0 < t.blocks.len() by {
        assert(t.loop_stack[i] == s.loop_stack[i]);
    }
}

} // verus!
