//! What lowered values stand for.
//!
//! A call works on the values of its own arguments, in their order and behind its receiver, a
//! field comes from its own place in the aggregate around it, and a value is looked for where it
//! lives.

use vstd::prelude::*;

use crate::hir::body;
use crate::hir::body::{Expr, FieldIndex, Partial};
use crate::hir::ids::{ExprId, IdentId, StmtId};
use crate::hir::typed;
use crate::hir::typed::{AdtRef, FieldAccessInfo, FieldSlot, LocalBinding, TyBase, TyId};
use crate::mir::flow;
use crate::mir::frame;
use crate::mir::growth;
use crate::mir::input::CheckedBody;
use crate::mir::ir::{
    AddressSpaceKind, BasicBlockId, Callable, CoreHelper, FieldPtrOrigin, IntrinsicOp, MirInst,
    ValueId, ValueOrigin,
};
use crate::mir::rules;
use crate::mir::sound;
use crate::mir::state::State;

verus! {

// Where values live.

/// Where a value lives: where that is settled, there; otherwise, if it stands for a variable, where
/// the variable lives; otherwise in memory.
pub open spec fn home(cx: CheckedBody, s: State, value: ValueId) -> AddressSpaceKind {
    if s.value_spaces.contains_key(value.0) {
        s.value_spaces[value.0]
    } else {
        match s.values[value.0 as int].origin {
            ValueOrigin::Expr(expr) => home_of_variable(cx, s, expr),
            _ => AddressSpaceKind::Memory,
        }
    }
}

/// Where the variable that an expression refers to lives: in memory, unless it was bound to a
/// value that lives elsewhere.
pub open spec fn home_of_variable(cx: CheckedBody, s: State, expr: ExprId) -> AddressSpaceKind {
    if cx.has_expr(expr) && cx.typed_body.exprs@[expr.0 as int].binding is Some {
        match cx.typed_body.exprs@[expr.0 as int].binding->0 {
            LocalBinding::Local { pat, .. } if s.pat_spaces.contains_key(pat.0) =>
                s.pat_spaces[pat.0],
            _ => AddressSpaceKind::Memory,
        }
    } else {
        AddressSpaceKind::Memory
    }
}

/// A value is looked for where it lives.
pub proof fn lemma_home(cx: CheckedBody, s: State, value: ValueId)
    requires
        value.0 < s.values.len(),
    ensures
        s.space_of(cx, value) == home(cx, s, value),
{
}

/// The type of pointers into an address space.
pub open spec fn pointer_ty(cx: CheckedBody, space: AddressSpaceKind) -> TyId {
    match space {
        AddressSpaceKind::Memory => cx.core.mem_ptr_ty,
        AddressSpaceKind::Storage => cx.core.stor_ptr_ty,
    }
}

/// Whether a type is the tuple without fields.
pub open spec fn is_nothing(cx: CheckedBody, ty: TyId) -> bool {
    cx.typed_body.types@[ty.0 as int].base == TyBase::Tuple
        && cx.typed_body.types@[ty.0 as int].fields@.len() == 0
}

// Values of expressions.

/// Whether an expression has this value.
pub open spec fn has_value(s: State, expr: ExprId, value: ValueId) -> bool {
    s.expr_values.contains_key(expr.0) && s.expr_values[expr.0] == value
}

/// From `s` to `t`, every expression that has a value keeps it.
pub open spec fn keeps_known(s: State, t: State) -> bool {
    forall|expr: usize| #[trigger]
        s.expr_values.contains_key(expr) ==> t.expr_values.contains_key(expr)
            && t.expr_values[expr] == s.expr_values[expr]
}

/// Giving an expression a value gives it that value, and leaves the values of others alone.
pub proof fn lemma_value_given(cx: CheckedBody, s: State, expr: ExprId)
    requires
        cx.wf(),
        cx.has_expr(expr),
    ensures
        ({
            let (t, value) = rules::ensure_value(cx, s, expr);
            &&& keeps_known(s, t)
            &&& has_value(t, expr, value)
            &&& t.pat_spaces == s.pat_spaces
        }),
    decreases expr.0 as nat, 3nat, 0nat,
{
    if !s.expr_values.contains_key(expr.0) {
        match cx.expr(expr) {
            Partial::Present(Expr::Call(_, _)) => lemma_call_keeps(cx, s, expr),
            Partial::Present(Expr::MethodCall(_, _, _)) => lemma_call_keeps(cx, s, expr),
            Partial::Present(Expr::Field(_, _)) => lemma_field_keeps(cx, s, expr),
            _ => {},
        }
    }
}

/// Giving expressions values gives each its own.
proof fn lemma_values_given(
    cx: CheckedBody,
    s: State,
    exprs: Seq<ExprId>,
    n: nat,
    bound: nat,
)
    requires
        cx.wf(),
        bound <= cx.body.exprs@.len(),
        body::all_before(exprs, bound),
        n <= exprs.len(),
    ensures
        ({
            let (t, values) = rules::ensure_values(cx, s, exprs, n, bound);
            &&& keeps_known(s, t)
            &&& t.pat_spaces == s.pat_spaces
            &&& values.len() == n
            &&& forall|k: int| 0 <= k < n ==> has_value(t, exprs[k], #[trigger] values[k])
        }),
    decreases bound, 0nat, n,
{
    if n > 0 {
        lemma_values_given(cx, s, exprs, (n - 1) as nat, bound);
        let (s1, values) = rules::ensure_values(cx, s, exprs, (n - 1) as nat, bound);
        assert(exprs[n - 1].0 < bound);
        lemma_value_given(cx, s1, exprs[n - 1]);
        let (t, value) = rules::ensure_value(cx, s1, exprs[n - 1]);
        assert forall|k: int| 0 <= k < n implies has_value(
            t,
            exprs[k],
            #[trigger] values.push(value)[k],
        ) by {
            if k < n - 1 {
                assert(has_value(s1, exprs[k], values[k]));
            }
        }
    }
}

/// Giving a call a value leaves the values of others alone.
proof fn lemma_call_keeps(cx: CheckedBody, s: State, expr: ExprId)
    requires
        cx.wf(),
        cx.has_expr(expr),
    ensures
        keeps_known(s, rules::call_value(cx, s, expr).0),
        rules::call_value(cx, s, expr).0.pat_spaces == s.pat_spaces,
    decreases expr.0 as nat, 1nat, 0nat,
{
    if let Some(args) = rules::call_args(cx, expr) {
        growth::lemma_call_args_before(cx, expr);
        lemma_values_given(cx, s, args, args.len(), expr.0 as nat);
    }
}

/// Giving a field access a value leaves the values of others alone.
proof fn lemma_field_keeps(cx: CheckedBody, s: State, expr: ExprId)
    requires
        cx.wf(),
        cx.has_expr(expr),
    ensures
        keeps_known(s, rules::field_value(cx, s, expr).0),
        rules::field_value(cx, s, expr).0.pat_spaces == s.pat_spaces,
    decreases expr.0 as nat, 1nat, 0nat,
{
    if let Some((lhs, _)) = rules::accessed_field(cx, expr) {
        assert(cx.body.expr_before(cx.body.exprs@[expr.0 as int], expr.0 as nat));
        lemma_value_given(cx, s, lhs);
    }
}

/// Whether an expression calls a function or a method.
pub open spec fn is_any_call(cx: CheckedBody, expr: ExprId) -> bool {
    cx.expr(expr) matches Partial::Present(Expr::Call(_, _)) || cx.expr(
        expr,
    ) matches Partial::Present(Expr::MethodCall(_, _, _))
}

/// An expression that is neither a call nor a field access stands for itself, with its own type.
pub proof fn lemma_plain_value(cx: CheckedBody, s: State, expr: ExprId)
    requires
        cx.wf(),
        cx.has_expr(expr),
        sound::sound(s),
        !s.expr_values.contains_key(expr.0),
        !is_any_call(cx, expr),
        !(cx.expr(expr) matches Partial::Present(Expr::Field(_, _))),
        s.values.len() < usize::MAX,
    ensures
        ({
            let (t, value) = rules::ensure_value(cx, s, expr);
            &&& value.0 == s.values.len()
            &&& t.values.len() == s.values.len() + 1
            &&& t.values[value.0 as int].ty == cx.typed_body.exprs@[expr.0 as int].ty
            &&& t.values[value.0 as int].origin == ValueOrigin::<Seq<ValueId>>::Expr(expr)
            &&& home(cx, t, value) == home_of_variable(cx, s, expr)
        }),
{
    let (t, value) = rules::ensure_value(cx, s, expr);
    if s.value_spaces.contains_key(value.0) {
        sound::lemma_settled_exists(s, value);
    }
}

/// A call whose callable is not known, and a field access whose field is not known, stand for
/// themselves too.
pub proof fn lemma_unresolved_value(cx: CheckedBody, s: State, expr: ExprId)
    requires
        cx.wf(),
        cx.has_expr(expr),
        !s.expr_values.contains_key(expr.0),
        match cx.expr(expr) {
            Partial::Present(Expr::Field(_, Partial::Absent)) => true,
            Partial::Present(Expr::Field(lhs, Partial::Present(index))) => forall|slot: FieldSlot|
                !#[trigger] is_field(cx, cx.typed_body.exprs@[lhs.0 as int].ty, index, slot),
            _ => is_any_call(cx, expr) && cx.typed_body.exprs@[expr.0 as int].callable is None,
        },
        s.values.len() < usize::MAX,
    ensures
        ({
            let (t, value) = rules::ensure_value(cx, s, expr);
            &&& value.0 == s.values.len()
            &&& t.values.len() == s.values.len() + 1
            &&& t.values[value.0 as int].ty == cx.typed_body.exprs@[expr.0 as int].ty
            &&& t.values[value.0 as int].origin == ValueOrigin::<Seq<ValueId>>::Expr(expr)
        }),
{
    if let Partial::Present(Expr::Field(lhs, Partial::Present(index))) = cx.expr(expr) {
        lemma_field_known(cx, cx.typed_body.exprs@[lhs.0 as int].ty, index);
    }
}

// Calls.

/// The operation of the machine that the callable of a call stands for.
pub open spec fn operation(cx: CheckedBody, expr: ExprId) -> Option<IntrinsicOp> {
    match cx.typed_body.exprs@[expr.0 as int].callable {
        Some(callable) if callable.0 < cx.core.intrinsics@.len() =>
            cx.core.intrinsics@[callable.0 as int],
        _ => None,
    }
}

/// Whether an operation of the machine is run for what it does, and yields nothing.
pub open spec fn is_command(op: IntrinsicOp) -> bool {
    ||| op == IntrinsicOp::Mstore
    ||| op == IntrinsicOp::Mstore8
    ||| op == IntrinsicOp::Sstore
    ||| op == IntrinsicOp::Calldatacopy
    ||| op == IntrinsicOp::Returndatacopy
    ||| op == IntrinsicOp::Codecopy
    ||| op == IntrinsicOp::ReturnData
}

/// An operation yields a value unless it is a command.
pub proof fn lemma_command(op: IntrinsicOp)
    ensures
        op.yields() <==> !is_command(op),
{
}

/// Whether `args` are the values of the arguments of a call, in their order, and the receiver of
/// a method comes before them.
pub open spec fn takes(cx: CheckedBody, t: State, expr: ExprId, args: Seq<ValueId>) -> bool {
    match cx.expr(expr) {
        Partial::Present(Expr::Call(_, given)) => {
            &&& args.len() == given@.len()
            &&& forall|k: int|
                0 <= k < given@.len() ==> has_value(t, #[trigger] given@[k], args[k])
        },
        Partial::Present(Expr::MethodCall(receiver, _, given)) => {
            &&& args.len() == given@.len() + 1
            &&& has_value(t, receiver, args[0])
            &&& forall|k: int|
                0 <= k < given@.len() ==> has_value(t, #[trigger] given@[k], args[k + 1])
        },
        _ => false,
    }
}

/// The first argument of a call, or the receiver of a method call.
pub open spec fn first_argument(cx: CheckedBody, expr: ExprId) -> Option<ExprId> {
    match cx.expr(expr) {
        Partial::Present(Expr::MethodCall(receiver, _, _)) => Some(receiver),
        Partial::Present(Expr::Call(_, given)) => if given@.len() > 0 {
            Some(given@[0])
        } else {
            None
        },
        _ => None,
    }
}

/// Whether a call is a method call whose callable is a method of a struct.
pub open spec fn on_struct(cx: CheckedBody, expr: ExprId) -> bool {
    let info = cx.typed_body.exprs@[expr.0 as int];
    &&& cx.expr(expr) matches Partial::Present(Expr::MethodCall(_, _, _))
    &&& info.callable is Some
    &&& cx.typed_body.callables@[(info.callable->0).0 as int].receiver_ty is Some
    &&& cx.typed_body.types@[(cx.typed_body.callables@[(
    info.callable->0).0 as int].receiver_ty->0).0 as int].base matches TyBase::Adt(
        AdtRef::Struct(_),
    )
}

/// Whether a value is what a call yields: it calls the callable of the call on the values of the
/// call's arguments, and says of a method of a struct where the receiver lives. An operation of
/// the machine that asks for a region of the code takes the region that the first argument names
/// in place of values.
pub open spec fn is_result(cx: CheckedBody, t: State, expr: ExprId, value: ValueId) -> bool {
    let info = cx.typed_body.exprs@[expr.0 as int];
    let data = t.values[value.0 as int];
    &&& value.0 < t.values.len()
    &&& data.ty == info.ty
    &&& match operation(cx, expr) {
        None => {
            &&& data.origin is Call
            &&& data.origin->Call_0.expr == expr
            &&& info.callable is Some
            &&& data.origin->Call_0.callable == Callable::Checked(info.callable->0)
            &&& takes(cx, t, expr, data.origin->Call_0.args)
            &&& data.origin->Call_0.receiver_space == if on_struct(cx, expr) {
                Some(home(cx, t, data.origin->Call_0.args[0]))
            } else {
                None
            }
            &&& data.origin->Call_0.resolved_name is None
        },
        Some(op) => {
            &&& data.origin is Intrinsic
            &&& data.origin->Intrinsic_0.op == op
            &&& if op == IntrinsicOp::CodeRegionOffset || op == IntrinsicOp::CodeRegionLen {
                &&& data.origin->Intrinsic_0.args.len() == 0
                &&& data.origin->Intrinsic_0.code_region == match first_argument(cx, expr) {
                    Some(first) => cx.typed_body.exprs@[first.0 as int].code_region,
                    None => None,
                }
            } else {
                &&& takes(cx, t, expr, data.origin->Intrinsic_0.args)
                &&& data.origin->Intrinsic_0.code_region is None
            }
        },
    }
}

/// The values that a call works on are those of its arguments.
proof fn lemma_takes(cx: CheckedBody, s: State, expr: ExprId)
    requires
        cx.wf(),
        cx.has_expr(expr),
        is_any_call(cx, expr),
    ensures
        rules::call_args(cx, expr) is Some,
        ({
            let exprs = rules::call_args(cx, expr)->0;
            let (t, args) = rules::ensure_values(cx, s, exprs, exprs.len(), expr.0 as nat);
            &&& takes(cx, t, expr, args)
            &&& keeps_known(s, t)
            &&& exprs.len() > 0 <==> first_argument(cx, expr) is Some
            &&& exprs.len() > 0 ==> first_argument(cx, expr) == Some(exprs[0])
        }),
{
    let exprs = rules::call_args(cx, expr)->0;
    let (t, args) = rules::ensure_values(cx, s, exprs, exprs.len(), expr.0 as nat);
    growth::lemma_call_args_before(cx, expr);
    lemma_values_given(cx, s, exprs, exprs.len(), expr.0 as nat);
    match cx.expr(expr) {
        Partial::Present(Expr::Call(_, given)) => {
            assert forall|k: int| 0 <= k < given@.len() implies has_value(
                t,
                #[trigger] given@[k],
                args[k],
            ) by {
                assert(exprs[k] == given@[k]);
            }
        },
        Partial::Present(Expr::MethodCall(receiver, _, given)) => {
            assert(exprs[0] == receiver);
            assert(has_value(t, exprs[0], args[0]));
            assert forall|k: int| 0 <= k < given@.len() implies has_value(
                t,
                #[trigger] given@[k],
                args[k + 1],
            ) by {
                assert(exprs[k + 1] == given@[k]);
            }
        },
        _ => {},
    }
}

/// A call yields what its callable yields on the values of the call's arguments: the receiver of a
/// method is the first of them, and the others follow in their order. Only the call of a command
/// yields nothing.
pub proof fn lemma_call_result(cx: CheckedBody, s: State, expr: ExprId)
    requires
        cx.wf(),
        cx.has_expr(expr),
        sound::sound(s),
        frame::fits(rules::call_value(cx, s, expr).0),
        is_any_call(cx, expr),
        cx.typed_body.exprs@[expr.0 as int].callable is Some,
    ensures
        ({
            let (t, value) = rules::call_value(cx, s, expr);
            match operation(cx, expr) {
                Some(op) if is_command(op) => value is None,
                _ => value is Some && is_result(cx, t, expr, value->0),
            }
        }),
{
    lemma_takes(cx, s, expr);
    let exprs = rules::call_args(cx, expr)->0;
    let (s1, args) = rules::ensure_values(cx, s, exprs, exprs.len(), expr.0 as nat);
    growth::lemma_call_args_before(cx, expr);
    growth::lemma_ensure_values(cx, s, exprs, exprs.len(), expr.0 as nat);
    flow::lemma_ensure_values(cx, s, exprs, exprs.len(), expr.0 as nat);
    if let Some(op) = operation(cx, expr) {
        lemma_command(op);
    }
    let (t, value) = rules::call_value(cx, s, expr);
    if value is Some {
        assert(takes(cx, t, expr, args));
    }
    if args.len() > 0 {
        assert(args[0].0 < s1.values.len());
        lemma_home(cx, s1, args[0]);
        assert(t.values[args[0].0 as int] == s1.values[args[0].0 as int]);
    }
}

/// The value that a call has is what the call yields, in the state in which it gets the value.
pub proof fn lemma_value_of_call(cx: CheckedBody, s: State, expr: ExprId)
    requires
        cx.wf(),
        cx.has_expr(expr),
        sound::sound(s),
        frame::fits(rules::ensure_value(cx, s, expr).0),
        !s.expr_values.contains_key(expr.0),
        is_any_call(cx, expr),
        cx.typed_body.exprs@[expr.0 as int].callable is Some,
        operation(cx, expr) matches Some(op) ==> !is_command(op),
    ensures
        ({
            let (t, value) = rules::ensure_value(cx, s, expr);
            has_value(t, expr, value) && is_result(cx, t, expr, value)
        }),
{
    let (s1, special) = rules::call_value(cx, s, expr);
    lemma_call_result(cx, s, expr);
    let (t, value) = rules::ensure_value(cx, s, expr);
    assert(t == s1.with_expr_value(expr, value));
    assert(cx.body.expr_before(cx.body.exprs@[expr.0 as int], expr.0 as nat));
    let data = t.values[value.0 as int];
    if data.origin is Call {
        assert(takes(cx, t, expr, data.origin->Call_0.args));
        if on_struct(cx, expr) {
            let first = data.origin->Call_0.args[0];
            assert(home(cx, t, first) == home(cx, s1, first));
        }
    }
    if data.origin is Intrinsic && data.origin->Intrinsic_0.args.len() > 0 {
        assert(takes(cx, t, expr, data.origin->Intrinsic_0.args));
    }
}

/// The number of values that a call takes, the receiver included.
pub open spec fn takes_count(cx: CheckedBody, expr: ExprId) -> nat {
    match cx.expr(expr) {
        Partial::Present(Expr::Call(_, given)) => given@.len(),
        Partial::Present(Expr::MethodCall(_, _, given)) => given@.len() + 1,
        _ => 0,
    }
}

/// Whether, from `s` to `t`, the command of a call is run at the end of `block`, on the values of
/// the call's arguments. The command that returns data ends the block, if it is given both the
/// place and the size of the data, in this order; any other is an instruction.
pub open spec fn runs_command(
    cx: CheckedBody,
    s: State,
    block: BasicBlockId,
    expr: ExprId,
    t: State,
    next: Option<BasicBlockId>,
) -> bool {
    let op = operation(cx, expr)->0;
    let before = s.blocks[block.0 as int];
    let after = t.blocks[block.0 as int];
    &&& t.blocks.len() == s.blocks.len()
    &&& forall|i: int|
        0 <= i < s.blocks.len() && i != block.0 ==> #[trigger] t.blocks[i] == s.blocks[i]
    &&& if op == IntrinsicOp::ReturnData && takes_count(cx, expr) == 2 {
        &&& next is None
        &&& after.insts == before.insts
        &&& after.terminator is Some
        &&& after.terminator->0 is ReturnData
        &&& takes(
            cx,
            t,
            expr,
            seq![
                after.terminator->0->ReturnData_offset,
                after.terminator->0->ReturnData_size,
            ],
        )
    } else {
        &&& next == Some(block)
        &&& after.terminator == before.terminator
        &&& after.insts.len() == before.insts.len() + 1
        &&& after.insts.drop_last() == before.insts
        &&& after.insts.last() is IntrinsicStmt
        &&& after.insts.last()->IntrinsicStmt_expr == expr
        &&& after.insts.last()->IntrinsicStmt_op == op
        &&& takes(cx, t, expr, after.insts.last()->IntrinsicStmt_args)
    }
}

/// The call of a command runs the command on the values of the call's arguments, whether the call
/// stands alone or in an expression.
pub proof fn lemma_command_run(
    cx: CheckedBody,
    s: State,
    block: BasicBlockId,
    stmt: StmtId,
    expr: ExprId,
)
    requires
        cx.wf(),
        cx.has_expr(expr),
        block.0 < s.blocks.len(),
        is_any_call(cx, expr),
        operation(cx, expr) matches Some(op) && is_command(op),
    ensures
        rules::lower_expr(cx, s, block, expr) matches Some(l) && runs_command(
            cx,
            s,
            block,
            expr,
            l.state,
            l.next,
        ) && has_value(l.state, expr, l.value) && !l.eval,
        rules::lower_expr_stmt(cx, s, block, stmt, expr) matches Some(l) && runs_command(
            cx,
            s,
            block,
            expr,
            l.state,
            l.next,
        ),
{
    reveal(rules::intrinsic_stmt);
    let op = operation(cx, expr)->0;
    lemma_command(op);
    lemma_takes(cx, s, expr);
    let exprs = rules::call_args(cx, expr)->0;
    let (s1, args) = rules::ensure_values(cx, s, exprs, exprs.len(), expr.0 as nat);
    let (s2, value) = rules::ensure_value(cx, s1, expr);
    growth::lemma_call_args_before(cx, expr);
    growth::lemma_ensure_values(cx, s, exprs, exprs.len(), expr.0 as nat);
    growth::lemma_ensure_value(cx, s1, expr);
    lemma_value_given(cx, s1, expr);
    let (t, next, _) = rules::intrinsic_stmt(cx, s, block, expr)->0;
    assert(takes(cx, t, expr, args)) by {
        match cx.expr(expr) {
            Partial::Present(Expr::Call(_, given)) => {
                assert forall|k: int| 0 <= k < given@.len() implies has_value(
                    t,
                    #[trigger] given@[k],
                    args[k],
                ) by {
                    assert(has_value(s1, given@[k], args[k]));
                }
            },
            Partial::Present(Expr::MethodCall(receiver, _, given)) => {
                assert(has_value(s1, receiver, args[0]));
                assert forall|k: int| 0 <= k < given@.len() implies has_value(
                    t,
                    #[trigger] given@[k],
                    args[k + 1],
                ) by {
                    assert(has_value(s1, given@[k], args[k + 1]));
                }
            },
            _ => {},
        }
    }
    if next is None {
        assert(args =~= seq![args[0], args[1]]);
    } else {
        let insts = s.blocks[block.0 as int].insts;
        let inst = MirInst::IntrinsicStmt { expr, op, args };
        assert(insts.push(inst).drop_last() =~= insts);
    }
}

// Fields.

/// Whether `slot` is the field of a type that `index` names: the one at that position, or the
/// first one of that name.
pub open spec fn is_field(cx: CheckedBody, ty: TyId, index: FieldIndex, slot: FieldSlot) -> bool {
    let fields = cx.typed_body.types@[ty.0 as int].fields@;
    exists|i: int|
        {
            &&& 0 <= i < fields.len()
            &&& #[trigger] fields[i] == slot
            &&& match index {
                FieldIndex::Index(position) => i == position,
                FieldIndex::Ident(name) => slot.name == Some(name) && forall|j: int|
                    0 <= j < i ==> (#[trigger] fields[j]).name != Some(name),
            }
        }
}

/// The field that an index names is found, at its own offset and with its own type.
pub proof fn lemma_field_found(cx: CheckedBody, ty: TyId, index: FieldIndex, slot: FieldSlot)
    requires
        is_field(cx, ty, index, slot),
    ensures
        cx.typed_body.field_info(ty, index) == Some(
            FieldAccessInfo { field_ty: slot.ty, offset_bytes: slot.offset_bytes },
        ),
{
    let fields = cx.typed_body.types@[ty.0 as int].fields@;
    if let FieldIndex::Ident(name) = index {
        let i = choose|i: int|
            0 <= i < fields.len() && #[trigger] fields[i] == slot && slot.name == Some(name)
                && forall|j: int| 0 <= j < i ==> (#[trigger] fields[j]).name != Some(name);
        lemma_first_named(fields, name, i, fields.len());
    }
}

/// A field that is found is one that the index names.
pub proof fn lemma_field_known(cx: CheckedBody, ty: TyId, index: FieldIndex)
    ensures
        cx.typed_body.field_info(ty, index) is Some <==> exists|slot: FieldSlot| #[trigger]
            is_field(cx, ty, index, slot),
{
    let fields = cx.typed_body.types@[ty.0 as int].fields@;
    if exists|slot: FieldSlot| #[trigger] is_field(cx, ty, index, slot) {
        let slot = choose|slot: FieldSlot| #[trigger] is_field(cx, ty, index, slot);
        lemma_field_found(cx, ty, index, slot);
    }
    if cx.typed_body.field_info(ty, index) is Some {
        match index {
            FieldIndex::Index(position) => {
                assert(is_field(cx, ty, index, fields[position as int]));
            },
            FieldIndex::Ident(name) => {
                let i = lemma_some_named(fields, name, fields.len());
                assert(is_field(cx, ty, index, fields[i]));
            },
        }
    }
}

/// Where a name is found, there is a first field of that name.
proof fn lemma_some_named(fields: Seq<FieldSlot>, name: IdentId, n: nat) -> (i: int)
    requires
        n <= fields.len(),
        typed::named_slot(fields, name, n) is Some,
    ensures
        0 <= i < n,
        fields[i].name == Some(name),
        forall|j: int| 0 <= j < i ==> (#[trigger] fields[j]).name != Some(name),
    decreases n,
{
    if typed::named_slot(fields, name, (n - 1) as nat) is Some {
        lemma_some_named(fields, name, (n - 1) as nat)
    } else {
        lemma_none_named(fields, name, (n - 1) as nat);
        n - 1
    }
}

/// Where a name is not found, no field has it.
proof fn lemma_none_named(fields: Seq<FieldSlot>, name: IdentId, n: nat)
    requires
        n <= fields.len(),
        typed::named_slot(fields, name, n) is None,
    ensures
        forall|j: int| 0 <= j < n ==> (#[trigger] fields[j]).name != Some(name),
    decreases n,
{
    if n > 0 {
        lemma_none_named(fields, name, (n - 1) as nat);
    }
}

/// The first field of a name is found by the name.
proof fn lemma_first_named(fields: Seq<FieldSlot>, name: IdentId, i: int, n: nat)
    requires
        0 <= i < fields.len(),
        n <= fields.len(),
        fields[i].name == Some(name),
        forall|j: int| 0 <= j < i ==> (#[trigger] fields[j]).name != Some(name),
    ensures
        n <= i ==> typed::named_slot(fields, name, n) is None,
        i < n ==> typed::named_slot(fields, name, n) == Some(fields[i]),
    decreases n,
{
    if n > 0 {
        lemma_first_named(fields, name, i, (n - 1) as nat);
    }
}

/// Whether a value is the constant `n`.
pub open spec fn is_constant(cx: CheckedBody, t: State, value: ValueId, n: nat) -> bool {
    &&& value.0 < t.values.len()
    &&& t.values[value.0 as int].ty == cx.typed_body.u256_ty
    &&& t.values[value.0 as int].origin is Synthetic
    &&& t.values[value.0 as int].origin->Synthetic_0 is Int
    &&& t.values[value.0 as int].origin->Synthetic_0->Int_0.high == 0
    &&& t.values[value.0 as int].origin->Synthetic_0->Int_0.low == n
}

/// Whether a value is a call of a helper of the core library, at the type of pointers into an
/// address space and at a type of values.
pub open spec fn is_helper_call(
    cx: CheckedBody,
    t: State,
    value: ValueId,
    expr: ExprId,
    helper: CoreHelper,
    space: AddressSpaceKind,
    value_ty: TyId,
) -> bool {
    let origin = t.values[value.0 as int].origin;
    &&& value.0 < t.values.len()
    &&& origin is Call
    &&& origin->Call_0.expr == expr
    &&& origin->Call_0.callable == (Callable::Helper {
        helper,
        ptr_ty: pointer_ty(cx, space),
        value_ty,
    })
    &&& origin->Call_0.receiver_space is None
    &&& origin->Call_0.resolved_name is None
}

/// Whether a value is the field `slot` of the aggregate that the value of `lhs` points to. A field
/// that is an aggregate itself is a pointer into the aggregate around it, at the offset of the
/// field, and it is settled that it lives where that lives. Any other field is loaded from where
/// the aggregate lives, at the offset of the field.
pub open spec fn is_field_value(
    cx: CheckedBody,
    t: State,
    expr: ExprId,
    lhs: ExprId,
    slot: FieldSlot,
    value: ValueId,
) -> bool {
    let base = t.expr_values[lhs.0];
    let data = t.values[value.0 as int];
    &&& has_value(t, lhs, base)
    &&& value.0 < t.values.len()
    &&& if cx.typed_body.types@[slot.ty.0 as int].fields@.len() > 0 {
        &&& home(cx, t, value) == home(cx, t, base)
        &&& t.value_spaces.contains_key(value.0)
        &&& slot.offset_bytes == 0 ==> value == base
        &&& slot.offset_bytes != 0 ==> data.ty == slot.ty && data.origin == ValueOrigin::<
            Seq<ValueId>,
        >::FieldPtr(FieldPtrOrigin { base, offset_bytes: slot.offset_bytes })
    } else {
        &&& data.ty == slot.ty
        &&& is_helper_call(
            cx,
            t,
            value,
            expr,
            CoreHelper::GetField,
            home(cx, t, base),
            slot.ty,
        )
        &&& data.origin->Call_0.args.len() == 2
        &&& data.origin->Call_0.args[0] == base
        &&& is_constant(cx, t, data.origin->Call_0.args[1], slot.offset_bytes as nat)
    }
}

/// The value of a field access is the field, in the aggregate that is accessed.
pub proof fn lemma_field_access(
    cx: CheckedBody,
    s: State,
    expr: ExprId,
    lhs: ExprId,
    index: FieldIndex,
    slot: FieldSlot,
)
    requires
        cx.wf(),
        cx.has_expr(expr),
        sound::sound(s),
        frame::fits(rules::field_value(cx, s, expr).0),
        cx.expr(expr) == Partial::Present(Expr::Field(lhs, Partial::Present(index))),
        is_field(cx, cx.typed_body.exprs@[lhs.0 as int].ty, index, slot),
    ensures
        ({
            let (t, value) = rules::field_value(cx, s, expr);
            value is Some && is_field_value(cx, t, expr, lhs, slot, value->0)
        }),
        !s.expr_values.contains_key(expr.0) ==> {
            let (t, value) = rules::ensure_value(cx, s, expr);
            has_value(t, expr, value) && is_field_value(cx, t, expr, lhs, slot, value)
        },
{
    lemma_field_found(cx, cx.typed_body.exprs@[lhs.0 as int].ty, index, slot);
    assert(cx.body.expr_before(cx.body.exprs@[expr.0 as int], expr.0 as nat));
    let (s1, base) = rules::ensure_value(cx, s, lhs);
    let (t, value) = rules::field_value(cx, s, expr);
    lemma_value_given(cx, s, lhs);
    growth::lemma_ensure_value(cx, s, lhs);
    flow::lemma_ensure_value(cx, s, lhs);
    lemma_home(cx, s1, base);
    assert(t.values[base.0 as int] == s1.values[base.0 as int]);
    assert(home(cx, t, base) == home(cx, s1, base));
    assert(is_field_value(cx, t, expr, lhs, slot, value->0));
    if !s.expr_values.contains_key(expr.0) {
        let t1 = rules::ensure_value(cx, s, expr).0;
        assert(t1 == t.with_expr_value(expr, value->0));
        assert(home(cx, t1, base) == home(cx, t, base));
        assert(home(cx, t1, value->0) == home(cx, t, value->0));
    }
}

} // verus!
