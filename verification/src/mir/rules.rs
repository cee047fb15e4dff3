//! The rules of lowering: what each construct of a body adds to the lowered body.
//!
//! A rule is partial where lowering is: it yields nothing for a `break` or a `continue` that is
//! reached outside of a loop, and for a `for` loop that is reached whose iterable is neither a
//! range, nor an integer literal, nor an array.

use vstd::prelude::*;

use crate::hir::body;
use crate::hir::body::{
    ArithBinOp, BinOp, CompBinOp, Expr, FieldInit, LitKind, MatchArm, Partial, Stmt, Word,
};
use crate::hir::ids::{ExprId, PatId, StmtId};
use crate::hir::typed::{FieldAccessInfo, FieldSlot, LocalBinding, MatchArmPattern, TyId};
use crate::mir::input::CheckedBody;
use crate::mir::ir::{
    BasicBlockId, CallOrigin, Callable, CoreHelper, FieldPtrOrigin, IntrinsicOp, IntrinsicValue,
    LoopInfo, LoopScope, MirInst, SwitchTarget, SyntheticValue, Terminator, ValueData, ValueId,
    ValueModel, ValueOrigin,
};
use crate::mir::state::State;

verus! {

/// A lowered expression: the state afterwards, the block in which control continues, the value,
/// and whether a statement made of the expression has to evaluate the value.
pub struct LoweredExpr {
    pub state: State,
    pub next: Option<BasicBlockId>,
    pub value: ValueId,
    pub eval: bool,
}

/// A lowered statement: the state afterwards, the block in which control continues, and the
/// value, if there is one.
pub struct LoweredStmt {
    pub state: State,
    pub next: Option<BasicBlockId>,
    pub value: Option<ValueId>,
}

// Values.

/// The arguments of a call, the receiver first.
pub open spec fn call_args(cx: CheckedBody, expr: ExprId) -> Option<Seq<ExprId>> {
    match cx.expr(expr) {
        Partial::Present(Expr::Call(_, args)) => Some(args@),
        Partial::Present(Expr::MethodCall(receiver, _, args)) => Some(seq![receiver] + args@),
        _ => None,
    }
}

/// Whether an expression is a method call.
pub open spec fn is_method_call(cx: CheckedBody, expr: ExprId) -> bool {
    cx.expr(expr) matches Partial::Present(Expr::MethodCall(_, _, _))
}

/// Whether the call at `expr` is a method call on a struct.
pub open spec fn has_struct_receiver(cx: CheckedBody, expr: ExprId) -> bool {
    &&& is_method_call(cx, expr)
    &&& cx.typed_body.exprs@[expr.0 as int].callable matches Some(callable)
    &&& cx.typed_body.callables@[callable.0 as int].receiver_ty matches Some(ty)
    &&& cx.typed_body.is_struct(ty)
}

/// The value that just stands for an expression.
pub open spec fn plain_value(cx: CheckedBody, expr: ExprId) -> ValueModel {
    ValueData { ty: cx.typed_body.ty_of(expr), origin: ValueOrigin::Expr(expr) }
}

/// An expression has the value that it already has, or else gets a new one.
pub open spec fn ensure_value(cx: CheckedBody, s: State, expr: ExprId) -> (State, ValueId)
    decreases expr.0 as nat, 3nat, 0nat,
    when cx.wf() && cx.has_expr(expr)
{
    if s.expr_values.contains_key(expr.0) {
        (s, s.expr_values[expr.0])
    } else {
        let (s1, value) = new_value(cx, s, expr);
        (s1.with_expr_value(expr, value), value)
    }
}

/// A call has the value of the call, a field access the value of the field, and any expression
/// for which there is no such value just stands for itself.
pub open spec fn new_value(cx: CheckedBody, s: State, expr: ExprId) -> (State, ValueId)
    decreases expr.0 as nat, 2nat, 0nat,
    when cx.wf() && cx.has_expr(expr)
{
    let (s1, special) = match cx.expr(expr) {
        Partial::Present(Expr::Call(_, _)) => call_value(cx, s, expr),
        Partial::Present(Expr::MethodCall(_, _, _)) => call_value(cx, s, expr),
        Partial::Present(Expr::Field(_, _)) => field_value(cx, s, expr),
        _ => (s, None),
    };
    match special {
        Some(value) => (s1, value),
        None => (s1.with_value(plain_value(cx, expr)), s1.next_value()),
    }
}

/// The first `n` of `exprs`, all of which come before `bound`, have values.
pub open spec fn ensure_values(
    cx: CheckedBody,
    s: State,
    exprs: Seq<ExprId>,
    n: nat,
    bound: nat,
) -> (State, Seq<ValueId>)
    decreases bound, 0nat, n,
    when cx.wf() && bound <= cx.body.exprs@.len() && body::all_before(exprs, bound) && n
        <= exprs.len()
{
    if n == 0 {
        (s, Seq::empty())
    } else {
        let (s1, values) = ensure_values(cx, s, exprs, (n - 1) as nat, bound);
        let (s2, value) = ensure_value(cx, s1, exprs[n - 1]);
        (s2, values.push(value))
    }
}

/// The value of a call.
///
/// The call of an intrinsic that yields nothing has no value. An intrinsic that asks for a place
/// in the code takes the region that its first argument names, and no arguments.
pub open spec fn call_value(cx: CheckedBody, s: State, expr: ExprId) -> (State, Option<ValueId>)
    decreases expr.0 as nat, 1nat, 0nat,
    when cx.wf() && cx.has_expr(expr)
{
    match (cx.typed_body.exprs@[expr.0 as int].callable, call_args(cx, expr)) {
        (Some(callable), Some(arg_exprs)) => {
            let (s1, args) = ensure_values(
                cx,
                s,
                arg_exprs,
                arg_exprs.len(),
                expr.0 as nat,
            );
            let ty = cx.typed_body.ty_of(expr);
            match cx.core.intrinsic(callable) {
                Some(op) => if !op.yields() {
                    (s1, None)
                } else {
                    let value = IntrinsicValue {
                        op,
                        args: if op.asks_region() {
                            Seq::empty()
                        } else {
                            args
                        },
                        code_region: if op.asks_region() && arg_exprs.len() > 0 {
                            cx.typed_body.exprs@[arg_exprs[0].0 as int].code_region
                        } else {
                            None
                        },
                    };
                    (
                        s1.with_value(ValueData { ty, origin: ValueOrigin::Intrinsic(value) }),
                        Some(s1.next_value()),
                    )
                },
                None => {
                    let call = CallOrigin {
                        expr,
                        callable: Callable::Checked(callable),
                        args,
                        receiver_space: if has_struct_receiver(cx, expr) && args.len() > 0 {
                            Some(s1.space_of(cx, args[0]))
                        } else {
                            None
                        },
                        resolved_name: None,
                    };
                    (
                        s1.with_value(ValueData { ty, origin: ValueOrigin::Call(call) }),
                        Some(s1.next_value()),
                    )
                },
            }
        },
        _ => (s, None),
    }
}

/// The field that a field access accesses.
pub open spec fn accessed_field(cx: CheckedBody, expr: ExprId) -> Option<
    (ExprId, FieldAccessInfo),
> {
    match cx.expr(expr) {
        Partial::Present(Expr::Field(lhs, Partial::Present(index))) => {
            match cx.typed_body.field_info(cx.typed_body.ty_of(lhs), index) {
                Some(info) => Some((lhs, info)),
                None => None,
            }
        },
        _ => None,
    }
}

/// A call of a helper of the core library.
pub open spec fn helper_call(
    expr: ExprId,
    helper: CoreHelper,
    ptr_ty: TyId,
    value_ty: TyId,
    args: Seq<ValueId>,
) -> ValueOrigin<Seq<ValueId>> {
    ValueOrigin::Call(
        CallOrigin {
            expr,
            callable: Callable::Helper { helper, ptr_ty, value_ty },
            args,
            receiver_space: None,
            resolved_name: None,
        },
    )
}

/// The value of a field.
///
/// A field that is itself an aggregate is a pointer into the aggregate around it, in the same
/// address space; at offset zero it is that aggregate's own pointer. Any other field is loaded.
pub open spec fn field_value(cx: CheckedBody, s: State, expr: ExprId) -> (State, Option<ValueId>)
    decreases expr.0 as nat, 1nat, 0nat,
    when cx.wf() && cx.has_expr(expr)
{
    match accessed_field(cx, expr) {
        None => (s, None),
        Some((lhs, info)) => {
            let (s1, base) = ensure_value(cx, s, lhs);
            let space = s1.space_of(cx, base);
            if cx.typed_body.fields_of(info.field_ty).len() > 0 {
                if info.offset_bytes == 0 {
                    (s1.with_value_space(base, space), Some(base))
                } else {
                    let ptr = s1.next_value();
                    let s2 = s1.with_value(
                        ValueData {
                            ty: info.field_ty,
                            origin: ValueOrigin::FieldPtr(
                                FieldPtrOrigin { base, offset_bytes: info.offset_bytes },
                            ),
                        },
                    );
                    (s2.with_value_space(ptr, space), Some(ptr))
                }
            } else {
                let offset = s1.next_value();
                let s2 = s1.with_word(cx, Word::of(info.offset_bytes));
                let load = helper_call(
                    expr,
                    CoreHelper::GetField,
                    cx.core.ptr_ty(space),
                    info.field_ty,
                    seq![base, offset],
                );
                (
                    s2.with_value(ValueData { ty: info.field_ty, origin: load }),
                    Some(s2.next_value()),
                )
            }
        },
    }
}

/// The call of an intrinsic that yields nothing becomes an instruction, or ends the block.
#[verifier::opaque]
pub open spec fn intrinsic_stmt(
    cx: CheckedBody,
    s: State,
    block: BasicBlockId,
    expr: ExprId,
) -> Option<(State, Option<BasicBlockId>, ValueId)> {
    match (cx.typed_body.exprs@[expr.0 as int].callable, call_args(cx, expr)) {
        (Some(callable), Some(arg_exprs)) => match cx.core.intrinsic(callable) {
            Some(op) => if op.yields() {
                None
            } else {
                let (s1, args) = ensure_values(
                    cx,
                    s,
                    arg_exprs,
                    arg_exprs.len(),
                    expr.0 as nat,
                );
                let (s2, value) = ensure_value(cx, s1, expr);
                if op == IntrinsicOp::ReturnData && args.len() == 2 {
                    let end = Terminator::ReturnData { offset: args[0], size: args[1] };
                    Some((s2.with_terminator(block, end), None, value))
                } else {
                    let inst = MirInst::IntrinsicStmt { expr, op, args };
                    Some((s2.with_inst(block, inst), Some(block), value))
                }
            },
            None => None,
        },
        _ => None,
    }
}

// Aggregates.

/// What an expression that builds an aggregate writes: the size of the aggregate, the
/// discriminant of an enum, and the expressions that are stored, each with the field it goes to.
pub struct Aggregate {
    pub size_bytes: u64,
    pub discriminant: Option<u64>,
    pub inits: Seq<(ExprId, Option<FieldAccessInfo>)>,
}

/// The field at a position.
pub open spec fn slot_info(fields: Seq<FieldSlot>, i: int) -> Option<FieldAccessInfo> {
    if 0 <= i < fields.len() {
        Some(FieldAccessInfo { field_ty: fields[i].ty, offset_bytes: fields[i].offset_bytes })
    } else {
        None
    }
}

/// The aggregate that the call of a variant's constructor builds.
#[verifier::opaque]
pub open spec fn variant_ctor(cx: CheckedBody, expr: ExprId) -> Option<Aggregate> {
    match cx.expr(expr) {
        Partial::Present(Expr::Call(callee, args)) => {
            match cx.typed_body.exprs@[callee.0 as int].variant {
                Some(variant) => {
                    let layout = cx.typed_body.variants@[variant.0 as int];
                    Some(
                        Aggregate {
                            size_bytes: layout.size_bytes,
                            discriminant: Some(layout.discriminant),
                            inits: Seq::new(
                                args@.len(),
                                |i: int| (args@[i], slot_info(layout.fields@, i)),
                            ),
                        },
                    )
                },
                None => None,
            }
        },
        _ => None,
    }
}

/// The aggregate that the name of a variant without fields builds.
#[verifier::opaque]
pub open spec fn unit_variant(cx: CheckedBody, expr: ExprId) -> Option<Aggregate> {
    match (cx.expr(expr), cx.typed_body.exprs@[expr.0 as int].variant) {
        (Partial::Present(Expr::Path(_)), Some(variant)) => {
            let layout = cx.typed_body.variants@[variant.0 as int];
            Some(
                Aggregate {
                    size_bytes: layout.size_bytes,
                    discriminant: Some(layout.discriminant),
                    inits: Seq::empty(),
                },
            )
        },
        _ => None,
    }
}

/// The aggregate that a record initializer of type `ty` builds.
#[verifier::opaque]
pub open spec fn record(cx: CheckedBody, expr: ExprId, fields: Seq<FieldInit>) -> Aggregate {
    let ty = cx.typed_body.ty_of(expr);
    Aggregate {
        size_bytes: cx.typed_body.types@[ty.0 as int].size_bytes,
        discriminant: None,
        inits: Seq::new(
            fields.len(),
            |i: int| (fields[i].expr, cx.typed_body.field_info(ty, fields[i].field)),
        ),
    }
}

/// A value is stored to a field of the aggregate at `base`.
#[verifier::opaque]
pub open spec fn store_field(
    cx: CheckedBody,
    s: State,
    block: BasicBlockId,
    expr: ExprId,
    base: ValueId,
    info: FieldAccessInfo,
    value: ValueId,
) -> State {
    let ptr_ty = cx.core.ptr_ty(s.space_of(cx, base));
    let offset = s.next_value();
    let s1 = s.with_word(cx, Word::of(info.offset_bytes));
    let store = s1.next_value();
    let call = helper_call(
        expr,
        CoreHelper::StoreField,
        ptr_ty,
        info.field_ty,
        seq![base, offset, value],
    );
    s1.with_value(ValueData { ty: cx.typed_body.unit_ty, origin: call }).with_inst(
        block,
        MirInst::EvalExpr { expr, value: store, bind_value: false },
    )
}

/// The discriminant of the enum at `base` is stored.
#[verifier::opaque]
pub open spec fn store_discriminant(
    cx: CheckedBody,
    s: State,
    block: BasicBlockId,
    expr: ExprId,
    base: ValueId,
    discriminant: u64,
) -> State {
    let ptr_ty = cx.core.ptr_ty(s.space_of(cx, base));
    let word = s.next_value();
    let s1 = s.with_word(cx, Word::of(discriminant));
    let store = s1.next_value();
    let call = helper_call(
        expr,
        CoreHelper::StoreDiscriminant,
        ptr_ty,
        cx.typed_body.ty_of(expr),
        seq![base, word],
    );
    s1.with_value(ValueData { ty: cx.typed_body.unit_ty, origin: call }).with_inst(
        block,
        MirInst::EvalExpr { expr, value: store, bind_value: false },
    )
}

/// Room for an aggregate is reserved in memory, and the expression has its address as value.
#[verifier::opaque]
pub open spec fn alloc_aggregate(
    cx: CheckedBody,
    s: State,
    block: BasicBlockId,
    expr: ExprId,
    size_bytes: u64,
) -> (State, ValueId) {
    let size = s.next_value();
    let s1 = s.with_word(cx, Word::of(size_bytes));
    let base = s1.next_value();
    let ty = cx.typed_body.ty_of(expr);
    let call = helper_call(expr, CoreHelper::Alloc, cx.core.mem_ptr_ty, ty, seq![size]);
    let s2 = s1.with_value(ValueData { ty, origin: call }).with_expr_value(expr, base).with_inst(
        block,
        MirInst::EvalExpr { expr, value: base, bind_value: true },
    );
    (s2, base)
}

/// An assignment to a field stores the value, unless the field is not known.
#[verifier::opaque]
pub open spec fn field_assign(
    cx: CheckedBody,
    s: State,
    block: BasicBlockId,
    expr: ExprId,
    target: ExprId,
    value: ValueId,
) -> Option<State> {
    match accessed_field(cx, target) {
        None => None,
        Some((lhs, info)) => {
            let (s1, base) = ensure_value(cx, s, lhs);
            Some(store_field(cx, s1, block, expr, base, info, value))
        },
    }
}

/// A variable that is assigned lives where the assigned value lives.
#[verifier::opaque]
pub open spec fn assign_space(
    cx: CheckedBody,
    s: State,
    target: ExprId,
    value: ValueId,
) -> State {
    match cx.typed_body.exprs@[target.0 as int].binding {
        Some(LocalBinding::Local { pat, .. }) => s.with_pat_space(pat, s.space_of(cx, value)),
        _ => s,
    }
}

// Control flow.

/// What the patterns of match arms test, where a switch can test all of them.
#[verifier::opaque]
pub open spec fn arm_patterns(cx: CheckedBody, arms: Seq<MatchArm>) -> Option<
    Seq<MatchArmPattern>,
> {
    if forall|i: int|
        0 <= i < arms.len() ==> cx.typed_body.arm_pattern(
            (#[trigger] arms[i]).pat,
        ) is Some {
        Some(Seq::new(arms.len(), |i: int| cx.typed_body.arm_pattern(arms[i].pat)->0))
    } else {
        None
    }
}

/// The position of the first of `patterns` from `i` on that tests nothing, or their number.
pub open spec fn first_wildcard(patterns: Seq<MatchArmPattern>, i: nat) -> nat
    decreases patterns.len() - i,
{
    if i >= patterns.len() {
        patterns.len()
    } else if patterns[i as int] == MatchArmPattern::Wildcard {
        i
    } else {
        first_wildcard(patterns, i + 1)
    }
}

/// The cases of a switch over the arms before the first one that tests nothing.
pub open spec fn switch_targets(
    patterns: Seq<MatchArmPattern>,
    entries: Seq<BasicBlockId>,
) -> Seq<SwitchTarget> {
    Seq::new(
        first_wildcard(patterns, 0),
        |i: int| SwitchTarget { value: patterns[i]->Value_0, block: entries[i] },
    )
}

/// The switch over the arms of a match. Without an arm that tests nothing, control cannot reach
/// the default.
#[verifier::opaque]
pub open spec fn close_match(
    s: State,
    block: BasicBlockId,
    discr: ValueId,
    patterns: Seq<MatchArmPattern>,
    entries: Seq<BasicBlockId>,
) -> State {
    let wildcard = first_wildcard(patterns, 0);
    let (s1, default) = if wildcard < patterns.len() {
        (s, entries[wildcard as int])
    } else {
        let unreachable = s.next_block();
        (s.with_block().with_terminator(unreachable, Terminator::Unreachable), unreachable)
    };
    s1.with_terminator(
        block,
        Terminator::Switch { discr, targets: switch_targets(patterns, entries), default },
    )
}

/// What a `for` loop runs over.
pub enum Iterable {
    Range(ExprId, ExprId),
    Literal(Word),
    /// An array of so many elements.
    Array(Word),
}

/// The integer that a literal is.
pub open spec fn int_literal(cx: CheckedBody, expr: ExprId) -> Option<Word> {
    match cx.expr(expr) {
        Partial::Present(Expr::Lit(LitKind::Int(word))) => Some(word),
        _ => None,
    }
}

/// What the iterable of a `for` loop stands for. A literal `n` stands for `0..n`.
pub open spec fn iterable(cx: CheckedBody, iter: ExprId) -> Option<Iterable> {
    match cx.expr(iter) {
        Partial::Present(Expr::Bin(start, end, op)) => if op == BinOp::Index {
            Some(Iterable::Range(start, end))
        } else {
            None
        },
        Partial::Present(Expr::Lit(LitKind::Int(word))) => Some(Iterable::Literal(word)),
        _ => if cx.typed_body.is_array(cx.typed_body.ty_of(iter)) {
            Some(Iterable::Array(cx.typed_body.length_of(cx.typed_body.ty_of(iter))))
        } else {
            None
        },
    }
}

/// Whether an expression refers to the variable of a pattern.
pub open spec fn refers_to(cx: CheckedBody, expr: ExprId, pat: PatId) -> bool {
    cx.typed_body.binding_of(pat) matches Some(binding)
        && cx.typed_body.exprs@[expr.0 as int].binding == Some(binding)
}

/// Whether an expression indexes into `array` with the variable of a pattern.
pub open spec fn indexes(
    cx: CheckedBody,
    expr: Partial<Expr>,
    array: ExprId,
    pat: PatId,
) -> bool {
    expr matches Partial::Present(Expr::Bin(lhs, rhs, op)) && op == BinOp::Index && lhs == array
        && refers_to(cx, rhs, pat)
}

/// The first expression from position `i` on that indexes into `array` with the variable of a
/// pattern.
pub open spec fn first_indexing(
    cx: CheckedBody,
    array: ExprId,
    pat: PatId,
    i: nat,
) -> Option<ExprId>
    decreases cx.body.exprs@.len() - i,
{
    if i >= cx.body.exprs@.len() {
        None
    } else if indexes(cx, cx.body.exprs@[i as int], array, pat) {
        Some(ExprId(i as usize))
    } else {
        first_indexing(cx, array, pat, i + 1)
    }
}

/// The element that one round of a loop over an array works on: the array at the index that the
/// loop variable holds. It is the first expression that indexes into the array with the variable,
/// or else a new value, recorded with the array and the index.
pub open spec fn array_element(
    cx: CheckedBody,
    s: State,
    pat: PatId,
    iter: ExprId,
    index: ValueId,
) -> (State, ValueId) {
    let (s1, array) = ensure_value(cx, s, iter);
    match first_indexing(cx, iter, pat, 0) {
        Some(expr) => ensure_value(cx, s1, expr),
        None => {
            let ty = cx.typed_body.ty_of(iter);
            let element = s1.next_value();
            let s2 = s1.with_value(
                ValueData {
                    ty: cx.typed_body.types@[ty.0 as int].args@[0],
                    origin: ValueOrigin::Expr(iter),
                },
            );
            (s2.with_element(element, array, index), element)
        },
    }
}

/// A round of a loop over an array begins by binding the element, in the block `entry`, to the
/// first use of the loop variable.
pub open spec fn bind_element(
    cx: CheckedBody,
    s: State,
    pat: PatId,
    iter: ExprId,
    element: ValueId,
    entry: BasicBlockId,
    body_block: BasicBlockId,
) -> State {
    let s1 = match cx.typed_body.first_use(pat) {
        Some(expr) => s.with_inst(
            entry,
            MirInst::EvalExpr { expr, value: element, bind_value: true },
        ).with_expr_value(expr, element),
        None => s.with_inst(
            entry,
            MirInst::EvalExpr { expr: iter, value: element, bind_value: true },
        ),
    };
    s1.with_terminator(entry, Terminator::Goto { target: body_block })
}

/// What the loop variable holds.
pub open spec fn loop_variable(cx: CheckedBody, s: State, pat: PatId) -> (State, ValueId) {
    match cx.typed_body.first_use(pat) {
        Some(expr) => ensure_value(cx, s, expr),
        None => {
            let value = ValueData {
                ty: cx.typed_body.ty_of_pat(pat),
                origin: ValueOrigin::Synthetic(SyntheticValue::Variable(pat)),
            };
            (s.with_value(value), s.next_value())
        },
    }
}

/// A new value is `left < right`.
pub open spec fn with_less(cx: CheckedBody, s: State, left: ValueId, right: ValueId) -> State {
    s.with_value(
        ValueData {
            ty: cx.typed_body.bool_ty,
            origin: ValueOrigin::Synthetic(
                SyntheticValue::Comparison { left, right, op: CompBinOp::Lt },
            ),
        },
    )
}

/// At the end of a round the loop variable grows by one. The variable is assigned through its
/// first use where that is a path, and as the pattern's variable otherwise.
#[verifier::opaque]
pub open spec fn step_variable(
    cx: CheckedBody,
    s: State,
    block: BasicBlockId,
    stmt: StmtId,
    pat: PatId,
) -> State {
    let one = s.next_value();
    let s1 = s.with_word(cx, Word::of(1));
    let as_variable = MirInst::AugAssignVariable { stmt, pat, value: one, op: ArithBinOp::Add };
    match cx.typed_body.first_use(pat) {
        Some(target) => if cx.expr(target) matches Partial::Present(Expr::Path(_)) {
            s1.with_inst(
                block,
                MirInst::AugAssign { stmt, target, value: one, op: ArithBinOp::Add },
            )
        } else {
            s1.with_inst(block, as_variable)
        },
        None => s1.with_inst(block, as_variable),
    }
}

/// A bound above the identifiers of the expressions that stand directly in `stmts`.
pub open spec fn stmts_top(cx: CheckedBody, stmts: Seq<StmtId>) -> nat
    decreases stmts.len(),
{
    if stmts.len() == 0 {
        0
    } else {
        body::max(stmts_top(cx, stmts.drop_last()), body::stmt_top(cx.stmt(stmts.last())))
    }
}

/// A bound above the identifiers of the three parts of an `if`.
pub open spec fn if_top(cond: ExprId, then_expr: ExprId, else_expr: Option<ExprId>) -> nat {
    let two = body::max(cond.0 as nat, then_expr.0 as nat);
    match else_expr {
        Some(expr) => body::max(two, expr.0 as nat) + 1,
        None => two + 1,
    }
}

/// A bound above two identifiers.
pub open spec fn pair_top(a: ExprId, b: ExprId) -> nat {
    body::max(a.0 as nat, b.0 as nat) + 1
}

/// Each of `stmts` is below their common bound.
pub proof fn lemma_stmts_top(cx: CheckedBody, stmts: Seq<StmtId>, i: int)
    requires
        0 <= i < stmts.len(),
    ensures
        body::stmt_top(cx.stmt(stmts[i])) <= stmts_top(cx, stmts),
    decreases stmts.len(),
{
    if i < stmts.len() - 1 {
        lemma_stmts_top(cx, stmts.drop_last(), i);
    }
}

/// The common bound of `stmts` is the least one.
pub proof fn lemma_stmts_top_least(cx: CheckedBody, stmts: Seq<StmtId>, bound: nat)
    requires
        cx.body.stmts_before(stmts, bound),
    ensures
        stmts_top(cx, stmts) <= bound,
    decreases stmts.len(),
{
    if stmts.len() > 0 {
        assert(cx.body.stmts_before(stmts.drop_last(), bound)) by {
            assert forall|i: int| 0 <= i < stmts.len() - 1 implies {
                &&& (#[trigger] stmts.drop_last()[i]).0 < cx.body.stmts@.len()
                &&& body::stmt_top(cx.body.stmts@[stmts.drop_last()[i].0 as int]) <= bound
            } by {
                assert(stmts.drop_last()[i] == stmts[i]);
            }
        }
        assert(stmts[stmts.len() - 1] == stmts.last());
        lemma_stmts_top_least(cx, stmts.drop_last(), bound);
    }
}

/// An expression is lowered in `block`.
pub open spec fn lower_expr(
    cx: CheckedBody,
    s: State,
    block: BasicBlockId,
    expr: ExprId,
) -> Option<LoweredExpr>
    decreases expr.0 as nat, 4nat, 0nat,
    when cx.wf() && cx.has_expr(expr)
{
    if let Some((state, next, value)) = intrinsic_stmt(cx, s, block, expr) {
        Some(LoweredExpr { state, next, value, eval: false })
    } else if let Some(aggregate) = variant_ctor(cx, expr) {
        lower_aggregate(cx, s, block, expr, aggregate)
    } else if let Some(aggregate) = unit_variant(cx, expr) {
        lower_aggregate(cx, s, block, expr, aggregate)
    } else {
        match cx.expr(expr) {
            Partial::Present(Expr::Block(stmts)) => {
                proof {
                    lemma_stmts_top_least(cx, stmts@, expr.0 as nat);
                }
                match lower_stmts(cx, s, block, stmts@, 0) {
                    Some((s1, next)) => {
                        let (state, value) = ensure_value(cx, s1, expr);
                        Some(LoweredExpr { state, next, value, eval: false })
                    },
                    None => None,
                }
            },
            Partial::Present(Expr::RecordInit(_, fields)) => lower_aggregate(
                cx,
                s,
                block,
                expr,
                record(cx, expr, fields@),
            ),
            Partial::Present(Expr::Match(scrutinee, Partial::Present(arms))) => {
                match arm_patterns(cx, arms@) {
                    Some(patterns) => lower_match(
                        cx,
                        s,
                        block,
                        expr,
                        scrutinee,
                        arms@,
                        patterns,
                    ),
                    None => Some(evaluated(cx, s, block, expr)),
                }
            },
            _ => Some(evaluated(cx, s, block, expr)),
        }
    }
}

/// An expression without rule of its own only has a value.
pub open spec fn evaluated(
    cx: CheckedBody,
    s: State,
    block: BasicBlockId,
    expr: ExprId,
) -> LoweredExpr {
    let (state, value) = ensure_value(cx, s, expr);
    LoweredExpr { state, next: Some(block), value, eval: true }
}

/// An aggregate is reserved, then its fields are computed and stored one after the other.
pub open spec fn lower_aggregate(
    cx: CheckedBody,
    s: State,
    block: BasicBlockId,
    expr: ExprId,
    aggregate: Aggregate,
) -> Option<LoweredExpr>
    decreases expr.0 as nat, 3nat, aggregate.inits.len() + 1,
    when cx.wf() && cx.has_expr(expr) && inits_before(aggregate.inits, expr.0 as nat)
{
    let (s1, base) = alloc_aggregate(cx, s, block, expr, aggregate.size_bytes);
    let s2 = match aggregate.discriminant {
        Some(discriminant) => store_discriminant(cx, s1, block, expr, base, discriminant),
        None => s1,
    };
    match lower_inits(cx, s2, block, expr, base, aggregate.inits, 0) {
        Some((state, next)) => Some(LoweredExpr { state, next, value: base, eval: true }),
        None => None,
    }
}

/// Whether every stored expression comes before `bound`.
pub open spec fn inits_before(
    inits: Seq<(ExprId, Option<FieldAccessInfo>)>,
    bound: nat,
) -> bool {
    forall|i: int| 0 <= i < inits.len() ==> (#[trigger] inits[i]).0.0 < bound
}

/// The fields of the aggregate at `base` are computed and stored, from the `i`-th on.
pub open spec fn lower_inits(
    cx: CheckedBody,
    s: State,
    block: BasicBlockId,
    expr: ExprId,
    base: ValueId,
    inits: Seq<(ExprId, Option<FieldAccessInfo>)>,
    i: nat,
) -> Option<(State, Option<BasicBlockId>)>
    decreases expr.0 as nat, 3nat, inits.len() - i,
    when cx.wf() && cx.has_expr(expr) && inits_before(inits, expr.0 as nat)
{
    if i >= inits.len() {
        Some((s, Some(block)))
    } else {
        match lower_expr(cx, s, block, inits[i as int].0) {
            None => None,
            Some(init) => match init.next {
                None => Some((init.state, None)),
                Some(next) => {
                    let s1 = match inits[i as int].1 {
                        Some(info) => store_field(
                            cx,
                            init.state,
                            next,
                            expr,
                            base,
                            info,
                            init.value,
                        ),
                        None => init.state,
                    };
                    lower_inits(cx, s1, next, expr, base, inits, i + 1)
                },
            },
        }
    }
}

/// A match tests its scrutinee once, and every arm that ends leads to one common block.
pub open spec fn lower_match(
    cx: CheckedBody,
    s: State,
    block: BasicBlockId,
    expr: ExprId,
    scrutinee: ExprId,
    arms: Seq<MatchArm>,
    patterns: Seq<MatchArmPattern>,
) -> Option<LoweredExpr>
    decreases expr.0 as nat, 3nat, arms.len() + 1,
    when cx.wf() && cx.has_expr(expr) && scrutinee.0 < expr.0 && arms_before(arms, expr.0 as nat)
{
    let (s1, value) = ensure_value(cx, s, expr);
    match lower_expr(cx, s1, block, scrutinee) {
        None => None,
        Some(tested) => match tested.next {
            None => Some(LoweredExpr { state: tested.state, next: None, value, eval: false }),
            Some(header) => {
                match lower_arms(cx, tested.state, expr, arms, 0, None, Seq::empty()) {
                    None => None,
                    Some((s2, merge, entries)) => Some(
                        LoweredExpr {
                            state: close_match(s2, header, tested.value, patterns, entries),
                            next: merge,
                            value,
                            eval: false,
                        },
                    ),
                }
            },
        },
    }
}

/// Whether the bodies of all arms come before `bound`.
pub open spec fn arms_before(arms: Seq<MatchArm>, bound: nat) -> bool {
    forall|i: int| 0 <= i < arms.len() ==> (#[trigger] arms[i]).body.0 < bound
}

/// An arm that ends leads to the block where the arms meet, which is made if there is none.
pub open spec fn meet(arm: LoweredExpr, merge: Option<BasicBlockId>) -> (
    State,
    Option<BasicBlockId>,
) {
    match (arm.next, merge) {
        (None, _) => (arm.state, merge),
        (Some(end), Some(target)) => (
            arm.state.with_terminator(end, Terminator::Goto { target }),
            merge,
        ),
        (Some(end), None) => {
            let target = arm.state.next_block();
            (
                arm.state.with_block().with_terminator(end, Terminator::Goto { target }),
                Some(target),
            )
        },
    }
}

/// The arms of a match are lowered from the `i`-th on, each in a block of its own. The block
/// where they meet is made when the first arm needs it.
pub open spec fn lower_arms(
    cx: CheckedBody,
    s: State,
    expr: ExprId,
    arms: Seq<MatchArm>,
    i: nat,
    merge: Option<BasicBlockId>,
    entries: Seq<BasicBlockId>,
) -> Option<(State, Option<BasicBlockId>, Seq<BasicBlockId>)>
    decreases expr.0 as nat, 3nat, arms.len() - i,
    when cx.wf() && cx.has_expr(expr) && arms_before(arms, expr.0 as nat)
{
    if i >= arms.len() {
        Some((s, merge, entries))
    } else {
        let entry = s.next_block();
        match lower_expr(cx, s.with_block(), entry, arms[i as int].body) {
            None => None,
            Some(arm) => {
                let (s1, merge1) = meet(arm, merge);
                lower_arms(cx, s1, expr, arms, i + 1, merge1, entries.push(entry))
            },
        }
    }
}

/// Statements are lowered one after the other, from the `i`-th on, as long as control goes on.
pub open spec fn lower_stmts(
    cx: CheckedBody,
    s: State,
    block: BasicBlockId,
    stmts: Seq<StmtId>,
    i: nat,
) -> Option<(State, Option<BasicBlockId>)>
    decreases stmts_top(cx, stmts), 3nat, stmts.len() - i,
    when cx.wf() && cx.body.stmts_before(stmts, cx.body.exprs@.len())
{
    if i >= stmts.len() {
        Some((s, Some(block)))
    } else {
        proof {
            lemma_stmts_top(cx, stmts, i as int);
        }
        match lower_stmt(cx, s, block, stmts[i as int]) {
            None => None,
            Some(stmt) => match stmt.next {
                None => Some((stmt.state, None)),
                Some(next) => lower_stmts(cx, stmt.state, next, stmts, i + 1),
            },
        }
    }
}

/// A statement is lowered in `block`.
pub open spec fn lower_stmt(
    cx: CheckedBody,
    s: State,
    block: BasicBlockId,
    stmt: StmtId,
) -> Option<LoweredStmt>
    decreases body::stmt_top(cx.stmt(stmt)), 2nat, 0nat,
    when cx.wf() && cx.has_stmt(stmt)
{
    match cx.stmt(stmt) {
        Partial::Absent => Some(LoweredStmt { state: s, next: Some(block), value: None }),
        Partial::Present(data) => match data {
            Stmt::Let(pat, ty, None) => {
                let inst = MirInst::Let { stmt, pat, ty, value: None };
                Some(
                    LoweredStmt {
                        state: s.with_inst(block, inst),
                        next: Some(block),
                        value: None,
                    },
                )
            },
            Stmt::Let(pat, ty, Some(init)) => match lower_expr(cx, s, block, init) {
                None => None,
                Some(init) => {
                    let space = init.state.space_of(cx, init.value);
                    let s1 = init.state.with_pat_space(pat, space);
                    let inst = MirInst::Let { stmt, pat, ty, value: Some(init.value) };
                    Some(
                        LoweredStmt {
                            state: match init.next {
                                Some(next) => s1.with_inst(next, inst),
                                None => s1,
                            },
                            next: init.next,
                            value: None,
                        },
                    )
                },
            },
            Stmt::For(pat, iter, body) => lower_for(cx, s, block, stmt, pat, iter, body),
            Stmt::While(cond, body) => lower_while(cx, s, block, cond, body),
            Stmt::Continue => if s.loop_stack.len() == 0 {
                None
            } else {
                let end = Terminator::Goto { target: s.loop_stack.last().continue_target };
                Some(
                    LoweredStmt { state: s.with_terminator(block, end), next: None, value: None },
                )
            },
            Stmt::Break => if s.loop_stack.len() == 0 {
                None
            } else {
                let end = Terminator::Goto { target: s.loop_stack.last().break_target };
                Some(
                    LoweredStmt { state: s.with_terminator(block, end), next: None, value: None },
                )
            },
            Stmt::Return(None) => Some(
                LoweredStmt {
                    state: s.with_terminator(block, Terminator::Return(None)),
                    next: None,
                    value: None,
                },
            ),
            Stmt::Return(Some(value)) => match lower_expr(cx, s, block, value) {
                None => None,
                Some(value) => Some(
                    LoweredStmt {
                        state: match value.next {
                            Some(next) => value.state.with_terminator(
                                next,
                                Terminator::Return(Some(value.value)),
                            ),
                            None => value.state,
                        },
                        next: None,
                        value: None,
                    },
                ),
            },
            Stmt::Expr(expr) => lower_expr_stmt(cx, s, block, stmt, expr),
        },
    }
}

/// A `while` loop: `block` leads to the condition, the condition to the body or the exit, and
/// the end of the body back to the condition.
pub open spec fn lower_while(
    cx: CheckedBody,
    s: State,
    block: BasicBlockId,
    cond: ExprId,
    body: ExprId,
) -> Option<LoweredStmt>
    decreases pair_top(cond, body), 1nat, 0nat,
    when cx.wf() && cx.has_expr(cond) && cx.has_expr(body)
{
    let cond_entry = s.next_block();
    let s1 = s.with_block();
    let body_block = s1.next_block();
    let s2 = s1.with_block();
    let exit_block = s2.next_block();
    let s3 = s2.with_block().with_terminator(block, Terminator::Goto { target: cond_entry });
    match lower_expr(cx, s3, cond_entry, cond) {
        None => None,
        Some(tested) => match tested.next {
            None => Some(LoweredStmt { state: tested.state, next: None, value: None }),
            Some(header) => {
                let scope = LoopScope { continue_target: cond_entry, break_target: exit_block };
                match lower_expr(cx, tested.state.enter_loop(scope), body_block, body) {
                    None => None,
                    Some(round) => {
                        let s4 = round.state.leave_loop();
                        let s5 = match round.next {
                            Some(end) => s4.with_terminator(
                                end,
                                Terminator::Goto { target: cond_entry },
                            ),
                            None => s4,
                        };
                        let branch = Terminator::Branch {
                            cond: tested.value,
                            then_bb: body_block,
                            else_bb: exit_block,
                        };
                        let info = LoopInfo {
                            body: body_block,
                            exit: exit_block,
                            backedge: round.next,
                        };
                        Some(
                            LoweredStmt {
                                state: s5.with_terminator(header, branch).with_loop(
                                    cond_entry,
                                    info,
                                ),
                                next: Some(exit_block),
                                value: None,
                            },
                        )
                    },
                }
            },
        },
    }
}

/// Where a `for` loop starts: the state, the block in which the start is known, the start, and
/// the end where it is known before the loop.
pub struct LoopStart {
    pub state: State,
    pub block: BasicBlockId,
    pub start: ValueId,
    pub end: Option<ValueId>,
}

/// A loop over `0..end` starts.
pub open spec fn start_at_zero(
    cx: CheckedBody,
    s: State,
    block: BasicBlockId,
    end: Word,
) -> LoopStart {
    let s1 = s.with_word(cx, Word::of(0));
    LoopStart {
        state: s1.with_word(cx, end),
        block,
        start: s.next_value(),
        end: Some(s1.next_value()),
    }
}

/// A loop over `start..end` starts, once `start` is lowered, in the block `block`. An end that is
/// a literal is known; any other is left to be lowered.
pub open spec fn range_start(
    cx: CheckedBody,
    start: LoweredExpr,
    block: BasicBlockId,
    end: ExprId,
) -> (LoopStart, Option<ExprId>) {
    match int_literal(cx, end) {
        Some(word) => (
            LoopStart {
                state: start.state.with_word(cx, word),
                block,
                start: start.value,
                end: Some(start.state.next_value()),
            },
            None,
        ),
        None => (
            LoopStart { state: start.state, block, start: start.value, end: None },
            Some(end),
        ),
    }
}

/// The blocks of a `for` loop: the test, the body, the entry of a round, and the exit.
#[derive(Debug, Clone, Copy, PartialEq, Eq)]
pub struct LoopBlocks {
    pub cond_entry: BasicBlockId,
    pub body_block: BasicBlockId,
    pub body_entry: BasicBlockId,
    pub exit_block: BasicBlockId,
}

/// The loop variable is declared, the blocks of the loop are made, and control goes to the test.
/// In a loop over an array a round has an entry of its own.
#[verifier::opaque]
pub open spec fn open_loop(
    cx: CheckedBody,
    s: State,
    block: BasicBlockId,
    start: ValueId,
    stmt: StmtId,
    pat: PatId,
    over_array: bool,
) -> (State, LoopBlocks) {
    let inst = MirInst::Let { stmt, pat, ty: None, value: Some(start) };
    let s0 = s.with_pat_space(pat, s.space_of(cx, start)).with_inst(block, inst);
    let cond_entry = s0.next_block();
    let s1 = s0.with_block();
    let body_block = s1.next_block();
    let s2 = s1.with_block();
    let (s3, body_entry) = if over_array {
        (s2.with_block(), s2.next_block())
    } else {
        (s2, body_block)
    };
    let exit_block = s3.next_block();
    let s4 = s3.with_block().with_terminator(block, Terminator::Goto { target: cond_entry });
    (s4, LoopBlocks { cond_entry, body_block, body_entry, exit_block })
}

/// The test of a `for` loop compares the loop variable with the end. A round of a loop over an
/// array also begins by binding the element.
#[verifier::opaque]
pub open spec fn test_variable(
    cx: CheckedBody,
    s: State,
    blocks: LoopBlocks,
    pat: PatId,
    iter: ExprId,
    end: ValueId,
    over_array: bool,
) -> (State, ValueId) {
    let (s1, variable) = loop_variable(cx, s, pat);
    let s2 = if over_array {
        let (a, element) = array_element(cx, s1, pat, iter, variable);
        bind_element(cx, a, pat, iter, element, blocks.body_entry, blocks.body_block)
    } else {
        s1
    };
    (with_less(cx, s2, variable, end), s2.next_value())
}

/// A `for` loop over a range: `for i in start..end { body }` is lowered like
/// `let mut i = start; while i < end { body; i += 1 }`. A literal `n` stands for `0..n`.
///
/// A loop over an array counts from zero up to the number of elements, and a round works on the
/// element at the index reached.
pub open spec fn lower_for(
    cx: CheckedBody,
    s: State,
    block: BasicBlockId,
    stmt: StmtId,
    pat: PatId,
    iter: ExprId,
    body: ExprId,
) -> Option<LoweredStmt>
    decreases pair_top(iter, body), 1nat, 0nat,
    when cx.wf() && cx.has_expr(iter) && cx.has_expr(body)
{
    match iterable(cx, iter) {
        None => None,
        Some(Iterable::Literal(end)) => run_loop(
            cx,
            start_at_zero(cx, s, block, end),
            stmt,
            pat,
            iter,
            None,
            body,
            false,
        ),
        Some(Iterable::Array(length)) => run_loop(
            cx,
            start_at_zero(cx, s, block, length),
            stmt,
            pat,
            iter,
            None,
            body,
            true,
        ),
        Some(Iterable::Range(start, end)) => match lower_expr(cx, s, block, start) {
            None => None,
            Some(first) => match first.next {
                None => Some(LoweredStmt { state: first.state, next: None, value: None }),
                Some(next) => {
                    let (from, end_expr) = range_start(cx, first, next, end);
                    run_loop(cx, from, stmt, pat, iter, end_expr, body, false)
                },
            },
        },
    }
}

/// The rounds of a `for` loop whose start is known. An end that is not known before the loop is
/// the value of the expression `end_expr`, which is lowered in the test.
pub open spec fn run_loop(
    cx: CheckedBody,
    from: LoopStart,
    stmt: StmtId,
    pat: PatId,
    iter: ExprId,
    end_expr: Option<ExprId>,
    body: ExprId,
    over_array: bool,
) -> Option<LoweredStmt>
    decreases pair_top(iter, body), 0nat, 0nat,
    when cx.wf() && cx.has_expr(iter) && cx.has_expr(body) && end_before(end_expr, iter)
{
    let (s1, blocks) = open_loop(
        cx,
        from.state,
        from.block,
        from.start,
        stmt,
        pat,
        over_array,
    );
    match end_expr {
        Some(end) => match lower_expr(cx, s1, blocks.cond_entry, end) {
            None => None,
            Some(bound) => match bound.next {
                None => Some(LoweredStmt { state: bound.state, next: None, value: None }),
                Some(header) => {
                    let (s2, test) = test_variable(
                        cx,
                        bound.state,
                        blocks,
                        pat,
                        iter,
                        bound.value,
                        over_array,
                    );
                    match lower_expr(cx, in_loop(s2, blocks), blocks.body_block, body) {
                        None => None,
                        Some(round) => Some(
                            close_loop(
                                cx,
                                round,
                                blocks,
                                header,
                                test,
                                stmt,
                                pat,
                            ),
                        ),
                    }
                },
            },
        },
        None => {
            let (s2, test) = test_variable(
                cx,
                s1,
                blocks,
                pat,
                iter,
                from.end->0,
                over_array,
            );
            match lower_expr(cx, in_loop(s2, blocks), blocks.body_block, body) {
                None => None,
                Some(round) => Some(
                    close_loop(
                        cx,
                        round,
                        blocks,
                        blocks.cond_entry,
                        test,
                        stmt,
                        pat,
                    ),
                ),
            }
        },
    }
}

/// Whether the end of a range, if there is one, comes before the range.
pub open spec fn end_before(end_expr: Option<ExprId>, iter: ExprId) -> bool {
    match end_expr {
        Some(end) => end.0 < iter.0,
        None => true,
    }
}

/// The body of a `for` loop is entered.
pub open spec fn in_loop(s: State, blocks: LoopBlocks) -> State {
    s.enter_loop(
        LoopScope { continue_target: blocks.cond_entry, break_target: blocks.exit_block },
    )
}

/// A `for` loop is closed: the end of a round steps the variable and goes back to the test, and
/// the test, which ends in `header`, branches on its outcome.
pub open spec fn close_loop(
    cx: CheckedBody,
    round: LoweredExpr,
    blocks: LoopBlocks,
    header: BasicBlockId,
    test: ValueId,
    stmt: StmtId,
    pat: PatId,
) -> LoweredStmt {
    let s1 = match round.next {
        Some(end) => step_variable(cx, round.state, end, stmt, pat).with_terminator(
            end,
            Terminator::Goto { target: blocks.cond_entry },
        ),
        None => round.state,
    };
    let branch = Terminator::Branch {
        cond: test,
        then_bb: blocks.body_entry,
        else_bb: blocks.exit_block,
    };
    let info = LoopInfo {
        body: blocks.body_entry,
        exit: blocks.exit_block,
        backedge: round.next,
    };
    LoweredStmt {
        state: s1.leave_loop().with_terminator(header, branch).with_loop(
            blocks.cond_entry,
            info,
        ),
        next: Some(blocks.exit_block),
        value: None,
    }
}

/// An `if` in statement position branches on its condition, and the branches that end lead to
/// one common block. An `if` that has a value stays an expression.
pub open spec fn lower_if(
    cx: CheckedBody,
    s: State,
    block: BasicBlockId,
    if_expr: ExprId,
    cond: ExprId,
    then_expr: ExprId,
    else_expr: Option<ExprId>,
) -> Option<LoweredStmt>
    decreases if_top(cond, then_expr, else_expr), 1nat, 0nat,
    when cx.wf() && cx.has_expr(if_expr) && if_top(cond, then_expr, else_expr)
        <= cx.body.exprs@.len()
{
    if !cx.typed_body.is_unit(cx.typed_body.ty_of(if_expr)) {
        let (state, value) = ensure_value(cx, s, if_expr);
        Some(LoweredStmt { state, next: Some(block), value: Some(value) })
    } else {
        match lower_expr(cx, s, block, cond) {
            None => None,
            Some(tested) => match tested.next {
                None => Some(LoweredStmt { state: tested.state, next: None, value: None }),
                Some(header) => {
                    let (s4, then_block, merge_block, else_block) = open_if(
                        tested.state,
                        header,
                        tested.value,
                        else_expr is Some,
                    );
                    match lower_expr(cx, s4, then_block, then_expr) {
                        None => None,
                        Some(then_end) => {
                            let s5 = join(then_end.state, then_end.next, merge_block);
                            match else_expr {
                                None => Some(
                                    LoweredStmt {
                                        state: s5,
                                        next: Some(merge_block),
                                        value: None,
                                    },
                                ),
                                Some(else_expr) => {
                                    match lower_expr(cx, s5, else_block, else_expr) {
                                        None => None,
                                        Some(else_end) => Some(
                                            LoweredStmt {
                                                state: join(
                                                    else_end.state,
                                                    else_end.next,
                                                    merge_block,
                                                ),
                                                next: Some(merge_block),
                                                value: None,
                                            },
                                        ),
                                    }
                                },
                            }
                        },
                    }
                },
            },
        }
    }
}

/// The blocks of an `if` are made, for its branches and for where they meet, and `header`
/// branches on the condition. Without an else-branch it branches to where the branches meet.
#[verifier::opaque]
pub open spec fn open_if(
    s: State,
    header: BasicBlockId,
    cond: ValueId,
    has_else: bool,
) -> (State, BasicBlockId, BasicBlockId, BasicBlockId) {
    let then_block = s.next_block();
    let s1 = s.with_block();
    let merge_block = s1.next_block();
    let s2 = s1.with_block();
    let (s3, else_block) = if has_else {
        (s2.with_block(), s2.next_block())
    } else {
        (s2, merge_block)
    };
    let branch = Terminator::Branch { cond, then_bb: then_block, else_bb: else_block };
    (s3.with_terminator(header, branch), then_block, merge_block, else_block)
}

/// Where control goes on in `end`, it leads to `target`.
pub open spec fn join(s: State, end: Option<BasicBlockId>, target: BasicBlockId) -> State {
    match end {
        Some(end) => s.with_terminator(end, Terminator::Goto { target }),
        None => s,
    }
}

/// An expression in statement position.
pub open spec fn lower_expr_stmt(
    cx: CheckedBody,
    s: State,
    block: BasicBlockId,
    stmt: StmtId,
    expr: ExprId,
) -> Option<LoweredStmt>
    decreases expr.0 as nat, 5nat, 0nat,
    when cx.wf() && cx.has_expr(expr)
{
    if let Some((state, next, value)) = intrinsic_stmt(cx, s, block, expr) {
        Some(LoweredStmt { state, next, value: Some(value) })
    } else {
        match cx.expr(expr) {
            Partial::Absent => Some(LoweredStmt { state: s, next: Some(block), value: None }),
            Partial::Present(Expr::Assign(target, value)) => {
                match lower_expr(cx, s, block, value) {
                    None => None,
                    Some(value) => match value.next {
                        None => Some(
                            LoweredStmt { state: value.state, next: None, value: None },
                        ),
                        Some(next) => {
                            let s1 = assign_space(cx, value.state, target, value.value);
                            let state = match field_assign(
                                cx,
                                s1,
                                next,
                                expr,
                                target,
                                value.value,
                            ) {
                                Some(stored) => stored,
                                None => s1.with_inst(
                                    next,
                                    MirInst::Assign { stmt, target, value: value.value },
                                ),
                            };
                            Some(LoweredStmt { state, next: Some(next), value: None })
                        },
                    },
                }
            },
            Partial::Present(Expr::If(cond, then_expr, else_expr)) => {
                match lower_if(cx, s, block, expr, cond, then_expr, else_expr) {
                    None => None,
                    Some(lowered) => Some(
                        LoweredStmt {
                            state: match (lowered.next, lowered.value) {
                                (Some(next), Some(value)) => lowered.state.with_inst(
                                    next,
                                    MirInst::Eval { stmt, value },
                                ),
                                _ => lowered.state,
                            },
                            next: lowered.next,
                            value: lowered.value,
                        },
                    ),
                }
            },
            Partial::Present(Expr::AugAssign(target, value, op)) => {
                match lower_expr(cx, s, block, value) {
                    None => None,
                    Some(value) => Some(
                        LoweredStmt {
                            state: match value.next {
                                None => value.state,
                                Some(next) => assign_space(
                                    cx,
                                    value.state,
                                    target,
                                    value.value,
                                ).with_inst(
                                    next,
                                    MirInst::AugAssign { stmt, target, value: value.value, op },
                                ),
                            },
                            next: value.next,
                            value: None,
                        },
                    ),
                }
            },
            Partial::Present(_) => match lower_expr(cx, s, block, expr) {
                None => None,
                Some(lowered) => Some(
                    LoweredStmt {
                        state: match lowered.next {
                            Some(next) => if lowered.eval {
                                lowered.state.with_inst(
                                    next,
                                    MirInst::Eval { stmt, value: lowered.value },
                                )
                            } else {
                                lowered.state
                            },
                            None => lowered.state,
                        },
                        next: lowered.next,
                        value: Some(lowered.value),
                    },
                ),
            },
        }
    }
}

/// The root of a body is lowered: a block by its statements, any other expression to its value.
pub open spec fn lower_root(
    cx: CheckedBody,
    s: State,
    block: BasicBlockId,
    expr: ExprId,
) -> Option<(State, Option<BasicBlockId>)> {
    match cx.expr(expr) {
        Partial::Present(Expr::Block(stmts)) => lower_stmts(cx, s, block, stmts@, 0),
        _ => match lower_expr(cx, s, block, expr) {
            Some(lowered) => Some(
                (lowered.state.with_expr_value(expr, lowered.value), lowered.next),
            ),
            None => None,
        },
    }
}

} // verus!
