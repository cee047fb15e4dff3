//! Lowering of expressions to values.

use vstd::prelude::*;

use crate::hir::body;
use crate::hir::body::{Expr, Partial, Word};
use crate::hir::ids::ExprId;
use crate::hir::typed;
use crate::hir::typed::{AdtRef, TyBase, TyId};
use crate::mir::builder::MirBuilder;
use crate::mir::ir::{
    BasicBlockId, CallOrigin, Callable, CoreHelper, FieldPtrOrigin, IntrinsicOp, IntrinsicValue,
    MirInst, Terminator, ValueData, ValueId, ValueOrigin,
};
use crate::mir::rules;

verus! {

broadcast use vstd::std_specs::hash::group_hash_axioms;

impl<'a> MirBuilder<'a> {
    /// Returns the value of an expression, and gives it one if it has none.
    pub fn ensure_value(&mut self, expr: ExprId) -> (value: ValueId)
        requires
            old(self).wf(),
            old(self).input.has_expr(expr),
        ensures
            final(self).input == old(self).input,
            final(self)@.blocks == old(self)@.blocks,
            (final(self)@, value) == rules::ensure_value(*old(self).input, old(self)@, expr),
        decreases expr.0 as nat, 3nat,
    {
        match self.mir_body.expr_values.get(&expr.0) {
            Some(value) => return *value,
            None => {},
        }
        let value = self.new_value(expr);
        self.set_expr_value(expr, value);
        value
    }

    /// Gives an expression that has no value a value.
    fn new_value(&mut self, expr: ExprId) -> (value: ValueId)
        requires
            old(self).wf(),
            old(self).input.has_expr(expr),
        ensures
            final(self).input == old(self).input,
            final(self)@.blocks == old(self)@.blocks,
            (final(self)@, value) == rules::new_value(*old(self).input, old(self)@, expr),
        decreases expr.0 as nat, 2nat,
    {
        let input = self.input;
        let special = match &input.body.exprs[expr.0] {
            Partial::Present(Expr::Call(_, _)) => self.try_lower_call(expr),
            Partial::Present(Expr::MethodCall(_, _, _)) => self.try_lower_call(expr),
            Partial::Present(Expr::Field(_, _)) => self.try_lower_field(expr),
            _ => None,
        };
        match special {
            Some(value) => value,
            None => {
                let ty = input.typed_body.expr_ty(expr);
                let data = ValueData { ty, origin: ValueOrigin::Expr(expr) };
                self.alloc_value(data)
            },
        }
    }

    /// Returns the arguments of a call, the receiver first, and gives them values.
    fn collect_call_args(&mut self, expr: ExprId) -> (args: Option<(Vec<ValueId>, Vec<ExprId>)>)
        requires
            old(self).wf(),
            old(self).input.has_expr(expr),
        ensures
            final(self).input == old(self).input,
            final(self)@.blocks == old(self)@.blocks,
            match (args, rules::call_args(*old(self).input, expr)) {
                (Some((values, exprs)), Some(arg_exprs)) => {
                    &&& exprs@ == arg_exprs
                    &&& (final(self)@, values@) == rules::ensure_values(
                        *old(self).input,
                        old(self)@,
                        arg_exprs,
                        arg_exprs.len(),
                        expr.0 as nat,
                    )
                },
                (None, None) => final(self)@ == old(self)@,
                _ => false,
            },
        decreases expr.0 as nat, 0nat,
    {
        let input = self.input;
        let mut exprs: Vec<ExprId> = Vec::new();
        let rest: &Vec<ExprId> = match &input.body.exprs[expr.0] {
            Partial::Present(Expr::Call(_, args)) => args,
            Partial::Present(Expr::MethodCall(receiver, _, args)) => {
                exprs.push(*receiver);
                args
            },
            _ => {
                return None;
            },
        };
        let ghost head = exprs@;
        let mut j: usize = 0;
        while j < rest.len()
            invariant
                j <= rest@.len(),
                exprs@ == head + rest@.take(j as int),
            decreases rest@.len() - j,
        {
            exprs.push(rest[j]);
            j += 1;
            assert(rest@.take(j as int) == rest@.take(j - 1).push(rest@[j - 1]));
        }
        assert(rest@.take(j as int) == rest@);
        assert(Some(exprs@) == rules::call_args(*input, expr));
        assert(body::all_before(exprs@, expr.0 as nat)) by {
            assert(input.body.expr_before(input.body.exprs@[expr.0 as int], expr.0 as nat));
        }
        let mut values: Vec<ValueId> = Vec::new();
        let mut i: usize = 0;
        while i < exprs.len()
            invariant
                i <= exprs@.len(),
                self.input == input,
                input == old(self).input,
                input.wf(),
                input.has_expr(expr),
                self@.blocks == old(self)@.blocks,
                body::all_before(exprs@, expr.0 as nat),
                (self@, values@) == rules::ensure_values(
                    *input,
                    old(self)@,
                    exprs@,
                    i as nat,
                    expr.0 as nat,
                ),
            decreases exprs@.len() - i,
        {
            let value = self.ensure_value(exprs[i]);
            values.push(value);
            i += 1;
        }
        Some((values, exprs))
    }

    /// Attempts to lower a function or method call into a value.
    ///
    /// Returns the value of the call, or `None` if the expression is not a call or the call
    /// yields nothing.
    pub fn try_lower_call(&mut self, expr: ExprId) -> (value: Option<ValueId>)
        requires
            old(self).wf(),
            old(self).input.has_expr(expr),
        ensures
            final(self).input == old(self).input,
            final(self)@.blocks == old(self)@.blocks,
            (final(self)@, value) == rules::call_value(*old(self).input, old(self)@, expr),
        decreases expr.0 as nat, 1nat,
    {
        let input = self.input;
        let callable = match input.typed_body.exprs[expr.0].callable {
            Some(callable) => callable,
            None => {
                return None;
            },
        };
        let (args, arg_exprs) = match self.collect_call_args(expr) {
            Some(collected) => collected,
            None => {
                return None;
            },
        };
        let mut receiver_space = None;
        if self.is_method_call(expr) && args.len() > 0 {
            let needs_space = match input.typed_body.callables[callable.0].receiver_ty {
                Some(ty) => matches!(
                    input.typed_body.types[ty.0].base,
                    TyBase::Adt(AdtRef::Struct(_))
                ),
                None => false,
            };
            if needs_space {
                receiver_space = Some(self.value_address_space(args[0]));
            }
        }
        let ty = input.typed_body.expr_ty(expr);
        if let Some(op) = input.core.intrinsic_kind(callable) {
            if !op.returns_value() {
                return None;
            }
            let mut args = args;
            let mut code_region = None;
            if matches!(op, IntrinsicOp::CodeRegionOffset | IntrinsicOp::CodeRegionLen) {
                if arg_exprs.len() > 0 {
                    code_region = input.typed_body.exprs[arg_exprs[0].0].code_region;
                }
                args.clear();
            }
            let data = ValueData {
                ty,
                origin: ValueOrigin::Intrinsic(IntrinsicValue { op, args, code_region }),
            };
            return Some(self.alloc_value(data));
        }
        let data = ValueData {
            ty,
            origin: ValueOrigin::Call(
                CallOrigin {
                    expr,
                    callable: Callable::Checked(callable),
                    args,
                    receiver_space,
                    resolved_name: None,
                },
            ),
        };
        Some(self.alloc_value(data))
    }

    /// Returns whether an expression is a method call, as opposed to a call of a function.
    pub fn is_method_call(&self, expr: ExprId) -> (is_method: bool)
        requires
            self.input.has_expr(expr),
        ensures
            is_method == rules::is_method_call(*self.input, expr),
    {
        matches!(&self.input.body.exprs[expr.0], Partial::Present(Expr::MethodCall(_, _, _)))
    }

    /// Rewrites a field access into a load of the field, or into a pointer to the field where it
    /// is an aggregate itself.
    ///
    /// Returns the value of the field, or `None` if the field cannot be resolved.
    pub fn try_lower_field(&mut self, expr: ExprId) -> (value: Option<ValueId>)
        requires
            old(self).wf(),
            old(self).input.has_expr(expr),
        ensures
            final(self).input == old(self).input,
            final(self)@.blocks == old(self)@.blocks,
            (final(self)@, value) == rules::field_value(*old(self).input, old(self)@, expr),
        decreases expr.0 as nat, 1nat,
    {
        let input = self.input;
        let (lhs, field_index) = match &input.body.exprs[expr.0] {
            Partial::Present(Expr::Field(lhs, Partial::Present(index))) => (*lhs, *index),
            _ => {
                return None;
            },
        };
        let lhs_ty = input.typed_body.expr_ty(lhs);
        let info = match input.typed_body.field_access_info(lhs_ty, field_index) {
            Some(info) => info,
            None => {
                return None;
            },
        };
        proof {
            typed::lemma_field_ty_known(
                input.typed_body,
                input.body.exprs@.len(),
                lhs_ty,
                field_index,
            );
        }
        let addr_value = self.ensure_value(lhs);
        let addr_space = self.value_address_space(addr_value);
        let is_aggregate = input.typed_body.field_count(info.field_ty) > 0;
        if is_aggregate {
            if info.offset_bytes == 0 {
                self.set_value_address_space(addr_value, addr_space);
                return Some(addr_value);
            }
            let data = ValueData {
                ty: info.field_ty,
                origin: ValueOrigin::FieldPtr(
                    FieldPtrOrigin { base: addr_value, offset_bytes: info.offset_bytes },
                ),
            };
            let result = self.alloc_value(data);
            self.set_value_address_space(result, addr_space);
            return Some(result);
        }
        let ptr_ty = input.core.helper_ty(addr_space);
        let offset_value = self.synthetic_u256(Word::from_u64(info.offset_bytes));
        let args = vec![addr_value, offset_value];
        let load = self.call_helper(
            expr,
            CoreHelper::GetField,
            ptr_ty,
            info.field_ty,
            args,
            info.field_ty,
        );
        Some(load)
    }

    /// Adds a call of a helper of the core library.
    pub fn call_helper(
        &mut self,
        expr: ExprId,
        helper: CoreHelper,
        ptr_ty: TyId,
        value_ty: TyId,
        args: Vec<ValueId>,
        ty: TyId,
    ) -> (value: ValueId)
        ensures
            final(self).input == old(self).input,
            value == old(self)@.next_value(),
            final(self)@ == old(self)@.with_value(
                (ValueData {
                    ty,
                    origin: rules::helper_call(expr, helper, ptr_ty, value_ty, args@),
                }),
            ),
    {
        let data = ValueData {
            ty,
            origin: ValueOrigin::Call(
                CallOrigin {
                    expr,
                    callable: Callable::Helper { helper, ptr_ty, value_ty },
                    args,
                    receiver_space: None,
                    resolved_name: None,
                },
            ),
        };
        self.alloc_value(data)
    }

    /// Attempts to lower the call of an intrinsic that yields nothing.
    ///
    /// Returns the block in which control continues and the value of the expression.
    pub fn try_lower_intrinsic_stmt(&mut self, block: BasicBlockId, expr: ExprId) -> (lowered:
        Option<(Option<BasicBlockId>, ValueId)>)
        requires
            old(self).wf(),
            old(self).input.has_expr(expr),
            old(self).has_block(block),
        ensures
            final(self).input == old(self).input,
            final(self)@.blocks.len() == old(self)@.blocks.len(),
            match (lowered, rules::intrinsic_stmt(*old(self).input, old(self)@, block, expr)) {
                (Some((next, value)), Some(expected)) => (final(self)@, next, value) == expected,
                (None, None) => final(self)@ == old(self)@,
                _ => false,
            },
            lowered matches Some((Some(next), _)) ==> final(self).has_block(next),
    {
        proof {
            reveal(rules::intrinsic_stmt);
        }
        let input = self.input;
        let callable = match input.typed_body.exprs[expr.0].callable {
            Some(callable) => callable,
            None => {
                return None;
            },
        };
        let op = match input.core.intrinsic_kind(callable) {
            Some(op) => op,
            None => {
                return None;
            },
        };
        if op.returns_value() {
            return None;
        }
        let (args, _) = match self.collect_call_args(expr) {
            Some(collected) => collected,
            None => {
                return None;
            },
        };
        let value = self.ensure_value(expr);
        if matches!(op, IntrinsicOp::ReturnData) && args.len() == 2 {
            let end = Terminator::ReturnData { offset: args[0], size: args[1] };
            self.set_terminator(block, end);
            return Some((None, value));
        }
        let inst = MirInst::IntrinsicStmt { expr, op, args };
        self.push_inst(block, inst);
        Some((Some(block), value))
    }
}

} // verus!
