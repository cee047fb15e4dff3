//! Lowering of expressions and statements: blocks, control flow and assignments.

use vstd::prelude::*;

use crate::hir::body;
use crate::hir::body::{
    ArithBinOp, BinOp, CompBinOp, Expr, FieldInit, LitKind, MatchArm, Partial, Stmt, Word,
};
use crate::hir::ids::{ExprId, PatId, StmtId};
use crate::hir::typed::{FieldAccessInfo, LocalBinding, MatchArmPattern, TyId};
use crate::mir::builder::MirBuilder;
use crate::mir::growth;
use crate::mir::ir::{
    BasicBlockId, CoreHelper, LoopInfo, LoopScope, MirInst, SwitchTarget, SyntheticValue,
    Terminator, ValueData, ValueId, ValueOrigin,
};
use crate::mir::rules;
use crate::mir::rules::{Aggregate, LoopBlocks, LoweredExpr, LoweredStmt};

verus! {

impl<'a> MirBuilder<'a> {
    /// Lowers the root expression of the body, starting from the entry block `block`.
    ///
    /// Returns the block in which control continues.
    pub fn lower_root(&mut self, block: BasicBlockId, expr: ExprId) -> (next: Option<BasicBlockId>)
        requires
            old(self).wf(),
            old(self).input.has_expr(expr),
            old(self).has_block(block),
            rules::lower_root(*old(self).input, old(self)@, block, expr) is Some,
        ensures
            final(self).input == old(self).input,
            rules::lower_root(*old(self).input, old(self)@, block, expr) == Some(
                (final(self)@, next),
            ),
            final(self)@.blocks.len() >= old(self)@.blocks.len(),
            next matches Some(next) ==> final(self).has_block(next),
    {
        let input = self.input;
        match &input.body.exprs[expr.0] {
            Partial::Present(Expr::Block(stmts)) => {
                proof {
                    self.lemma_block_stmts(expr, stmts@);
                }
                self.lower_block(block, expr, stmts)
            },
            _ => {
                let (next_block, value) = self.lower_expr_in(block, expr);
                self.set_expr_value(expr, value);
                next_block
            },
        }
    }

    /// The statements of a block are below the block.
    proof fn lemma_block_stmts(self, expr: ExprId, stmts: Seq<StmtId>)
        requires
            self.wf(),
            self.input.has_expr(expr),
            self.input.expr(expr) matches Partial::Present(Expr::Block(own)) && own@ == stmts,
        ensures
            self.input.body.stmts_before(stmts, self.input.body.exprs@.len()),
            rules::stmts_top(*self.input, stmts) <= expr.0,
    {
        let body = self.input.body;
        assert(body.expr_before(body.exprs@[expr.0 as int], expr.0 as nat));
        rules::lemma_stmts_top_least(*self.input, stmts, expr.0 as nat);
    }

    /// Lowers the statements of a block, one after the other.
    ///
    /// Returns the block in which control continues, or `None` if it does not.
    pub fn lower_block(
        &mut self,
        block: BasicBlockId,
        _block_expr: ExprId,
        stmts: &[StmtId],
    ) -> (next: Option<BasicBlockId>)
        requires
            old(self).wf(),
            old(self).input.body.stmts_before(stmts@, old(self).input.body.exprs@.len()),
            old(self).has_block(block),
            rules::lower_stmts(*old(self).input, old(self)@, block, stmts@, 0) is Some,
        ensures
            final(self).input == old(self).input,
            rules::lower_stmts(*old(self).input, old(self)@, block, stmts@, 0) == Some(
                (final(self)@, next),
            ),
            final(self)@.blocks.len() >= old(self)@.blocks.len(),
            next matches Some(next) ==> final(self).has_block(next),
        decreases rules::stmts_top(*old(self).input, stmts@), 3nat, 0nat,
    {
        let input = self.input;
        let mut current = block;
        let mut i: usize = 0;
        while i < stmts.len()
            invariant
                i <= stmts@.len(),
                self.input == input,
                input == old(self).input,
                input.wf(),
                input.body.stmts_before(stmts@, input.body.exprs@.len()),
                self.has_block(current),
                self@.blocks.len() >= old(self)@.blocks.len(),
                rules::lower_stmts(*input, self@, current, stmts@, i as nat) is Some,
                rules::lower_stmts(*input, old(self)@, block, stmts@, 0) == rules::lower_stmts(
                    *input,
                    self@,
                    current,
                    stmts@,
                    i as nat,
                ),
            decreases stmts@.len() - i,
        {
            proof {
                rules::lemma_stmts_top(*input, stmts@, i as int);
            }
            let (next, _) = self.lower_stmt(current, stmts[i]);
            match next {
                Some(next) => {
                    current = next;
                },
                None => {
                    return None;
                },
            }
            i += 1;
        }
        Some(current)
    }

    /// Lowers an expression in `block`.
    ///
    /// Returns the block in which control continues and the value of the expression.
    pub fn lower_expr_in(&mut self, block: BasicBlockId, expr: ExprId) -> (lowered: (
        Option<BasicBlockId>,
        ValueId,
    ))
        requires
            old(self).wf(),
            old(self).input.has_expr(expr),
            old(self).has_block(block),
            rules::lower_expr(*old(self).input, old(self)@, block, expr) is Some,
        ensures
            final(self).input == old(self).input,
            rules::lower_expr(*old(self).input, old(self)@, block, expr) matches Some(expected)
                && (final(self)@, lowered.0, lowered.1) == (
                expected.state,
                expected.next,
                expected.value,
            ),
            final(self)@.blocks.len() >= old(self)@.blocks.len(),
            lowered.0 matches Some(next) ==> final(self).has_block(next),
        decreases expr.0 as nat, 5nat, 0nat,
    {
        let (next, value, _) = self.lower_expr_core(block, expr);
        (next, value)
    }

    /// Lowers an expression in `block` and tells whether a statement made of it has to evaluate
    /// the value.
    ///
    /// Returns the block in which control continues, the value, and that flag.
    pub fn lower_expr_core(&mut self, block: BasicBlockId, expr: ExprId) -> (lowered: (
        Option<BasicBlockId>,
        ValueId,
        bool,
    ))
        requires
            old(self).wf(),
            old(self).input.has_expr(expr),
            old(self).has_block(block),
            rules::lower_expr(*old(self).input, old(self)@, block, expr) is Some,
        ensures
            final(self).input == old(self).input,
            rules::lower_expr(*old(self).input, old(self)@, block, expr) == Some(
                (LoweredExpr {
                    state: final(self)@,
                    next: lowered.0,
                    value: lowered.1,
                    eval: lowered.2,
                }),
            ),
            final(self)@.blocks.len() >= old(self)@.blocks.len(),
            lowered.0 matches Some(next) ==> final(self).has_block(next),
        decreases expr.0 as nat, 4nat, 0nat,
    {
        let input = self.input;
        proof {
            growth::lemma_inits_before(*input, expr);
        }
        if let Some((next, value)) = self.try_lower_intrinsic_stmt(block, expr) {
            return (next, value, false);
        }
        if let Some((next, value)) = self.try_lower_variant_ctor(block, expr) {
            return (next, value, true);
        }
        if let Some((next, value)) = self.try_lower_unit_variant(block, expr) {
            return (next, value, true);
        }
        match &input.body.exprs[expr.0] {
            Partial::Present(Expr::Block(stmts)) => {
                proof {
                    self.lemma_block_stmts(expr, stmts@);
                }
                let next_block = self.lower_block(block, expr, stmts);
                let value = self.ensure_value(expr);
                (next_block, value, false)
            },
            Partial::Present(Expr::RecordInit(_, fields)) => {
                let (next, value) = self.try_lower_record(block, expr, fields);
                (next, value, true)
            },
            Partial::Present(Expr::Match(scrutinee, Partial::Present(arms))) => {
                match self.match_arm_patterns(arms) {
                    Some(patterns) => {
                        let (next, value) = self.lower_match_expr(
                            block,
                            expr,
                            *scrutinee,
                            arms,
                            &patterns,
                        );
                        (next, value, false)
                    },
                    None => {
                        let value = self.ensure_value(expr);
                        (Some(block), value, true)
                    },
                }
            },
            _ => {
                let value = self.ensure_value(expr);
                (Some(block), value, true)
            },
        }
    }

    /// Attempts to lower the call of a variant's constructor.
    ///
    /// Returns the block in which control continues and the value that is built.
    pub fn try_lower_variant_ctor(&mut self, block: BasicBlockId, expr: ExprId) -> (lowered: Option<
        (Option<BasicBlockId>, ValueId),
    >)
        requires
            old(self).wf(),
            old(self).input.has_expr(expr),
            old(self).has_block(block),
            rules::variant_ctor(*old(self).input, expr) matches Some(aggregate)
                ==> rules::lower_aggregate(
                *old(self).input,
                old(self)@,
                block,
                expr,
                aggregate,
            ) is Some,
        ensures
            final(self).input == old(self).input,
            match (lowered, rules::variant_ctor(*old(self).input, expr)) {
                (Some((next, value)), Some(aggregate)) => rules::lower_aggregate(
                    *old(self).input,
                    old(self)@,
                    block,
                    expr,
                    aggregate,
                ) == Some((LoweredExpr { state: final(self)@, next, value, eval: true })),
                (None, None) => final(self)@ == old(self)@,
                _ => false,
            },
            final(self)@.blocks.len() >= old(self)@.blocks.len(),
            lowered matches Some((Some(next), _)) ==> final(self).has_block(next),
        decreases expr.0 as nat, 3nat, 2nat,
    {
        proof {
            reveal(rules::variant_ctor);
        }
        let input = self.input;
        let (callee, args) = match &input.body.exprs[expr.0] {
            Partial::Present(Expr::Call(callee, args)) => (*callee, args),
            _ => {
                return None;
            },
        };
        let variant = match input.typed_body.exprs[callee.0].variant {
            Some(variant) => variant,
            None => {
                return None;
            },
        };
        let layout = &input.typed_body.variants[variant.0];
        let mut inits: Vec<(ExprId, Option<FieldAccessInfo>)> = Vec::new();
        let mut i: usize = 0;
        while i < args.len()
            invariant
                i <= args@.len(),
                inits@ == Seq::new(
                    i as nat,
                    |j: int| (args@[j], rules::slot_info(layout.fields@, j)),
                ),
            decreases args@.len() - i,
        {
            let info = if i < layout.fields.len() {
                let slot = layout.fields[i];
                Some(FieldAccessInfo { field_ty: slot.ty, offset_bytes: slot.offset_bytes })
            } else {
                None
            };
            inits.push((args[i], info));
            i += 1;
        }
        let ghost aggregate = rules::variant_ctor(*input, expr)->0;
        assert(aggregate.inits == inits@);
        assert(rules::inits_before(inits@, expr.0 as nat)) by {
            assert(input.body.expr_before(input.body.exprs@[expr.0 as int], expr.0 as nat));
        }
        let (next, value) = self.lower_aggregate(
            block,
            expr,
            layout.size_bytes,
            Some(layout.discriminant),
            &inits,
        );
        Some((next, value))
    }

    /// Attempts to lower the name of a variant without fields.
    ///
    /// Returns the block in which control continues and the value that is built.
    pub fn try_lower_unit_variant(&mut self, block: BasicBlockId, expr: ExprId) -> (lowered: Option<
        (Option<BasicBlockId>, ValueId),
    >)
        requires
            old(self).wf(),
            old(self).input.has_expr(expr),
            old(self).has_block(block),
            rules::unit_variant(*old(self).input, expr) matches Some(aggregate)
                ==> rules::lower_aggregate(
                *old(self).input,
                old(self)@,
                block,
                expr,
                aggregate,
            ) is Some,
        ensures
            final(self).input == old(self).input,
            match (lowered, rules::unit_variant(*old(self).input, expr)) {
                (Some((next, value)), Some(aggregate)) => rules::lower_aggregate(
                    *old(self).input,
                    old(self)@,
                    block,
                    expr,
                    aggregate,
                ) == Some((LoweredExpr { state: final(self)@, next, value, eval: true })),
                (None, None) => final(self)@ == old(self)@,
                _ => false,
            },
            final(self)@.blocks.len() >= old(self)@.blocks.len(),
            lowered matches Some((Some(next), _)) ==> final(self).has_block(next),
        decreases expr.0 as nat, 3nat, 2nat,
    {
        proof {
            reveal(rules::unit_variant);
        }
        let input = self.input;
        match &input.body.exprs[expr.0] {
            Partial::Present(Expr::Path(_)) => {},
            _ => {
                return None;
            },
        }
        let variant = match input.typed_body.exprs[expr.0].variant {
            Some(variant) => variant,
            None => {
                return None;
            },
        };
        let layout = &input.typed_body.variants[variant.0];
        let inits: Vec<(ExprId, Option<FieldAccessInfo>)> = Vec::new();
        let ghost aggregate = rules::unit_variant(*input, expr)->0;
        assert(aggregate.inits == inits@);
        let (next, value) = self.lower_aggregate(
            block,
            expr,
            layout.size_bytes,
            Some(layout.discriminant),
            &inits,
        );
        Some((next, value))
    }

    /// Lowers a record initializer.
    ///
    /// Returns the block in which control continues and the value that is built.
    pub fn try_lower_record(
        &mut self,
        block: BasicBlockId,
        expr: ExprId,
        fields: &Vec<FieldInit>,
    ) -> (lowered: (Option<BasicBlockId>, ValueId))
        requires
            old(self).wf(),
            old(self).input.has_expr(expr),
            old(self).has_block(block),
            old(self).input.expr(expr) matches Partial::Present(Expr::RecordInit(_, own)) && own@
                == fields@,
            rules::lower_aggregate(
                *old(self).input,
                old(self)@,
                block,
                expr,
                rules::record(*old(self).input, expr, fields@),
            ) is Some,
        ensures
            final(self).input == old(self).input,
            rules::lower_aggregate(
                *old(self).input,
                old(self)@,
                block,
                expr,
                rules::record(*old(self).input, expr, fields@),
            ) == Some(
                (LoweredExpr {
                    state: final(self)@,
                    next: lowered.0,
                    value: lowered.1,
                    eval: true,
                }),
            ),
            final(self)@.blocks.len() >= old(self)@.blocks.len(),
            lowered.0 matches Some(next) ==> final(self).has_block(next),
        decreases expr.0 as nat, 3nat, 2nat,
    {
        proof {
            reveal(rules::record);
        }
        let input = self.input;
        let ty = input.typed_body.expr_ty(expr);
        let mut inits: Vec<(ExprId, Option<FieldAccessInfo>)> = Vec::new();
        let mut i: usize = 0;
        while i < fields.len()
            invariant
                i <= fields@.len(),
                input.wf(),
                input.typed_body.has_ty(ty),
                inits@ == Seq::new(
                    i as nat,
                    |j: int|
                        (fields@[j].expr, input.typed_body.field_info(ty, fields@[j].field)),
                ),
            decreases fields@.len() - i,
        {
            let info = input.typed_body.field_access_info(ty, fields[i].field);
            inits.push((fields[i].expr, info));
            i += 1;
        }
        let ghost aggregate = rules::record(*input, expr, fields@);
        assert(aggregate.inits == inits@);
        assert(rules::inits_before(inits@, expr.0 as nat)) by {
            assert(input.body.expr_before(input.body.exprs@[expr.0 as int], expr.0 as nat));
        }
        self.lower_aggregate(
            block,
            expr,
            input.typed_body.types[ty.0].size_bytes,
            None,
            &inits,
        )
    }

    /// Reserves an aggregate, and computes and stores its parts.
    fn lower_aggregate(
        &mut self,
        block: BasicBlockId,
        expr: ExprId,
        size_bytes: u64,
        discriminant: Option<u64>,
        inits: &Vec<(ExprId, Option<FieldAccessInfo>)>,
    ) -> (lowered: (Option<BasicBlockId>, ValueId))
        requires
            old(self).wf(),
            old(self).input.has_expr(expr),
            old(self).has_block(block),
            rules::inits_before(inits@, expr.0 as nat),
            rules::lower_aggregate(
                *old(self).input,
                old(self)@,
                block,
                expr,
                (Aggregate { size_bytes, discriminant, inits: inits@ }),
            ) is Some,
        ensures
            final(self).input == old(self).input,
            rules::lower_aggregate(
                *old(self).input,
                old(self)@,
                block,
                expr,
                (Aggregate { size_bytes, discriminant, inits: inits@ }),
            ) == Some(
                (LoweredExpr {
                    state: final(self)@,
                    next: lowered.0,
                    value: lowered.1,
                    eval: true,
                }),
            ),
            final(self)@.blocks.len() >= old(self)@.blocks.len(),
            lowered.0 matches Some(next) ==> final(self).has_block(next),
        decreases expr.0 as nat, 3nat, 1nat,
    {
        let input = self.input;
        let ghost aggregate = Aggregate { size_bytes, discriminant, inits: inits@ };
        let base = self.alloc_aggregate(block, expr, size_bytes);
        if let Some(discriminant) = discriminant {
            self.store_discriminant(block, expr, base, discriminant);
        }
        let ghost ready = self@;
        let mut current = block;
        let mut i: usize = 0;
        while i < inits.len()
            invariant
                i <= inits@.len(),
                aggregate == (Aggregate { size_bytes, discriminant, inits: inits@ }),
                self.input == input,
                input == old(self).input,
                input.wf(),
                input.has_expr(expr),
                rules::inits_before(inits@, expr.0 as nat),
                self.has_block(current),
                self@.blocks.len() >= old(self)@.blocks.len(),
                rules::lower_inits(
                    *input,
                    self@,
                    current,
                    expr,
                    base,
                    inits@,
                    i as nat,
                ) is Some,
                rules::lower_inits(*input, ready, block, expr, base, inits@, 0)
                    == rules::lower_inits(
                    *input,
                    self@,
                    current,
                    expr,
                    base,
                    inits@,
                    i as nat,
                ),
                rules::lower_aggregate(*input, old(self)@, block, expr, aggregate) == (
                match rules::lower_inits(*input, ready, block, expr, base, inits@, 0) {
                    Some((state, next)) => Some(
                        (LoweredExpr { state, next, value: base, eval: true }),
                    ),
                    None => None,
                }),
            decreases inits@.len() - i,
        {
            let (init, info) = inits[i];
            let (next, value) = self.lower_expr_in(current, init);
            match next {
                None => {
                    return (None, base);
                },
                Some(next) => {
                    if let Some(info) = info {
                        self.store_field(next, expr, base, info, value);
                    }
                    current = next;
                },
            }
            i += 1;
        }
        (Some(current), base)
    }

    /// Reserves room for an aggregate, and returns its address.
    fn alloc_aggregate(
        &mut self,
        block: BasicBlockId,
        expr: ExprId,
        size_bytes: u64,
    ) -> (base: ValueId)
        requires
            old(self).wf(),
            old(self).input.has_expr(expr),
            old(self).has_block(block),
        ensures
            final(self).input == old(self).input,
            final(self)@.blocks.len() == old(self)@.blocks.len(),
            (final(self)@, base) == rules::alloc_aggregate(
                *old(self).input,
                old(self)@,
                block,
                expr,
                size_bytes,
            ),
    {
        proof {
            reveal(rules::alloc_aggregate);
        }
        let input = self.input;
        let ty = input.typed_body.expr_ty(expr);
        let size = self.synthetic_u256(Word::from_u64(size_bytes));
        let args = vec![size];
        assert(args@ == seq![size]);
        let base = self.call_helper(
            expr,
            CoreHelper::Alloc,
            input.core.mem_ptr_ty,
            ty,
            args,
            ty,
        );
        self.set_expr_value(expr, base);
        self.push_inst(block, MirInst::EvalExpr { expr, value: base, bind_value: true });
        base
    }

    /// Stores the discriminant of the enum at `base`.
    fn store_discriminant(
        &mut self,
        block: BasicBlockId,
        expr: ExprId,
        base: ValueId,
        discriminant: u64,
    )
        requires
            old(self).wf(),
            old(self).input.has_expr(expr),
            old(self).has_block(block),
        ensures
            final(self).input == old(self).input,
            final(self)@.blocks.len() == old(self)@.blocks.len(),
            final(self)@ == rules::store_discriminant(
                *old(self).input,
                old(self)@,
                block,
                expr,
                base,
                discriminant,
            ),
    {
        proof {
            reveal(rules::store_discriminant);
        }
        let input = self.input;
        let ty = input.typed_body.expr_ty(expr);
        let ptr_ty = input.core.helper_ty(self.value_address_space(base));
        let word = self.synthetic_u256(Word::from_u64(discriminant));
        let args = vec![base, word];
        assert(args@ == seq![base, word]);
        let store = self.call_helper(
            expr,
            CoreHelper::StoreDiscriminant,
            ptr_ty,
            ty,
            args,
            input.typed_body.unit_ty,
        );
        self.push_inst(block, MirInst::EvalExpr { expr, value: store, bind_value: false });
    }

    /// Stores a value to a field of the aggregate at `base`.
    fn store_field(
        &mut self,
        block: BasicBlockId,
        expr: ExprId,
        base: ValueId,
        info: FieldAccessInfo,
        value: ValueId,
    )
        requires
            old(self).wf(),
            old(self).has_block(block),
        ensures
            final(self).input == old(self).input,
            final(self)@.blocks.len() == old(self)@.blocks.len(),
            final(self)@ == rules::store_field(
                *old(self).input,
                old(self)@,
                block,
                expr,
                base,
                info,
                value,
            ),
    {
        proof {
            reveal(rules::store_field);
        }
        let input = self.input;
        let ptr_ty = input.core.helper_ty(self.value_address_space(base));
        let offset = self.synthetic_u256(Word::from_u64(info.offset_bytes));
        let args = vec![base, offset, value];
        let store = self.call_helper(
            expr,
            CoreHelper::StoreField,
            ptr_ty,
            info.field_ty,
            args,
            input.typed_body.unit_ty,
        );
        self.push_inst(block, MirInst::EvalExpr { expr, value: store, bind_value: false });
    }

    /// Attempts to lower an assignment to a field.
    ///
    /// Returns the block in which control continues, or `None` if the target is not a field that
    /// can be resolved.
    pub fn try_lower_field_assign(
        &mut self,
        block: BasicBlockId,
        expr: ExprId,
        target: ExprId,
        value: ValueId,
    ) -> (next: Option<BasicBlockId>)
        requires
            old(self).wf(),
            old(self).input.has_expr(target),
            old(self).has_block(block),
        ensures
            final(self).input == old(self).input,
            final(self)@.blocks.len() == old(self)@.blocks.len(),
            match rules::field_assign(
                *old(self).input,
                old(self)@,
                block,
                expr,
                target,
                value,
            ) {
                Some(state) => next == Some(block) && final(self)@ == state,
                None => next is None && final(self)@ == old(self)@,
            },
    {
        proof {
            reveal(rules::field_assign);
        }
        let input = self.input;
        let (lhs, field_index) = match &input.body.exprs[target.0] {
            Partial::Present(Expr::Field(lhs, Partial::Present(index))) => (*lhs, *index),
            _ => {
                return None;
            },
        };
        let lhs_ty = input.typed_body.expr_ty(lhs);
        match input.typed_body.field_access_info(lhs_ty, field_index) {
            Some(info) => {
                let base = self.ensure_value(lhs);
                self.store_field(block, expr, base, info, value);
                Some(block)
            },
            None => None,
        }
    }

    /// Returns what the patterns of match arms test, or `None` if a switch cannot test them.
    fn match_arm_patterns(&self, arms: &Vec<MatchArm>) -> (patterns: Option<Vec<MatchArmPattern>>)
        ensures
            match (patterns, rules::arm_patterns(*self.input, arms@)) {
                (Some(patterns), Some(expected)) => patterns@ == expected && expected.len()
                    == arms@.len(),
                (None, None) => true,
                _ => false,
            },
    {
        proof {
            reveal(rules::arm_patterns);
        }
        let input = self.input;
        let mut patterns: Vec<MatchArmPattern> = Vec::new();
        let mut i: usize = 0;
        while i < arms.len()
            invariant
                i <= arms@.len(),
                input == self.input,
                forall|j: int|
                    0 <= j < i ==> input.typed_body.arm_pattern(
                        (#[trigger] arms@[j]).pat,
                    ) is Some,
                patterns@ == Seq::new(
                    i as nat,
                    |j: int| input.typed_body.arm_pattern(arms@[j].pat)->0,
                ),
            decreases arms@.len() - i,
        {
            match input.typed_body.pat_arm(arms[i].pat) {
                Some(pattern) => patterns.push(pattern),
                None => {
                    proof {
                        reveal(rules::arm_patterns);
                        assert(input.typed_body.arm_pattern(arms@[i as int].pat) is None);
                    }
                    return None;
                },
            }
            i += 1;
        }
        Some(patterns)
    }

    /// Lowers a match whose patterns a switch can test.
    ///
    /// Returns the block in which the arms meet and the value of the match.
    pub fn lower_match_expr(
        &mut self,
        block: BasicBlockId,
        expr: ExprId,
        scrutinee: ExprId,
        arms: &Vec<MatchArm>,
        patterns: &Vec<MatchArmPattern>,
    ) -> (lowered: (Option<BasicBlockId>, ValueId))
        requires
            old(self).wf(),
            old(self).input.has_expr(expr),
            old(self).has_block(block),
            scrutinee.0 < expr.0,
            rules::arms_before(arms@, expr.0 as nat),
            patterns@.len() == arms@.len(),
            rules::lower_match(
                *old(self).input,
                old(self)@,
                block,
                expr,
                scrutinee,
                arms@,
                patterns@,
            ) is Some,
        ensures
            final(self).input == old(self).input,
            rules::lower_match(
                *old(self).input,
                old(self)@,
                block,
                expr,
                scrutinee,
                arms@,
                patterns@,
            ) == Some(
                (LoweredExpr {
                    state: final(self)@,
                    next: lowered.0,
                    value: lowered.1,
                    eval: false,
                }),
            ),
            final(self)@.blocks.len() >= old(self)@.blocks.len(),
            lowered.0 matches Some(next) ==> final(self).has_block(next),
        decreases expr.0 as nat, 3nat, 1nat,
    {
        let input = self.input;
        let value = self.ensure_value(expr);
        let (scrut_next, discr) = self.lower_expr_in(block, scrutinee);
        let header = match scrut_next {
            Some(header) => header,
            None => {
                return (None, value);
            },
        };
        let ghost tested = self@;
        let mut merge: Option<BasicBlockId> = None;
        let mut entries: Vec<BasicBlockId> = Vec::new();
        let mut i: usize = 0;
        while i < arms.len()
            invariant
                i <= arms@.len(),
                entries@.len() == i,
                self.input == input,
                input == old(self).input,
                input.wf(),
                input.has_expr(expr),
                rules::arms_before(arms@, expr.0 as nat),
                self.has_block(header),
                self@.blocks.len() >= old(self)@.blocks.len(),
                merge matches Some(target) ==> self.has_block(target),
                rules::lower_arms(
                    *input,
                    self@,
                    expr,
                    arms@,
                    i as nat,
                    merge,
                    entries@,
                ) is Some,
                rules::lower_arms(*input, tested, expr, arms@, 0, None, Seq::empty())
                    == rules::lower_arms(
                    *input,
                    self@,
                    expr,
                    arms@,
                    i as nat,
                    merge,
                    entries@,
                ),
            decreases arms@.len() - i,
        {
            let entry = self.alloc_block();
            let (arm_end, _) = self.lower_expr_in(entry, arms[i].body);
            if let Some(end) = arm_end {
                let target = match merge {
                    Some(target) => target,
                    None => self.alloc_block(),
                };
                merge = Some(target);
                self.set_terminator(end, Terminator::Goto { target });
            }
            entries.push(entry);
            i += 1;
        }
        self.close_match(header, discr, patterns, &entries);
        (merge, value)
    }

    /// Ends a block with the switch over the arms of a match.
    fn close_match(
        &mut self,
        block: BasicBlockId,
        discr: ValueId,
        patterns: &Vec<MatchArmPattern>,
        entries: &Vec<BasicBlockId>,
    )
        requires
            old(self).has_block(block),
            patterns@.len() == entries@.len(),
        ensures
            final(self).input == old(self).input,
            final(self)@ == rules::close_match(
                old(self)@,
                block,
                discr,
                patterns@,
                entries@,
            ),
            final(self)@.blocks.len() >= old(self)@.blocks.len(),
    {
        proof {
            reveal(rules::close_match);
        }
        let mut targets: Vec<SwitchTarget> = Vec::new();
        let mut default: Option<BasicBlockId> = None;
        let mut i: usize = 0;
        while i < patterns.len() && default.is_none()
            invariant
                i <= patterns@.len(),
                patterns@.len() == entries@.len(),
                default is None ==> rules::first_wildcard(patterns@, 0)
                    == rules::first_wildcard(patterns@, i as nat) && targets@.len() == i,
                default matches Some(block) ==> rules::first_wildcard(patterns@, 0)
                    < patterns@.len() && block == entries@[rules::first_wildcard(
                    patterns@,
                    0,
                ) as int] && targets@.len() == rules::first_wildcard(patterns@, 0),
                forall|j: int|
                    0 <= j < targets@.len() ==> #[trigger] targets@[j] == (SwitchTarget {
                        value: patterns@[j]->Value_0,
                        block: entries@[j],
                    }),
            decreases patterns@.len() - i,
        {
            match patterns[i] {
                MatchArmPattern::Value(value) => {
                    targets.push(SwitchTarget { value, block: entries[i] });
                },
                MatchArmPattern::Wildcard => {
                    default = Some(entries[i]);
                },
            }
            i += 1;
        }
        assert(targets@ == rules::switch_targets(patterns@, entries@));
        let default = match default {
            Some(block) => block,
            None => {
                let unreachable = self.alloc_block();
                self.set_terminator(unreachable, Terminator::Unreachable);
                unreachable
            },
        };
        self.set_terminator(block, Terminator::Switch { discr, targets, default });
    }

    /// Lowers a statement in `block`.
    ///
    /// Returns the block in which control continues and the value of the statement, if it has
    /// one.
    pub fn lower_stmt(&mut self, block: BasicBlockId, stmt_id: StmtId) -> (lowered: (
        Option<BasicBlockId>,
        Option<ValueId>,
    ))
        requires
            old(self).wf(),
            old(self).input.has_stmt(stmt_id),
            old(self).has_block(block),
            rules::lower_stmt(*old(self).input, old(self)@, block, stmt_id) is Some,
        ensures
            final(self).input == old(self).input,
            rules::lower_stmt(*old(self).input, old(self)@, block, stmt_id) == Some(
                (LoweredStmt { state: final(self)@, next: lowered.0, value: lowered.1 }),
            ),
            final(self)@.blocks.len() >= old(self)@.blocks.len(),
            lowered.0 matches Some(next) ==> final(self).has_block(next),
        decreases body::stmt_top(old(self).input.stmt(stmt_id)), 2nat, 0nat,
    {
        let input = self.input;
        let stmt = match &input.body.stmts[stmt_id.0] {
            Partial::Present(stmt) => stmt,
            Partial::Absent => {
                return (Some(block), None);
            },
        };
        match stmt {
            Stmt::Let(pat, ty, value) => {
                let (next_block, value_id) = match value {
                    Some(expr) => {
                        let (next_block, value) = self.lower_expr_in(block, *expr);
                        let space = self.value_address_space(value);
                        self.set_pat_address_space(*pat, space);
                        (next_block, Some(value))
                    },
                    None => (Some(block), None),
                };
                if let Some(next) = next_block {
                    self.push_inst(
                        next,
                        MirInst::Let { stmt: stmt_id, pat: *pat, ty: *ty, value: value_id },
                    );
                }
                (next_block, None)
            },
            Stmt::For(pat, iter_expr, body_expr) => self.lower_for(
                block,
                stmt_id,
                *pat,
                *iter_expr,
                *body_expr,
            ),
            Stmt::While(cond, body_expr) => self.lower_while(block, *cond, *body_expr),
            Stmt::Continue => {
                let scope = self.loop_stack[self.loop_stack.len() - 1];
                self.set_terminator(block, Terminator::Goto { target: scope.continue_target });
                (None, None)
            },
            Stmt::Break => {
                let scope = self.loop_stack[self.loop_stack.len() - 1];
                self.set_terminator(block, Terminator::Goto { target: scope.break_target });
                (None, None)
            },
            Stmt::Return(value) => {
                let (next_block, ret_value) = match value {
                    Some(expr) => {
                        let (next_block, value) = self.lower_expr_in(block, *expr);
                        (next_block, Some(value))
                    },
                    None => (Some(block), None),
                };
                if let Some(next) = next_block {
                    self.set_terminator(next, Terminator::Return(ret_value));
                }
                (None, None)
            },
            Stmt::Expr(expr) => self.lower_expr_stmt(block, stmt_id, *expr),
        }
    }

    /// Lowers a `while` loop and wires its control flow.
    ///
    /// Returns the exit block of the loop; there is no value.
    pub fn lower_while(
        &mut self,
        block: BasicBlockId,
        cond_expr: ExprId,
        body_expr: ExprId,
    ) -> (lowered: (Option<BasicBlockId>, Option<ValueId>))
        requires
            old(self).wf(),
            old(self).input.has_expr(cond_expr),
            old(self).input.has_expr(body_expr),
            old(self).has_block(block),
            rules::lower_while(
                *old(self).input,
                old(self)@,
                block,
                cond_expr,
                body_expr,
            ) is Some,
        ensures
            final(self).input == old(self).input,
            rules::lower_while(*old(self).input, old(self)@, block, cond_expr, body_expr) == Some(
                (LoweredStmt { state: final(self)@, next: lowered.0, value: lowered.1 }),
            ),
            final(self)@.blocks.len() >= old(self)@.blocks.len(),
            lowered.0 matches Some(next) ==> final(self).has_block(next),
        decreases rules::pair_top(cond_expr, body_expr), 1nat, 0nat,
    {
        let cond_entry = self.alloc_block();
        let body_block = self.alloc_block();
        let exit_block = self.alloc_block();
        self.set_terminator(block, Terminator::Goto { target: cond_entry });
        let (cond_next, cond_val) = self.lower_expr_in(cond_entry, cond_expr);
        let cond_header = match cond_next {
            Some(header) => header,
            None => {
                return (None, None);
            },
        };
        self.push_loop(LoopScope { continue_target: cond_entry, break_target: exit_block });
        proof {
            growth::lemma_lower_expr(*self.input, self@, body_block, body_expr);
        }
        let (body_end, _) = self.lower_expr_in(body_block, body_expr);
        self.pop_loop();
        if let Some(end) = body_end {
            self.set_terminator(end, Terminator::Goto { target: cond_entry });
        }
        self.set_terminator(
            cond_header,
            Terminator::Branch { cond: cond_val, then_bb: body_block, else_bb: exit_block },
        );
        self.register_loop(
            cond_entry,
            LoopInfo { body: body_block, exit: exit_block, backedge: body_end },
        );
        (Some(exit_block), None)
    }

    /// Lowers an `if` in statement position.
    ///
    /// Returns the block in which the branches meet, and the value if the `if` has one.
    pub fn lower_if_expr(
        &mut self,
        block: BasicBlockId,
        if_expr: ExprId,
        cond: ExprId,
        then_expr: ExprId,
        else_expr: Option<ExprId>,
    ) -> (lowered: (Option<BasicBlockId>, Option<ValueId>))
        requires
            old(self).wf(),
            old(self).input.has_expr(if_expr),
            rules::if_top(cond, then_expr, else_expr) <= old(self).input.body.exprs@.len(),
            old(self).has_block(block),
            rules::lower_if(
                *old(self).input,
                old(self)@,
                block,
                if_expr,
                cond,
                then_expr,
                else_expr,
            ) is Some,
        ensures
            final(self).input == old(self).input,
            rules::lower_if(
                *old(self).input,
                old(self)@,
                block,
                if_expr,
                cond,
                then_expr,
                else_expr,
            ) == Some((LoweredStmt { state: final(self)@, next: lowered.0, value: lowered.1 })),
            final(self)@.blocks.len() >= old(self)@.blocks.len(),
            lowered.0 matches Some(next) ==> final(self).has_block(next),
        decreases rules::if_top(cond, then_expr, else_expr), 1nat, 0nat,
    {
        proof {
            reveal(rules::open_if);
        }
        let ty = self.input.typed_body.expr_ty(if_expr);
        if !self.is_unit_ty(ty) {
            let value = self.ensure_value(if_expr);
            return (Some(block), Some(value));
        }
        let (cond_next, cond_val) = self.lower_expr_in(block, cond);
        let cond_block = match cond_next {
            Some(block) => block,
            None => {
                return (None, None);
            },
        };
        let then_block = self.alloc_block();
        let merge_block = self.alloc_block();
        let else_block = if else_expr.is_some() {
            self.alloc_block()
        } else {
            merge_block
        };
        self.set_terminator(
            cond_block,
            Terminator::Branch { cond: cond_val, then_bb: then_block, else_bb: else_block },
        );
        let (then_end, _) = self.lower_expr_in(then_block, then_expr);
        if let Some(end) = then_end {
            self.set_terminator(end, Terminator::Goto { target: merge_block });
        }
        if let Some(else_expr) = else_expr {
            let (else_end, _) = self.lower_expr_in(else_block, else_expr);
            if let Some(end) = else_end {
                self.set_terminator(end, Terminator::Goto { target: merge_block });
            }
        }
        (Some(merge_block), None)
    }

    /// Returns whether the given type is the unit tuple type.
    pub fn is_unit_ty(&self, ty: TyId) -> (is_unit: bool)
        requires
            self.input.typed_body.has_ty(ty),
        ensures
            is_unit == self.input.typed_body.is_unit(ty),
    {
        self.input.typed_body.is_tuple(ty) && self.input.typed_body.field_count(ty) == 0
    }

    /// Settles that an assigned variable lives where the assigned value lives.
    fn assign_space(&mut self, target: ExprId, value: ValueId)
        requires
            old(self).wf(),
            old(self).input.has_expr(target),
        ensures
            final(self).input == old(self).input,
            final(self)@.blocks == old(self)@.blocks,
            final(self)@ == rules::assign_space(*old(self).input, old(self)@, target, value),
    {
        proof {
            reveal(rules::assign_space);
        }
        let binding = self.input.typed_body.exprs[target.0].binding;
        if let Some(LocalBinding::Local { pat, .. }) = binding {
            let space = self.value_address_space(value);
            self.set_pat_address_space(pat, space);
        }
    }

    /// Lowers an expression in statement position, with the instructions that its effects need.
    ///
    /// Returns the block in which control continues and the value, if there is one.
    pub fn lower_expr_stmt(
        &mut self,
        block: BasicBlockId,
        stmt_id: StmtId,
        expr: ExprId,
    ) -> (lowered: (Option<BasicBlockId>, Option<ValueId>))
        requires
            old(self).wf(),
            old(self).input.has_expr(expr),
            old(self).has_block(block),
            rules::lower_expr_stmt(*old(self).input, old(self)@, block, stmt_id, expr) is Some,
        ensures
            final(self).input == old(self).input,
            rules::lower_expr_stmt(*old(self).input, old(self)@, block, stmt_id, expr) == Some(
                (LoweredStmt { state: final(self)@, next: lowered.0, value: lowered.1 }),
            ),
            final(self)@.blocks.len() >= old(self)@.blocks.len(),
            lowered.0 matches Some(next) ==> final(self).has_block(next),
        decreases expr.0 as nat, 5nat, 0nat,
    {
        let input = self.input;
        if let Some((next_block, value)) = self.try_lower_intrinsic_stmt(block, expr) {
            return (next_block, Some(value));
        }
        let data = match &input.body.exprs[expr.0] {
            Partial::Present(data) => data,
            Partial::Absent => {
                return (Some(block), None);
            },
        };
        match data {
            Expr::Assign(target, value) => {
                let (next_block, value_id) = self.lower_expr_in(block, *value);
                if let Some(next) = next_block {
                    self.assign_space(*target, value_id);
                    if let Some(after) = self.try_lower_field_assign(
                        next,
                        expr,
                        *target,
                        value_id,
                    ) {
                        return (Some(after), None);
                    }
                    self.push_inst(
                        next,
                        MirInst::Assign { stmt: stmt_id, target: *target, value: value_id },
                    );
                }
                (next_block, None)
            },
            Expr::If(cond, then_expr, else_expr) => {
                let (next_block, value_id) = self.lower_if_expr(
                    block,
                    expr,
                    *cond,
                    *then_expr,
                    *else_expr,
                );
                if let (Some(next), Some(value)) = (next_block, value_id) {
                    self.push_inst(next, MirInst::Eval { stmt: stmt_id, value });
                }
                (next_block, value_id)
            },
            Expr::AugAssign(target, value, op) => {
                let (next_block, value_id) = self.lower_expr_in(block, *value);
                if let Some(next) = next_block {
                    self.assign_space(*target, value_id);
                    self.push_inst(
                        next,
                        MirInst::AugAssign {
                            stmt: stmt_id,
                            target: *target,
                            value: value_id,
                            op: *op,
                        },
                    );
                }
                (next_block, None)
            },
            _ => {
                let (next_block, value, push_eval) = self.lower_expr_core(block, expr);
                if push_eval {
                    if let Some(next) = next_block {
                        self.push_inst(next, MirInst::Eval { stmt: stmt_id, value });
                    }
                }
                (next_block, Some(value))
            },
        }
    }

    /// Lowers a `for` loop by desugaring it into a while loop.
    ///
    /// `for i in start..end { body }` is lowered like
    /// `let mut i = start; while i < end { body; i += 1 }`. A literal `n` stands for `0..n`, and
    /// a loop over an array counts from zero up to the number of elements, and a round works on
    /// the element at the index reached.
    ///
    /// Returns the exit block of the loop; there is no value.
    pub fn lower_for(
        &mut self,
        block: BasicBlockId,
        stmt_id: StmtId,
        pat: PatId,
        iter_expr: ExprId,
        body_expr: ExprId,
    ) -> (lowered: (Option<BasicBlockId>, Option<ValueId>))
        requires
            old(self).wf(),
            old(self).input.has_expr(iter_expr),
            old(self).input.has_expr(body_expr),
            old(self).has_block(block),
            rules::lower_for(
                *old(self).input,
                old(self)@,
                block,
                stmt_id,
                pat,
                iter_expr,
                body_expr,
            ) is Some,
        ensures
            final(self).input == old(self).input,
            rules::lower_for(
                *old(self).input,
                old(self)@,
                block,
                stmt_id,
                pat,
                iter_expr,
                body_expr,
            ) == Some((LoweredStmt { state: final(self)@, next: lowered.0, value: lowered.1 })),
            final(self)@.blocks.len() >= old(self)@.blocks.len(),
            lowered.0 matches Some(next) ==> final(self).has_block(next),
        decreases rules::pair_top(iter_expr, body_expr), 1nat, 0nat,
    {
        let input = self.input;
        let mut over_array = false;
        let mut end_expr: Option<ExprId> = None;
        let mut end_word = Word::from_u64(0);
        let mut start_expr: Option<ExprId> = None;
        match &input.body.exprs[iter_expr.0] {
            Partial::Present(Expr::Bin(start, end, _)) => {
                start_expr = Some(*start);
                match &input.body.exprs[end.0] {
                    Partial::Present(Expr::Lit(LitKind::Int(word))) => {
                        end_word = *word;
                    },
                    _ => {
                        end_expr = Some(*end);
                    },
                }
            },
            Partial::Present(Expr::Lit(LitKind::Int(word))) => {
                end_word = *word;
            },
            _ => {
                over_array = true;
                end_word = input.typed_body.array_length(input.typed_body.expr_ty(iter_expr));
            },
        }
        let (start_block, start_val) = match start_expr {
            Some(start) => match self.lower_expr_in(block, start) {
                (Some(next), value) => (next, value),
                (None, _) => {
                    return (None, None);
                },
            },
            None => (block, self.synthetic_u256(Word::from_u64(0))),
        };
        let end_val = if end_expr.is_none() {
            Some(self.synthetic_u256(end_word))
        } else {
            None
        };
        let blocks = self.open_loop(start_block, start_val, stmt_id, pat, over_array);
        let (header, end_val) = match end_expr {
            Some(end) => match self.lower_expr_in(blocks.cond_entry, end) {
                (Some(header), value) => (header, value),
                (None, _) => {
                    return (None, None);
                },
            },
            None => (blocks.cond_entry, end_val.unwrap()),
        };
        let test = self.test_variable(blocks, pat, iter_expr, end_val, over_array);
        self.push_loop(
            LoopScope {
                continue_target: blocks.cond_entry,
                break_target: blocks.exit_block,
            },
        );
        proof {
            growth::lemma_lower_expr(*input, self@, blocks.body_block, body_expr);
        }
        let (body_end, _) = self.lower_expr_in(blocks.body_block, body_expr);
        if let Some(end) = body_end {
            self.step_variable(end, stmt_id, pat);
            self.set_terminator(end, Terminator::Goto { target: blocks.cond_entry });
        }
        self.pop_loop();
        self.set_terminator(
            header,
            Terminator::Branch {
                cond: test,
                then_bb: blocks.body_entry,
                else_bb: blocks.exit_block,
            },
        );
        self.register_loop(
            blocks.cond_entry,
            LoopInfo { body: blocks.body_entry, exit: blocks.exit_block, backedge: body_end },
        );
        (Some(blocks.exit_block), None)
    }

    /// Declares the variable of a `for` loop and makes the blocks of the loop.
    fn open_loop(
        &mut self,
        block: BasicBlockId,
        start: ValueId,
        stmt: StmtId,
        pat: PatId,
        over_array: bool,
    ) -> (blocks: LoopBlocks)
        requires
            old(self).wf(),
            old(self).has_block(block),
        ensures
            final(self).input == old(self).input,
            (final(self)@, blocks) == rules::open_loop(
                *old(self).input,
                old(self)@,
                block,
                start,
                stmt,
                pat,
                over_array,
            ),
            final(self)@.blocks.len() >= old(self)@.blocks.len(),
            final(self).has_block(blocks.cond_entry),
            final(self).has_block(blocks.body_block),
            final(self).has_block(blocks.body_entry),
            final(self).has_block(blocks.exit_block),
    {
        proof {
            reveal(rules::open_loop);
        }
        let space = self.value_address_space(start);
        self.set_pat_address_space(pat, space);
        self.push_inst(block, MirInst::Let { stmt, pat, ty: None, value: Some(start) });
        let cond_entry = self.alloc_block();
        let body_block = self.alloc_block();
        let body_entry = if over_array {
            self.alloc_block()
        } else {
            body_block
        };
        let exit_block = self.alloc_block();
        self.set_terminator(block, Terminator::Goto { target: cond_entry });
        LoopBlocks { cond_entry, body_block, body_entry, exit_block }
    }

    /// Adds the test of a `for` loop.
    fn test_variable(
        &mut self,
        blocks: LoopBlocks,
        pat: PatId,
        iter: ExprId,
        end: ValueId,
        over_array: bool,
    ) -> (test: ValueId)
        requires
            old(self).wf(),
            old(self).input.has_expr(iter),
            old(self).has_block(blocks.body_entry),
            over_array ==> old(self).input.typed_body.is_array(
                old(self).input.typed_body.ty_of(iter),
            ),
        ensures
            final(self).input == old(self).input,
            final(self)@.blocks.len() == old(self)@.blocks.len(),
            (final(self)@, test) == rules::test_variable(
                *old(self).input,
                old(self)@,
                blocks,
                pat,
                iter,
                end,
                over_array,
            ),
    {
        proof {
            reveal(rules::test_variable);
        }
        let input = self.input;
        let first_use = input.typed_body.pat_first_use(pat);
        proof {
            growth::lemma_first_use_known(*input, pat);
        }
        let variable = match first_use {
            Some(expr) => self.ensure_value(expr),
            None => {
                let data = ValueData {
                    ty: input.typed_body.pat_ty(pat),
                    origin: ValueOrigin::Synthetic(SyntheticValue::Variable(pat)),
                };
                self.alloc_value(data)
            },
        };
        if over_array {
            let element = self.array_element(pat, iter, variable);
            match first_use {
                Some(expr) => {
                    self.push_inst(
                        blocks.body_entry,
                        MirInst::EvalExpr { expr, value: element, bind_value: true },
                    );
                    self.set_expr_value(expr, element);
                },
                None => {
                    self.push_inst(
                        blocks.body_entry,
                        MirInst::EvalExpr { expr: iter, value: element, bind_value: true },
                    );
                },
            }
            self.set_terminator(
                blocks.body_entry,
                Terminator::Goto { target: blocks.body_block },
            );
        }
        let data = ValueData {
            ty: input.typed_body.bool_ty,
            origin: ValueOrigin::Synthetic(
                SyntheticValue::Comparison { left: variable, right: end, op: CompBinOp::Lt },
            ),
        };
        self.alloc_value(data)
    }

    /// Returns the element that one round of a loop over an array works on.
    fn array_element(&mut self, pat: PatId, iter: ExprId, index: ValueId) -> (element: ValueId)
        requires
            old(self).wf(),
            old(self).input.has_expr(iter),
            old(self).input.typed_body.is_array(old(self).input.typed_body.ty_of(iter)),
        ensures
            final(self).input == old(self).input,
            final(self)@.blocks == old(self)@.blocks,
            (final(self)@, element) == rules::array_element(
                *old(self).input,
                old(self)@,
                pat,
                iter,
                index,
            ),
    {
        let input = self.input;
        let array = self.ensure_value(iter);
        let array_ty = input.typed_body.expr_ty(iter);
        let element_ty = input.typed_body.types[array_ty.0].args[0];
        match self.find_indexing(iter, pat) {
            Some(expr) => self.ensure_value(expr),
            None => {
                let data = ValueData { ty: element_ty, origin: ValueOrigin::Expr(iter) };
                let element = self.alloc_value(data);
                self.set_element(element, array, index);
                element
            },
        }
    }

    /// Returns the first expression of the body that indexes into `array` with the variable of a
    /// pattern.
    fn find_indexing(&self, array: ExprId, pat: PatId) -> (expr: Option<ExprId>)
        requires
            self.wf(),
        ensures
            expr == rules::first_indexing(*self.input, array, pat, 0),
            expr matches Some(expr) ==> self.input.has_expr(expr),
    {
        let exprs = &self.input.body.exprs;
        let mut i: usize = 0;
        while i < exprs.len()
            invariant
                i <= exprs@.len(),
                self.wf(),
                exprs@ == self.input.body.exprs@,
                rules::first_indexing(*self.input, array, pat, 0) == rules::first_indexing(
                    *self.input,
                    array,
                    pat,
                    i as nat,
                ),
            decreases exprs@.len() - i,
        {
            let found = match &exprs[i] {
                Partial::Present(Expr::Bin(lhs, rhs, op)) => {
                    assert(self.input.body.expr_before(
                        self.input.body.exprs@[i as int],
                        i as nat,
                    ));
                    *op == BinOp::Index && *lhs == array && self.refers_to(*rhs, pat)
                },
                _ => false,
            };
            if found {
                return Some(ExprId(i));
            }
            i += 1;
        }
        None
    }

    /// Returns whether an expression refers to the variable of a pattern.
    fn refers_to(&self, expr: ExprId, pat: PatId) -> (refers: bool)
        requires
            self.wf(),
            self.input.has_expr(expr),
        ensures
            refers == rules::refers_to(*self.input, expr, pat),
    {
        let typed_body = &self.input.typed_body;
        match (typed_body.pat_binding(pat), typed_body.exprs[expr.0].binding) {
            (Some(binding), Some(own)) => own == binding,
            _ => false,
        }
    }

    /// Lets the variable of a `for` loop grow by one.
    fn step_variable(
        &mut self,
        block: BasicBlockId,
        stmt: StmtId,
        pat: PatId,
    )
        requires
            old(self).wf(),
            old(self).has_block(block),
        ensures
            final(self).input == old(self).input,
            final(self)@.blocks.len() == old(self)@.blocks.len(),
            final(self)@.loop_stack == old(self)@.loop_stack,
            final(self)@ == rules::step_variable(
                *old(self).input,
                old(self)@,
                block,
                stmt,
                pat,
            ),
    {
        proof {
            reveal(rules::step_variable);
        }
        let input = self.input;
        proof {
            growth::lemma_first_use_known(*input, pat);
        }
        let value = self.synthetic_u256(Word::from_u64(1));
        match input.typed_body.pat_first_use(pat) {
            Some(target) if matches!(
                &input.body.exprs[target.0],
                Partial::Present(Expr::Path(_))
            ) => {
                self.push_inst(
                    block,
                    MirInst::AugAssign { stmt, target, value, op: ArithBinOp::Add },
                );
            },
            _ => {
                self.push_inst(
                    block,
                    MirInst::AugAssignVariable { stmt, pat, value, op: ArithBinOp::Add },
                );
            },
        }
    }
}

} // verus!
