use fe_compiler::hir::body::{
    ArithBinOp, BinOp, Body, CompBinOp, Expr, FieldIndex, FieldInit, LitKind, MatchArm, Partial,
    Stmt, UnOp, Word,
};
use fe_compiler::hir::ids::{ExprId, IdentId, PatId, PathId, StmtId};
use fe_compiler::hir::typed::{
    AdtRef, CallableDef, CallableId, CodeRegionId, ExprInfo, FieldSlot, LocalBinding,
    MatchArmPattern, PatInfo, PrimTy, References, TyBase, TyData, TyId, TypedBody, VariantId,
    VariantLayout,
};
use fe_compiler::mir::builder::MirBuilder;
use fe_compiler::mir::input::{CheckedBody, CoreLib};
use fe_compiler::mir::ir::{
    AddressSpaceKind, BasicBlockId, Callable, CoreHelper, FieldPtrOrigin, IntrinsicOp,
    IntrinsicValue, LoopInfo, MirInst, SwitchTarget, SyntheticValue, Terminator, ValueId,
    ValueOrigin,
};

const UNIT: TyId = TyId(0);
const BOOL: TyId = TyId(1);
const U256: TyId = TyId(2);
const INNER: TyId = TyId(3);
const OUTER: TyId = TyId(4);
const ARRAY: TyId = TyId(5);
const MEM_PTR: TyId = TyId(6);
const STOR_PTR: TyId = TyId(7);
const PAIR: TyId = TyId(8);
const EXTRA: TyId = TyId(9);

const A: IdentId = IdentId(1);
const X: IdentId = IdentId(2);
const INNER_FIELD: IdentId = IdentId(3);
const TAIL: IdentId = IdentId(4);

fn ty(base: TyBase, args: Vec<TyId>, fields: Vec<FieldSlot>, size_bytes: u64) -> TyData {
    TyData { base, args, fields, length: None, size_bytes }
}

fn array_ty(length: u64) -> TyData {
    TyData {
        base: TyBase::Prim(PrimTy::Array),
        args: vec![U256],
        fields: vec![],
        length: Some(word(length)),
        size_bytes: 32 * length,
    }
}

fn slot(name: IdentId, ty: TyId, offset_bytes: u64) -> FieldSlot {
    FieldSlot { name: Some(name), ty, offset_bytes }
}

fn word(n: u64) -> Word {
    Word::from_u64(n)
}

struct Make {
    exprs: Vec<Partial<Expr>>,
    infos: Vec<ExprInfo>,
    stmts: Vec<Partial<Stmt>>,
    pats: Vec<PatInfo>,
    callables: Vec<CallableDef>,
    intrinsics: Vec<Option<IntrinsicOp>>,
    variants: Vec<VariantLayout>,
    references: Vec<References>,
    more_types: Vec<TyData>,
}

impl Make {
    fn new() -> Make {
        Make {
            exprs: vec![],
            infos: vec![],
            stmts: vec![],
            pats: vec![],
            callables: vec![],
            intrinsics: vec![],
            variants: vec![],
            references: vec![],
            more_types: vec![],
        }
    }

    fn expr(&mut self, expr: Expr, ty: TyId) -> ExprId {
        self.exprs.push(Partial::Present(expr));
        self.infos.push(ExprInfo {
            ty,
            callable: None,
            binding: None,
            variant: None,
            code_region: None,
        });
        ExprId(self.exprs.len() - 1)
    }

    fn absent(&mut self) -> ExprId {
        let id = self.expr(Expr::Path(PathId(0)), UNIT);
        self.exprs[id.0] = Partial::Absent;
        id
    }

    fn number(&mut self, n: u64) -> ExprId {
        self.expr(Expr::Lit(LitKind::Int(word(n))), U256)
    }

    fn flag(&mut self) -> ExprId {
        self.expr(Expr::Lit(LitKind::Bool(true)), BOOL)
    }

    fn path(&mut self, ty: TyId) -> ExprId {
        self.expr(Expr::Path(PathId(7)), ty)
    }

    fn local(&mut self, pat: PatId, ty: TyId) -> ExprId {
        let id = self.path(ty);
        let binding = LocalBinding::Local { pat, is_mut: true };
        self.infos[id.0].binding = Some(binding);
        match self.references.iter_mut().find(|r| r.binding == binding) {
            Some(entry) => entry.exprs.push(id),
            None => self.references.push(References { binding, exprs: vec![id] }),
        }
        id
    }

    fn pat(&mut self, ty: TyId) -> PatId {
        let pat = PatId(self.pats.len());
        self.pats.push(PatInfo {
            ty,
            binding: Some(LocalBinding::Local { pat, is_mut: true }),
            arm: None,
        });
        pat
    }

    fn arm(&mut self, arm: Option<MatchArmPattern>) -> PatId {
        self.pats.push(PatInfo { ty: U256, binding: None, arm });
        PatId(self.pats.len() - 1)
    }

    fn stmt(&mut self, stmt: Stmt) -> StmtId {
        self.stmts.push(Partial::Present(stmt));
        StmtId(self.stmts.len() - 1)
    }

    fn block(&mut self, stmts: Vec<StmtId>) -> ExprId {
        self.expr(Expr::Block(stmts), UNIT)
    }

    fn callable(&mut self, receiver_ty: Option<TyId>, op: Option<IntrinsicOp>) -> CallableId {
        self.callables.push(CallableDef { receiver_ty });
        self.intrinsics.push(op);
        CallableId(self.callables.len() - 1)
    }

    fn call(&mut self, callable: CallableId, args: Vec<ExprId>, ty: TyId) -> ExprId {
        let callee = self.path(UNIT);
        let id = self.expr(Expr::Call(callee, args), ty);
        self.infos[id.0].callable = Some(callable);
        id
    }

    fn check(self) -> Option<CheckedBody> {
        let inner = vec![slot(A, U256, 0), slot(X, U256, 32)];
        let outer = vec![slot(INNER_FIELD, INNER, 0), slot(X, U256, 64), slot(TAIL, INNER, 96)];
        let typed_body = TypedBody {
            types: vec![
                ty(TyBase::Tuple, vec![], vec![], 0),
                ty(TyBase::Prim(PrimTy::Bool), vec![], vec![], 32),
                ty(TyBase::Prim(PrimTy::U256), vec![], vec![], 32),
                ty(TyBase::Adt(AdtRef::Struct(IdentId(90))), vec![], inner, 64),
                ty(TyBase::Adt(AdtRef::Struct(IdentId(91))), vec![], outer, 160),
                array_ty(5),
                ty(TyBase::Adt(AdtRef::Struct(IdentId(92))), vec![], vec![], 32),
                ty(TyBase::Adt(AdtRef::Struct(IdentId(93))), vec![], vec![], 32),
                array_ty(2),
            ]
            .into_iter()
            .chain(self.more_types)
            .collect(),
            unit_ty: UNIT,
            bool_ty: BOOL,
            u256_ty: U256,
            exprs: self.infos,
            pats: self.pats,
            callables: self.callables,
            variants: self.variants,
            references: self.references,
        };
        let core = CoreLib {
            mem_ptr_ty: MEM_PTR,
            stor_ptr_ty: STOR_PTR,
            intrinsics: self.intrinsics,
        };
        CheckedBody::new(Body { exprs: self.exprs, stmts: self.stmts }, typed_body, core)
    }

    fn done(self) -> CheckedBody {
        self.check().expect("the body is well-formed")
    }
}

type Inst = MirInst<Vec<ValueId>>;
type End = Terminator<Vec<SwitchTarget>>;

const ENTRY: BasicBlockId = BasicBlockId(0);

fn start(input: &CheckedBody) -> MirBuilder<'_> {
    let mut builder = MirBuilder::new(input);
    assert_eq!(builder.alloc_block(), ENTRY);
    builder
}

fn insts<'b>(builder: &'b MirBuilder, block: usize) -> &'b Vec<Inst> {
    &builder.mir_body.blocks[block].insts
}

fn end(builder: &MirBuilder, block: usize) -> Option<End> {
    builder.mir_body.blocks[block].terminator.clone()
}

fn goto(target: usize) -> Option<End> {
    Some(Terminator::Goto { target: BasicBlockId(target) })
}

fn origin(builder: &MirBuilder, value: usize) -> ValueOrigin<Vec<ValueId>> {
    builder.mir_body.values[value].origin.clone()
}

fn constant(n: u64) -> ValueOrigin<Vec<ValueId>> {
    ValueOrigin::Synthetic(SyntheticValue::Int(word(n)))
}

fn less(left: usize, right: usize) -> ValueOrigin<Vec<ValueId>> {
    ValueOrigin::Synthetic(SyntheticValue::Comparison {
        left: ValueId(left),
        right: ValueId(right),
        op: CompBinOp::Lt,
    })
}

#[test]
fn let_and_return() {
    let mut m = Make::new();
    let pat = m.pat(U256);
    let one = m.number(1);
    let declared = m.stmt(Stmt::Let(pat, None, Some(one)));
    let x = m.local(pat, U256);
    let returned = m.stmt(Stmt::Return(Some(x)));
    let root = m.block(vec![declared, returned]);
    let input = m.done();
    let mut b = start(&input);
    assert_eq!(b.lower_root(ENTRY, root), None);
    assert_eq!(
        insts(&b, 0),
        &vec![MirInst::Let { stmt: declared, pat, ty: None, value: Some(ValueId(0)) }]
    );
    assert_eq!(end(&b, 0), Some(Terminator::Return(Some(ValueId(1)))));
    assert_eq!(origin(&b, 0), ValueOrigin::Expr(one));
    assert_eq!(origin(&b, 1), ValueOrigin::Expr(x));
    assert_eq!(b.mir_body.blocks.len(), 1);
}

#[test]
fn statements_after_return_are_not_lowered() {
    let mut m = Make::new();
    let pat = m.pat(U256);
    let returned = m.stmt(Stmt::Return(None));
    let declared = m.stmt(Stmt::Let(pat, None, None));
    let broken = m.stmt(Stmt::Break);
    let root = m.block(vec![returned, declared, broken]);
    let input = m.done();
    let mut b = start(&input);
    assert_eq!(b.lower_root(ENTRY, root), None);
    assert!(insts(&b, 0).is_empty());
    assert_eq!(end(&b, 0), Some(Terminator::Return(None)));
}

#[test]
fn let_without_value() {
    let mut m = Make::new();
    let pat = m.pat(U256);
    let declared = m.stmt(Stmt::Let(pat, None, None));
    let root = m.block(vec![declared]);
    let input = m.done();
    let mut b = start(&input);
    assert_eq!(b.lower_root(ENTRY, root), Some(ENTRY));
    assert_eq!(
        insts(&b, 0),
        &vec![MirInst::Let { stmt: declared, pat, ty: None, value: None }]
    );
    assert_eq!(end(&b, 0), None);
}

#[test]
fn root_that_is_no_block_has_a_value() {
    let mut m = Make::new();
    let root = m.number(5);
    let input = m.done();
    let mut b = start(&input);
    assert_eq!(b.lower_root(ENTRY, root), Some(ENTRY));
    assert_eq!(b.mir_body.expr_values.get(&root.0), Some(&ValueId(0)));
    assert!(insts(&b, 0).is_empty());
}

#[test]
fn missing_statements_and_expressions_are_skipped() {
    let mut m = Make::new();
    let gone = m.absent();
    let stmt = m.stmt(Stmt::Expr(gone));
    let missing = StmtId(m.stmts.len());
    m.stmts.push(Partial::Absent);
    let root = m.block(vec![missing, stmt]);
    let input = m.done();
    let mut b = start(&input);
    assert_eq!(b.lower_root(ENTRY, root), Some(ENTRY));
    assert!(insts(&b, 0).is_empty());
    assert!(b.mir_body.values.is_empty());
    let (next, value) = b.lower_stmt(ENTRY, stmt);
    assert_eq!((next, value), (Some(ENTRY), None));
}

#[test]
fn a_value_is_made_once() {
    let mut m = Make::new();
    let one = m.number(1);
    let input = m.done();
    let mut b = start(&input);
    let first = b.ensure_value(one);
    let second = b.ensure_value(one);
    assert_eq!(first, second);
    assert_eq!(b.mir_body.values.len(), 1);
}

#[test]
fn while_loop() {
    let mut m = Make::new();
    let cond = m.flag();
    let value = m.number(3);
    let stmt = m.stmt(Stmt::Expr(value));
    let body = m.block(vec![stmt]);
    let input_stmt = m.stmt(Stmt::While(cond, body));
    let root = m.block(vec![input_stmt]);
    let input = m.done();
    let mut b = start(&input);
    assert_eq!(b.lower_root(ENTRY, root), Some(BasicBlockId(3)));
    assert_eq!(end(&b, 0), goto(1));
    assert_eq!(
        end(&b, 1),
        Some(Terminator::Branch {
            cond: ValueId(0),
            then_bb: BasicBlockId(2),
            else_bb: BasicBlockId(3),
        })
    );
    assert_eq!(end(&b, 2), goto(1));
    assert_eq!(end(&b, 3), None);
    assert_eq!(insts(&b, 2), &vec![MirInst::Eval { stmt, value: ValueId(1) }]);
    assert_eq!(
        b.mir_body.loop_headers.get(&1),
        Some(&LoopInfo {
            body: BasicBlockId(2),
            exit: BasicBlockId(3),
            backedge: Some(BasicBlockId(2)),
        })
    );
    assert!(b.loop_stack.is_empty());
}

#[test]
fn break_and_continue_lead_out_of_the_innermost_loop() {
    let mut m = Make::new();
    let outer_cond = m.flag();
    let inner_cond = m.flag();
    let flag = m.flag();
    let brk = m.stmt(Stmt::Break);
    let then_block = m.block(vec![brk]);
    let cont = m.stmt(Stmt::Continue);
    let else_block = m.block(vec![cont]);
    let choice = m.expr(Expr::If(flag, then_block, Some(else_block)), UNIT);
    let choice_stmt = m.stmt(Stmt::Expr(choice));
    let inner_body = m.block(vec![choice_stmt]);
    let inner = m.stmt(Stmt::While(inner_cond, inner_body));
    let out = m.stmt(Stmt::Break);
    let outer_body = m.block(vec![inner, out]);
    let outer = m.stmt(Stmt::While(outer_cond, outer_body));
    let root = m.block(vec![outer]);
    let input = m.done();
    let mut b = start(&input);
    // Outer loop: test 1, body 2, exit 3. Inner loop: test 4, body 5, exit 6.
    // Choice: then 7, meeting point 8, else 9.
    assert_eq!(b.lower_root(ENTRY, root), Some(BasicBlockId(3)));
    assert_eq!(end(&b, 2), goto(4));
    assert_eq!(end(&b, 7), goto(6));
    assert_eq!(end(&b, 9), goto(4));
    assert_eq!(end(&b, 8), goto(4));
    assert_eq!(end(&b, 6), goto(3));
    assert_eq!(
        b.mir_body.loop_headers.get(&1),
        Some(&LoopInfo { body: BasicBlockId(2), exit: BasicBlockId(3), backedge: None })
    );
    assert_eq!(
        b.mir_body.loop_headers.get(&4),
        Some(&LoopInfo {
            body: BasicBlockId(5),
            exit: BasicBlockId(6),
            backedge: Some(BasicBlockId(8)),
        })
    );
    assert!(b.loop_stack.is_empty());
}

#[test]
fn while_loop_whose_condition_returns() {
    let mut m = Make::new();
    let returned = m.stmt(Stmt::Return(None));
    let cond = m.block(vec![returned]);
    let body = m.block(vec![]);
    let stmt = m.stmt(Stmt::While(cond, body));
    let root = m.block(vec![stmt]);
    let input = m.done();
    let mut b = start(&input);
    assert_eq!(b.lower_root(ENTRY, root), None);
    assert_eq!(end(&b, 1), Some(Terminator::Return(None)));
    assert!(b.mir_body.loop_headers.is_empty());
}

#[test]
fn for_loop_over_a_range() {
    let mut m = Make::new();
    let pat = m.pat(U256);
    let four = m.number(4);
    let ten = m.number(10);
    let range = m.expr(Expr::Bin(four, ten, BinOp::Index), U256);
    let i = m.local(pat, U256);
    let used = m.stmt(Stmt::Expr(i));
    let body = m.block(vec![used]);
    let stmt = m.stmt(Stmt::For(pat, range, body));
    let root = m.block(vec![stmt]);
    let input = m.done();
    let mut b = start(&input);
    assert_eq!(b.lower_root(ENTRY, root), Some(BasicBlockId(3)));
    // Values: 0 is `4`, 1 the constant 10, 2 is `i`, 3 the comparison, 5 the constant 1.
    assert_eq!(
        insts(&b, 0),
        &vec![MirInst::Let { stmt, pat, ty: None, value: Some(ValueId(0)) }]
    );
    assert_eq!(end(&b, 0), goto(1));
    assert_eq!(origin(&b, 0), ValueOrigin::Expr(four));
    assert_eq!(origin(&b, 1), constant(10));
    assert_eq!(origin(&b, 2), ValueOrigin::Expr(i));
    assert_eq!(origin(&b, 3), less(2, 1));
    assert_eq!(b.mir_body.values[3].ty, BOOL);
    assert_eq!(
        end(&b, 1),
        Some(Terminator::Branch {
            cond: ValueId(3),
            then_bb: BasicBlockId(2),
            else_bb: BasicBlockId(3),
        })
    );
    let one = b.mir_body.values.len() - 1;
    assert_eq!(origin(&b, one), constant(1));
    assert_eq!(
        insts(&b, 2),
        &vec![
            MirInst::Eval { stmt: used, value: ValueId(2) },
            MirInst::AugAssign { stmt, target: i, value: ValueId(one), op: ArithBinOp::Add },
        ]
    );
    assert_eq!(end(&b, 2), goto(1));
    assert_eq!(
        b.mir_body.loop_headers.get(&1),
        Some(&LoopInfo {
            body: BasicBlockId(2),
            exit: BasicBlockId(3),
            backedge: Some(BasicBlockId(2)),
        })
    );
}

#[test]
fn for_loop_over_a_literal_counts_from_zero() {
    let mut m = Make::new();
    let pat = m.pat(U256);
    let ten = m.number(10);
    let i = m.local(pat, U256);
    let used = m.stmt(Stmt::Expr(i));
    let body = m.block(vec![used]);
    let stmt = m.stmt(Stmt::For(pat, ten, body));
    let root = m.block(vec![stmt]);
    let input = m.done();
    let mut b = start(&input);
    assert_eq!(b.lower_root(ENTRY, root), Some(BasicBlockId(3)));
    assert_eq!(origin(&b, 0), constant(0));
    assert_eq!(origin(&b, 1), constant(10));
    assert_eq!(
        insts(&b, 0),
        &vec![MirInst::Let { stmt, pat, ty: None, value: Some(ValueId(0)) }]
    );
    assert_eq!(origin(&b, 3), less(2, 1));
}

#[test]
fn for_loop_whose_variable_is_not_used_still_counts() {
    let mut m = Make::new();
    let pat = m.pat(U256);
    let two = m.number(2);
    let body = m.block(vec![]);
    let stmt = m.stmt(Stmt::For(pat, two, body));
    let root = m.block(vec![stmt]);
    let input = m.done();
    let mut b = start(&input);
    assert_eq!(b.lower_root(ENTRY, root), Some(BasicBlockId(3)));
    assert_eq!(origin(&b, 2), ValueOrigin::Synthetic(SyntheticValue::Variable(pat)));
    assert_eq!(b.mir_body.values[2].ty, U256);
    assert_eq!(origin(&b, 3), less(2, 1));
    let one = b.mir_body.values.len() - 1;
    assert_eq!(origin(&b, one), constant(1));
    assert_eq!(
        insts(&b, 2),
        &vec![MirInst::AugAssignVariable {
            stmt,
            pat,
            value: ValueId(one),
            op: ArithBinOp::Add,
        }]
    );
}

#[test]
fn the_end_of_a_range_is_computed_in_the_test() {
    let mut m = Make::new();
    let pat = m.pat(U256);
    let store = m.callable(None, Some(IntrinsicOp::Mstore));
    let zero = m.number(0);
    let seven = m.number(7);
    let write = m.call(store, vec![zero, seven], UNIT);
    let write_stmt = m.stmt(Stmt::Expr(write));
    let bound = m.block(vec![write_stmt]);
    let one = m.number(1);
    let range = m.expr(Expr::Bin(one, bound, BinOp::Index), U256);
    let body = m.block(vec![]);
    let stmt = m.stmt(Stmt::For(pat, range, body));
    let root = m.block(vec![stmt]);
    let input = m.done();
    let mut b = start(&input);
    assert_eq!(b.lower_root(ENTRY, root), Some(BasicBlockId(3)));
    assert_eq!(insts(&b, 0).len(), 1);
    assert_eq!(insts(&b, 1).len(), 1);
    assert!(matches!(
        insts(&b, 1)[0],
        MirInst::IntrinsicStmt { op: IntrinsicOp::Mstore, .. }
    ));
    let bound_value = b.mir_body.expr_values[&bound.0];
    let test = match end(&b, 1) {
        Some(Terminator::Branch { cond, .. }) => cond,
        _ => panic!("the test does not branch"),
    };
    match origin(&b, test.0) {
        ValueOrigin::Synthetic(SyntheticValue::Comparison { right, .. }) => {
            assert_eq!(right, bound_value)
        }
        _ => panic!("the test does not compare"),
    }
}

#[test]
fn for_loop_whose_start_returns() {
    let mut m = Make::new();
    let pat = m.pat(U256);
    let returned = m.stmt(Stmt::Return(None));
    let from = m.block(vec![returned]);
    let ten = m.number(10);
    let range = m.expr(Expr::Bin(from, ten, BinOp::Index), U256);
    let body = m.block(vec![]);
    let stmt = m.stmt(Stmt::For(pat, range, body));
    let root = m.block(vec![stmt]);
    let input = m.done();
    let mut b = start(&input);
    assert_eq!(b.lower_root(ENTRY, root), None);
    assert_eq!(b.mir_body.blocks.len(), 1);
    assert_eq!(end(&b, 0), Some(Terminator::Return(None)));
}

#[test]
fn for_loop_whose_end_returns() {
    let mut m = Make::new();
    let pat = m.pat(U256);
    let returned = m.stmt(Stmt::Return(None));
    let to = m.block(vec![returned]);
    let one = m.number(1);
    let range = m.expr(Expr::Bin(one, to, BinOp::Index), U256);
    let body = m.block(vec![]);
    let stmt = m.stmt(Stmt::For(pat, range, body));
    let root = m.block(vec![stmt]);
    let input = m.done();
    let mut b = start(&input);
    assert_eq!(b.lower_root(ENTRY, root), None);
    assert_eq!(end(&b, 0), goto(1));
    assert_eq!(end(&b, 1), Some(Terminator::Return(None)));
}

#[test]
fn for_loop_over_an_array() {
    let mut m = Make::new();
    let pat = m.pat(U256);
    let array = m.path(ARRAY);
    let x = m.local(pat, U256);
    let used = m.stmt(Stmt::Expr(x));
    let body = m.block(vec![used]);
    let stmt = m.stmt(Stmt::For(pat, array, body));
    let root = m.block(vec![stmt]);
    let input = m.done();
    let mut b = start(&input);
    // Blocks: test 1, body 2, entry of a round 3, exit 4.
    assert_eq!(b.lower_root(ENTRY, root), Some(BasicBlockId(4)));
    // Values: 0 the constant 0, 1 the constant 5, 2 the index, 3 the array, 4 the element.
    assert_eq!(
        insts(&b, 0),
        &vec![MirInst::Let { stmt, pat, ty: None, value: Some(ValueId(0)) }]
    );
    assert_eq!(origin(&b, 0), constant(0));
    assert_eq!(origin(&b, 1), constant(5));
    assert_eq!(origin(&b, 2), ValueOrigin::Expr(x));
    assert_eq!(origin(&b, 3), ValueOrigin::Expr(array));
    assert_eq!(origin(&b, 4), ValueOrigin::Expr(array));
    assert_eq!(b.mir_body.values[4].ty, U256);
    assert_eq!(origin(&b, 5), less(2, 1));
    assert_eq!(
        b.mir_body.array_index_info.get(&4),
        Some(&(ValueId(3), ValueId(2)))
    );
    assert_eq!(
        insts(&b, 3),
        &vec![MirInst::EvalExpr { expr: x, value: ValueId(4), bind_value: true }]
    );
    assert_eq!(end(&b, 3), goto(2));
    assert_eq!(
        end(&b, 1),
        Some(Terminator::Branch {
            cond: ValueId(5),
            then_bb: BasicBlockId(3),
            else_bb: BasicBlockId(4),
        })
    );
    assert_eq!(insts(&b, 2)[0], MirInst::Eval { stmt: used, value: ValueId(4) });
    let one = b.mir_body.values.len() - 1;
    assert_eq!(origin(&b, one), constant(1));
    assert_eq!(
        insts(&b, 2)[1],
        MirInst::AugAssign { stmt, target: x, value: ValueId(one), op: ArithBinOp::Add }
    );
    assert_eq!(end(&b, 2), goto(1));
    assert_eq!(
        b.mir_body.loop_headers.get(&1),
        Some(&LoopInfo {
            body: BasicBlockId(3),
            exit: BasicBlockId(4),
            backedge: Some(BasicBlockId(2)),
        })
    );
}

#[test]
fn for_loops_over_arrays_of_other_lengths() {
    for (ty, length) in [(PAIR, 2), (EXTRA, 0), (TyId(10), 1000)] {
        let mut m = Make::new();
        m.more_types = vec![array_ty(0), array_ty(1000)];
        let pat = m.pat(U256);
        let array = m.expr(Expr::Array(vec![]), ty);
        let x = m.local(pat, U256);
        let used = m.stmt(Stmt::Expr(x));
        let body = m.block(vec![used]);
        let stmt = m.stmt(Stmt::For(pat, array, body));
        let root = m.block(vec![stmt]);
        let input = m.done();
        let mut b = start(&input);
        assert_eq!(b.lower_root(ENTRY, root), Some(BasicBlockId(4)));
        assert_eq!(origin(&b, 0), constant(0));
        assert_eq!(origin(&b, 1), constant(length));
        assert_eq!(origin(&b, 5), less(2, 1));
    }
}

#[test]
fn for_loop_over_an_array_whose_variable_is_not_used_still_counts() {
    let mut m = Make::new();
    let pat = m.pat(U256);
    let array = m.path(ARRAY);
    let body = m.block(vec![]);
    let stmt = m.stmt(Stmt::For(pat, array, body));
    let root = m.block(vec![stmt]);
    let input = m.done();
    let mut b = start(&input);
    assert_eq!(b.lower_root(ENTRY, root), Some(BasicBlockId(4)));
    // Values: 2 the index, 3 the array, 4 the element, 5 the comparison.
    assert_eq!(origin(&b, 2), ValueOrigin::Synthetic(SyntheticValue::Variable(pat)));
    assert_eq!(origin(&b, 5), less(2, 1));
    assert_eq!(
        insts(&b, 3),
        &vec![MirInst::EvalExpr { expr: array, value: ValueId(4), bind_value: true }]
    );
    assert_eq!(
        b.mir_body.array_index_info.get(&4),
        Some(&(ValueId(3), ValueId(2)))
    );
    let one = b.mir_body.values.len() - 1;
    assert_eq!(origin(&b, one), constant(1));
    assert_eq!(
        insts(&b, 2),
        &vec![MirInst::AugAssignVariable {
            stmt,
            pat,
            value: ValueId(one),
            op: ArithBinOp::Add,
        }]
    );
}

#[test]
fn a_variable_whose_first_use_is_no_path_still_counts() {
    for ty in [ARRAY, U256] {
        let mut m = Make::new();
        let pat = m.pat(U256);
        let iter = if ty == ARRAY { m.path(ARRAY) } else { m.number(10) };
        let x = m.local(pat, U256);
        m.exprs[x.0] = Partial::Present(Expr::Tuple(vec![]));
        let body = m.block(vec![]);
        let stmt = m.stmt(Stmt::For(pat, iter, body));
        let root = m.block(vec![stmt]);
        let input = m.done();
        let mut b = start(&input);
        assert!(b.lower_root(ENTRY, root).is_some());
        let one = b.mir_body.values.len() - 1;
        assert_eq!(
            insts(&b, 2),
            &vec![MirInst::AugAssignVariable {
                stmt,
                pat,
                value: ValueId(one),
                op: ArithBinOp::Add,
            }]
        );
    }
}

#[test]
fn an_array_indexed_with_the_loop_variable_names_the_element() {
    let mut m = Make::new();
    let pat = m.pat(U256);
    let array = m.path(ARRAY);
    let zero = m.number(0);
    let other = m.expr(Expr::Bin(array, zero, BinOp::Index), U256);
    let x = m.local(pat, U256);
    let element = m.expr(Expr::Bin(array, x, BinOp::Index), U256);
    let body = m.block(vec![]);
    let stmt = m.stmt(Stmt::For(pat, array, body));
    let root = m.block(vec![stmt]);
    let input = m.done();
    let mut b = start(&input);
    assert_eq!(b.lower_root(ENTRY, root), Some(BasicBlockId(4)));
    let value = b.mir_body.expr_values[&element.0];
    assert_eq!(origin(&b, value.0), ValueOrigin::Expr(element));
    assert!(b.mir_body.expr_values.get(&other.0).is_none());
    assert_eq!(
        insts(&b, 3),
        &vec![MirInst::EvalExpr { expr: x, value, bind_value: true }]
    );
    assert!(b.mir_body.array_index_info.is_empty());
}

#[test]
fn an_array_indexed_otherwise_does_not_name_the_element() {
    let mut m = Make::new();
    let pat = m.pat(U256);
    let other_pat = m.pat(U256);
    let array = m.path(ARRAY);
    let zero = m.number(0);
    let first = m.expr(Expr::Bin(array, zero, BinOp::Index), U256);
    let y = m.local(other_pat, U256);
    let second = m.expr(Expr::Bin(array, y, BinOp::Index), U256);
    let x = m.local(pat, U256);
    let used = m.stmt(Stmt::Expr(x));
    let body = m.block(vec![used]);
    let stmt = m.stmt(Stmt::For(pat, array, body));
    let root = m.block(vec![stmt]);
    let input = m.done();
    let mut b = start(&input);
    assert_eq!(b.lower_root(ENTRY, root), Some(BasicBlockId(4)));
    assert!(b.mir_body.expr_values.get(&first.0).is_none());
    assert!(b.mir_body.expr_values.get(&second.0).is_none());
    assert_eq!(
        insts(&b, 3),
        &vec![MirInst::EvalExpr { expr: x, value: ValueId(4), bind_value: true }]
    );
    assert_eq!(
        b.mir_body.array_index_info.get(&4),
        Some(&(ValueId(3), ValueId(2)))
    );
}

#[test]
fn array_types_need_a_length_and_an_element_type() {
    let mut m = Make::new();
    m.more_types = vec![ty(TyBase::Prim(PrimTy::Array), vec![U256], vec![], 96)];
    assert!(m.check().is_none());

    let mut m = Make::new();
    m.more_types = vec![TyData { args: vec![], ..array_ty(3) }];
    assert!(m.check().is_none());

    let mut m = Make::new();
    m.more_types = vec![array_ty(3)];
    assert!(m.check().is_some());
}

#[test]
fn if_with_two_branches() {
    let mut m = Make::new();
    let cond = m.flag();
    let then_expr = m.block(vec![]);
    let returned = m.stmt(Stmt::Return(None));
    let else_expr = m.block(vec![returned]);
    let choice = m.expr(Expr::If(cond, then_expr, Some(else_expr)), UNIT);
    let stmt = m.stmt(Stmt::Expr(choice));
    let root = m.block(vec![stmt]);
    let input = m.done();
    let mut b = start(&input);
    assert_eq!(b.lower_root(ENTRY, root), Some(BasicBlockId(2)));
    assert_eq!(
        end(&b, 0),
        Some(Terminator::Branch {
            cond: ValueId(0),
            then_bb: BasicBlockId(1),
            else_bb: BasicBlockId(3),
        })
    );
    assert_eq!(end(&b, 1), goto(2));
    assert_eq!(end(&b, 3), Some(Terminator::Return(None)));
    assert_eq!(end(&b, 2), None);
}

#[test]
fn if_without_else_branches_to_the_meeting_point() {
    let mut m = Make::new();
    let cond = m.flag();
    let then_expr = m.block(vec![]);
    let choice = m.expr(Expr::If(cond, then_expr, None), UNIT);
    let stmt = m.stmt(Stmt::Expr(choice));
    let root = m.block(vec![stmt]);
    let input = m.done();
    let mut b = start(&input);
    assert_eq!(b.lower_root(ENTRY, root), Some(BasicBlockId(2)));
    assert_eq!(
        end(&b, 0),
        Some(Terminator::Branch {
            cond: ValueId(0),
            then_bb: BasicBlockId(1),
            else_bb: BasicBlockId(2),
        })
    );
    assert_eq!(b.mir_body.blocks.len(), 3);
}

#[test]
fn if_with_a_value_stays_an_expression() {
    let mut m = Make::new();
    let cond = m.flag();
    let one = m.number(1);
    let two = m.number(2);
    let choice = m.expr(Expr::If(cond, one, Some(two)), U256);
    let stmt = m.stmt(Stmt::Expr(choice));
    let root = m.block(vec![stmt]);
    let input = m.done();
    let mut b = start(&input);
    assert_eq!(b.lower_root(ENTRY, root), Some(ENTRY));
    assert_eq!(insts(&b, 0), &vec![MirInst::Eval { stmt, value: ValueId(0) }]);
    assert_eq!(origin(&b, 0), ValueOrigin::Expr(choice));
    assert_eq!(b.mir_body.blocks.len(), 1);
}

#[test]
fn if_whose_condition_returns() {
    let mut m = Make::new();
    let returned = m.stmt(Stmt::Return(None));
    let cond = m.block(vec![returned]);
    let then_expr = m.block(vec![]);
    let choice = m.expr(Expr::If(cond, then_expr, None), UNIT);
    let input = m.done();
    let mut b = start(&input);
    assert_eq!(b.lower_if_expr(ENTRY, choice, cond, then_expr, None), (None, None));
    assert_eq!(b.mir_body.blocks.len(), 1);
}

#[test]
fn unit_is_the_empty_tuple() {
    let m = Make::new();
    let input = m.done();
    let b = start(&input);
    assert!(b.is_unit_ty(UNIT));
    assert!(!b.is_unit_ty(U256));
    assert!(!b.is_unit_ty(INNER));
}

#[test]
fn calls_have_their_arguments_as_values() {
    let mut m = Make::new();
    let callable = m.callable(None, None);
    let one = m.number(1);
    let two = m.number(2);
    let call = m.call(callable, vec![one, two], U256);
    let stmt = m.stmt(Stmt::Expr(call));
    let root = m.block(vec![stmt]);
    let input = m.done();
    let mut b = start(&input);
    assert!(!b.is_method_call(call));
    assert_eq!(b.lower_root(ENTRY, root), Some(ENTRY));
    match origin(&b, 2) {
        ValueOrigin::Call(origin) => {
            assert_eq!(origin.expr, call);
            assert_eq!(origin.callable, Callable::Checked(callable));
            assert_eq!(origin.args, vec![ValueId(0), ValueId(1)]);
            assert_eq!(origin.receiver_space, None);
            assert_eq!(origin.resolved_name, None);
        }
        _ => panic!("no call"),
    }
    assert_eq!(insts(&b, 0), &vec![MirInst::Eval { stmt, value: ValueId(2) }]);
}

#[test]
fn a_call_that_is_not_resolved_stands_for_itself() {
    let mut m = Make::new();
    let callee = m.path(UNIT);
    let call = m.expr(Expr::Call(callee, vec![]), U256);
    let input = m.done();
    let mut b = start(&input);
    assert_eq!(b.try_lower_call(call), None);
    assert_eq!(b.ensure_value(call), ValueId(0));
    assert_eq!(origin(&b, 0), ValueOrigin::Expr(call));
}

#[test]
fn methods_on_structs_know_where_the_receiver_lives() {
    let mut m = Make::new();
    let callable = m.callable(Some(INNER), None);
    let plain = m.callable(Some(U256), None);
    let pat = m.pat(INNER);
    let receiver = m.local(pat, INNER);
    let one = m.number(1);
    let call = m.expr(Expr::MethodCall(receiver, IdentId(50), vec![one]), U256);
    m.infos[call.0].callable = Some(callable);
    let other = m.expr(Expr::MethodCall(one, IdentId(50), vec![]), U256);
    m.infos[other.0].callable = Some(plain);
    let input = m.done();
    let mut b = start(&input);
    b.set_pat_address_space(pat, AddressSpaceKind::Storage);
    assert!(b.is_method_call(call));
    let value = b.try_lower_call(call).unwrap();
    match origin(&b, value.0) {
        ValueOrigin::Call(origin) => {
            assert_eq!(origin.args.len(), 2);
            assert_eq!(origin.receiver_space, Some(AddressSpaceKind::Storage));
        }
        _ => panic!("no call"),
    }
    let value = b.try_lower_call(other).unwrap();
    match origin(&b, value.0) {
        ValueOrigin::Call(origin) => assert_eq!(origin.receiver_space, None),
        _ => panic!("no call"),
    }
}

#[test]
fn intrinsics_that_yield_a_value() {
    let mut m = Make::new();
    let load = m.callable(None, Some(IntrinsicOp::Mload));
    let zero = m.number(0);
    let call = m.call(load, vec![zero], U256);
    let input = m.done();
    let mut b = start(&input);
    let value = b.try_lower_call(call).unwrap();
    assert_eq!(
        origin(&b, value.0),
        ValueOrigin::Intrinsic(IntrinsicValue {
            op: IntrinsicOp::Mload,
            args: vec![ValueId(0)],
            code_region: None,
        })
    );
    assert!(b.try_lower_intrinsic_stmt(ENTRY, call).is_none());
}

#[test]
fn code_regions_take_the_place_of_arguments() {
    let mut m = Make::new();
    let len = m.callable(None, Some(IntrinsicOp::CodeRegionLen));
    let region = m.path(UNIT);
    m.infos[region.0].code_region = Some(CodeRegionId(4));
    let call = m.call(len, vec![region], U256);
    let bare = m.call(len, vec![], U256);
    let input = m.done();
    let mut b = start(&input);
    let value = b.try_lower_call(call).unwrap();
    assert_eq!(
        origin(&b, value.0),
        ValueOrigin::Intrinsic(IntrinsicValue {
            op: IntrinsicOp::CodeRegionLen,
            args: vec![],
            code_region: Some(CodeRegionId(4)),
        })
    );
    let value = b.try_lower_call(bare).unwrap();
    assert_eq!(
        origin(&b, value.0),
        ValueOrigin::Intrinsic(IntrinsicValue {
            op: IntrinsicOp::CodeRegionLen,
            args: vec![],
            code_region: None,
        })
    );
}

#[test]
fn intrinsics_without_a_value_are_instructions() {
    let mut m = Make::new();
    let store = m.callable(None, Some(IntrinsicOp::Mstore));
    let zero = m.number(0);
    let one = m.number(1);
    let call = m.call(store, vec![zero, one], UNIT);
    let stmt = m.stmt(Stmt::Expr(call));
    let root = m.block(vec![stmt]);
    let input = m.done();
    let mut b = start(&input);
    assert_eq!(b.lower_root(ENTRY, root), Some(ENTRY));
    assert_eq!(
        insts(&b, 0),
        &vec![MirInst::IntrinsicStmt {
            expr: call,
            op: IntrinsicOp::Mstore,
            args: vec![ValueId(0), ValueId(1)],
        }]
    );
    assert_eq!(b.try_lower_call(call), None);
}

#[test]
fn return_data_ends_the_block() {
    let mut m = Make::new();
    let ret = m.callable(None, Some(IntrinsicOp::ReturnData));
    let zero = m.number(0);
    let size = m.number(32);
    let call = m.call(ret, vec![zero, size], UNIT);
    let stmt = m.stmt(Stmt::Expr(call));
    let root = m.block(vec![stmt]);
    let input = m.done();
    let mut b = start(&input);
    assert_eq!(b.lower_root(ENTRY, root), None);
    assert_eq!(
        end(&b, 0),
        Some(Terminator::ReturnData { offset: ValueId(0), size: ValueId(1) })
    );
}

#[test]
fn fields_are_loaded() {
    let mut m = Make::new();
    let base = m.path(INNER);
    let field = m.expr(Expr::Field(base, Partial::Present(FieldIndex::Ident(X))), U256);
    let input = m.done();
    let mut b = start(&input);
    let value = b.try_lower_field(field).unwrap();
    assert_eq!(origin(&b, 1), constant(32));
    match origin(&b, value.0) {
        ValueOrigin::Call(origin) => {
            assert_eq!(
                origin.callable,
                Callable::Helper {
                    helper: CoreHelper::GetField,
                    ptr_ty: MEM_PTR,
                    value_ty: U256,
                }
            );
            assert_eq!(origin.args, vec![ValueId(0), ValueId(1)]);
        }
        _ => panic!("no load"),
    }
}

#[test]
fn fields_in_storage_are_loaded_from_storage() {
    let mut m = Make::new();
    let base = m.path(INNER);
    let field = m.expr(Expr::Field(base, Partial::Present(FieldIndex::Index(0))), U256);
    let input = m.done();
    let mut b = start(&input);
    let base_value = b.ensure_value(base);
    b.set_value_address_space(base_value, AddressSpaceKind::Storage);
    let value = b.try_lower_field(field).unwrap();
    match origin(&b, value.0) {
        ValueOrigin::Call(origin) => assert_eq!(
            origin.callable,
            Callable::Helper { helper: CoreHelper::GetField, ptr_ty: STOR_PTR, value_ty: U256 }
        ),
        _ => panic!("no load"),
    }
}

#[test]
fn nested_structs_are_pointers() {
    let mut m = Make::new();
    let base = m.path(OUTER);
    let tail = m.expr(Expr::Field(base, Partial::Present(FieldIndex::Ident(TAIL))), INNER);
    let first =
        m.expr(Expr::Field(base, Partial::Present(FieldIndex::Ident(INNER_FIELD))), INNER);
    let input = m.done();
    let mut b = start(&input);
    let base_value = b.ensure_value(base);
    b.set_value_address_space(base_value, AddressSpaceKind::Storage);
    let value = b.try_lower_field(tail).unwrap();
    assert_eq!(
        origin(&b, value.0),
        ValueOrigin::FieldPtr(FieldPtrOrigin { base: base_value, offset_bytes: 96 })
    );
    assert_eq!(b.value_address_space(value), AddressSpaceKind::Storage);
    assert_eq!(b.try_lower_field(first), Some(base_value));
    assert_eq!(b.mir_body.values.len(), 2);
}

#[test]
fn fields_that_are_not_known_have_no_value_of_their_own() {
    let mut m = Make::new();
    let base = m.path(INNER);
    let unknown =
        m.expr(Expr::Field(base, Partial::Present(FieldIndex::Ident(IdentId(77)))), U256);
    let far = m.expr(Expr::Field(base, Partial::Present(FieldIndex::Index(2))), U256);
    let missing = m.expr(Expr::Field(base, Partial::Absent), U256);
    let input = m.done();
    let mut b = start(&input);
    assert_eq!(b.try_lower_field(unknown), None);
    assert_eq!(b.try_lower_field(far), None);
    assert_eq!(b.try_lower_field(missing), None);
    assert_eq!(b.try_lower_field(base), None);
    assert!(b.mir_body.values.is_empty());
}

#[test]
fn records_are_reserved_and_filled() {
    let mut m = Make::new();
    let one = m.number(1);
    let two = m.number(2);
    let record = m.expr(
        Expr::RecordInit(
            PathId(0),
            vec![
                FieldInit { field: FieldIndex::Ident(A), expr: one },
                FieldInit { field: FieldIndex::Ident(X), expr: two },
            ],
        ),
        INNER,
    );
    let stmt = m.stmt(Stmt::Expr(record));
    let root = m.block(vec![stmt]);
    let input = m.done();
    let mut b = start(&input);
    assert_eq!(b.lower_root(ENTRY, root), Some(ENTRY));
    assert_eq!(origin(&b, 0), constant(64));
    let helper = |b: &MirBuilder, value: usize| match origin(b, value) {
        ValueOrigin::Call(call) => match call.callable {
            Callable::Helper { helper, .. } => (helper, call.args),
            _ => panic!("no helper"),
        },
        _ => panic!("no call"),
    };
    assert_eq!(helper(&b, 1), (CoreHelper::Alloc, vec![ValueId(0)]));
    assert_eq!(
        helper(&b, 4),
        (CoreHelper::StoreField, vec![ValueId(1), ValueId(3), ValueId(2)])
    );
    assert_eq!(origin(&b, 3), constant(0));
    assert_eq!(
        helper(&b, 7),
        (CoreHelper::StoreField, vec![ValueId(1), ValueId(6), ValueId(5)])
    );
    assert_eq!(origin(&b, 6), constant(32));
    assert_eq!(
        insts(&b, 0),
        &vec![
            MirInst::EvalExpr { expr: record, value: ValueId(1), bind_value: true },
            MirInst::EvalExpr { expr: record, value: ValueId(4), bind_value: false },
            MirInst::EvalExpr { expr: record, value: ValueId(7), bind_value: false },
            MirInst::Eval { stmt, value: ValueId(1) },
        ]
    );
}

#[test]
fn variants_store_their_discriminant() {
    let mut m = Make::new();
    m.variants.push(VariantLayout {
        discriminant: 5,
        size_bytes: 64,
        fields: vec![slot(A, U256, 32)],
    });
    let ctor = m.path(UNIT);
    m.infos[ctor.0].variant = Some(VariantId(0));
    let one = m.number(1);
    let call = m.expr(Expr::Call(ctor, vec![one]), INNER);
    let input = m.done();
    let mut b = start(&input);
    let (next, value) = b.lower_expr_in(ENTRY, call);
    assert_eq!((next, value), (Some(ENTRY), ValueId(1)));
    assert_eq!(origin(&b, 0), constant(64));
    assert_eq!(origin(&b, 2), constant(5));
    assert_eq!(origin(&b, 5), constant(32));
    assert_eq!(insts(&b, 0).len(), 3);
}

#[test]
fn unit_variants_are_built_from_their_name() {
    let mut m = Make::new();
    m.variants.push(VariantLayout { discriminant: 2, size_bytes: 32, fields: vec![] });
    let name = m.path(INNER);
    m.infos[name.0].variant = Some(VariantId(0));
    let input = m.done();
    let mut b = start(&input);
    let (next, value, eval) = b.lower_expr_core(ENTRY, name);
    assert_eq!((next, value, eval), (Some(ENTRY), ValueId(1), true));
    assert_eq!(origin(&b, 2), constant(2));
    assert_eq!(insts(&b, 0).len(), 2);
}

#[test]
fn match_with_a_wildcard() {
    let mut m = Make::new();
    let one = m.arm(Some(MatchArmPattern::Value(word(1))));
    let rest = m.arm(Some(MatchArmPattern::Wildcard));
    let scrutinee = m.path(U256);
    let first = m.block(vec![]);
    let returned = m.stmt(Stmt::Return(None));
    let second = m.block(vec![returned]);
    let choice = m.expr(
        Expr::Match(
            scrutinee,
            Partial::Present(vec![
                MatchArm { pat: one, body: first },
                MatchArm { pat: rest, body: second },
            ]),
        ),
        UNIT,
    );
    let input = m.done();
    let mut b = start(&input);
    let (next, _, eval) = b.lower_expr_core(ENTRY, choice);
    assert_eq!((next, eval), (Some(BasicBlockId(2)), false));
    assert_eq!(
        end(&b, 0),
        Some(Terminator::Switch {
            discr: ValueId(1),
            targets: vec![SwitchTarget { value: word(1), block: BasicBlockId(1) }],
            default: BasicBlockId(3),
        })
    );
    assert_eq!(end(&b, 1), goto(2));
    assert_eq!(end(&b, 3), Some(Terminator::Return(None)));
}

#[test]
fn match_without_a_wildcard_has_an_unreachable_default() {
    let mut m = Make::new();
    let one = m.arm(Some(MatchArmPattern::Value(word(1))));
    let scrutinee = m.path(U256);
    let returned = m.stmt(Stmt::Return(None));
    let first = m.block(vec![returned]);
    let choice = m.expr(
        Expr::Match(scrutinee, Partial::Present(vec![MatchArm { pat: one, body: first }])),
        UNIT,
    );
    let input = m.done();
    let mut b = start(&input);
    let (next, _) = b.lower_expr_in(ENTRY, choice);
    assert_eq!(next, None);
    assert_eq!(
        end(&b, 0),
        Some(Terminator::Switch {
            discr: ValueId(1),
            targets: vec![SwitchTarget { value: word(1), block: BasicBlockId(1) }],
            default: BasicBlockId(2),
        })
    );
    assert_eq!(end(&b, 2), Some(Terminator::Unreachable));
}

#[test]
fn match_that_no_switch_can_test_is_evaluated() {
    let mut m = Make::new();
    let odd = m.arm(None);
    let scrutinee = m.path(U256);
    let first = m.block(vec![]);
    let choice = m.expr(
        Expr::Match(scrutinee, Partial::Present(vec![MatchArm { pat: odd, body: first }])),
        UNIT,
    );
    let input = m.done();
    let mut b = start(&input);
    assert_eq!(b.lower_expr_core(ENTRY, choice), (Some(ENTRY), ValueId(0), true));
    assert_eq!(origin(&b, 0), ValueOrigin::Expr(choice));
    assert_eq!(b.mir_body.blocks.len(), 1);
}

#[test]
fn assignments() {
    let mut m = Make::new();
    let pat = m.pat(U256);
    let target = m.local(pat, U256);
    let one = m.number(1);
    let assign = m.expr(Expr::Assign(target, one), UNIT);
    let stmt = m.stmt(Stmt::Expr(assign));
    let two = m.number(2);
    let add = m.expr(Expr::AugAssign(target, two, ArithBinOp::Mul), UNIT);
    let add_stmt = m.stmt(Stmt::Expr(add));
    let root = m.block(vec![stmt, add_stmt]);
    let input = m.done();
    let mut b = start(&input);
    assert_eq!(b.lower_root(ENTRY, root), Some(ENTRY));
    assert_eq!(
        insts(&b, 0),
        &vec![
            MirInst::Assign { stmt, target, value: ValueId(0) },
            MirInst::AugAssign {
                stmt: add_stmt,
                target,
                value: ValueId(1),
                op: ArithBinOp::Mul,
            },
        ]
    );
    assert_eq!(b.pat_spaces.get(&pat.0), Some(&AddressSpaceKind::Memory));
}

#[test]
fn an_assigned_variable_lives_where_the_value_lives() {
    let mut m = Make::new();
    let from = m.pat(INNER);
    let to = m.pat(INNER);
    let value = m.local(from, INNER);
    let target = m.local(to, INNER);
    let assign = m.expr(Expr::Assign(target, value), UNIT);
    let stmt = m.stmt(Stmt::Expr(assign));
    let root = m.block(vec![stmt]);
    let input = m.done();
    let mut b = start(&input);
    b.set_pat_address_space(from, AddressSpaceKind::Storage);
    assert_eq!(b.lower_root(ENTRY, root), Some(ENTRY));
    assert_eq!(b.pat_spaces.get(&to.0), Some(&AddressSpaceKind::Storage));
}

#[test]
fn assignments_to_fields_are_stored() {
    let mut m = Make::new();
    let base = m.path(INNER);
    let field = m.expr(Expr::Field(base, Partial::Present(FieldIndex::Ident(X))), U256);
    let one = m.number(1);
    let assign = m.expr(Expr::Assign(field, one), UNIT);
    let stmt = m.stmt(Stmt::Expr(assign));
    let root = m.block(vec![stmt]);
    let input = m.done();
    let mut b = start(&input);
    assert_eq!(b.lower_root(ENTRY, root), Some(ENTRY));
    assert_eq!(
        insts(&b, 0),
        &vec![MirInst::EvalExpr { expr: assign, value: ValueId(3), bind_value: false }]
    );
    match origin(&b, 3) {
        ValueOrigin::Call(call) => {
            assert_eq!(call.args, vec![ValueId(1), ValueId(2), ValueId(0)]);
            assert_eq!(
                call.callable,
                Callable::Helper {
                    helper: CoreHelper::StoreField,
                    ptr_ty: MEM_PTR,
                    value_ty: U256,
                }
            );
        }
        _ => panic!("no store"),
    }
    assert_eq!(origin(&b, 2), constant(32));
}

#[test]
fn lowering_leaves_finished_blocks_and_values_alone() {
    let mut m = Make::new();
    let first = m.number(1);
    let first_stmt = m.stmt(Stmt::Expr(first));
    let cond = m.flag();
    let body = m.block(vec![]);
    let repeat = m.stmt(Stmt::While(cond, body));
    let again_cond = m.flag();
    let again_body = m.block(vec![]);
    let again = m.stmt(Stmt::While(again_cond, again_body));
    let input = m.done();
    let mut b = start(&input);
    assert_eq!(b.lower_block(ENTRY, first, &[first_stmt, repeat]), Some(BasicBlockId(3)));
    let blocks = b.mir_body.blocks.clone();
    let values = b.mir_body.values.clone();
    let headers = b.mir_body.loop_headers.clone();
    assert_eq!(b.lower_stmt(BasicBlockId(3), again), (Some(BasicBlockId(6)), None));
    assert_eq!(&b.mir_body.blocks[..3], &blocks[..3]);
    assert_eq!(&b.mir_body.values[..values.len()], &values[..]);
    assert_eq!(b.mir_body.loop_headers.get(&1), headers.get(&1));
    assert_eq!(end(&b, 3), goto(4));
}

#[test]
fn wherever_a_block_leads_there_is_a_terminator() {
    let mut m = Make::new();
    let pat = m.pat(U256);
    let ten = m.number(10);
    let cond = m.flag();
    let brk = m.stmt(Stmt::Break);
    let then_block = m.block(vec![brk]);
    let choice = m.expr(Expr::If(cond, then_block, None), UNIT);
    let choice_stmt = m.stmt(Stmt::Expr(choice));
    let body = m.block(vec![choice_stmt]);
    let repeat = m.stmt(Stmt::For(pat, ten, body));
    let returned = m.stmt(Stmt::Return(None));
    let root = m.block(vec![repeat, returned]);
    let input = m.done();
    let mut b = start(&input);
    assert_eq!(b.lower_root(ENTRY, root), None);
    for block in &b.mir_body.blocks {
        let targets = match &block.terminator {
            Some(Terminator::Goto { target }) => vec![*target],
            Some(Terminator::Branch { then_bb, else_bb, .. }) => vec![*then_bb, *else_bb],
            _ => vec![],
        };
        for target in targets {
            assert!(b.mir_body.blocks[target.0].terminator.is_some());
        }
    }
}

#[test]
fn bodies_are_filled_from_the_leaves_up() {
    let mut m = Make::new();
    m.expr(Expr::Un(ExprId(0), UnOp::Not), BOOL);
    assert!(m.check().is_none());

    let mut m = Make::new();
    m.block(vec![StmtId(0)]);
    assert!(m.check().is_none());

    let mut m = Make::new();
    m.stmt(Stmt::Return(Some(ExprId(0))));
    assert!(m.check().is_none());

    let mut m = Make::new();
    let one = m.number(1);
    m.expr(Expr::Tuple(vec![one, ExprId(1)]), UNIT);
    assert!(m.check().is_none());

    let mut m = Make::new();
    let one = m.number(1);
    m.expr(Expr::If(one, one, Some(ExprId(1))), UNIT);
    assert!(m.check().is_none());

    let mut m = Make::new();
    let one = m.number(1);
    let arms = vec![MatchArm { pat: PatId(0), body: ExprId(1) }];
    m.expr(Expr::Match(one, Partial::Present(arms)), UNIT);
    assert!(m.check().is_none());
}

#[test]
fn tables_have_to_fit_the_body() {
    let mut m = Make::new();
    m.number(1);
    m.infos.clear();
    assert!(m.check().is_none());

    let mut m = Make::new();
    let one = m.number(1);
    m.infos[one.0].ty = EXTRA;
    assert!(m.check().is_none());

    let mut m = Make::new();
    let one = m.number(1);
    m.infos[one.0].callable = Some(CallableId(0));
    assert!(m.check().is_none());

    let mut m = Make::new();
    let one = m.number(1);
    m.infos[one.0].variant = Some(VariantId(0));
    assert!(m.check().is_none());

    let mut m = Make::new();
    let binding = LocalBinding::Param { index: 0 };
    m.references.push(References { binding, exprs: vec![ExprId(0)] });
    assert!(m.check().is_none());

    let mut m = Make::new();
    m.callable(Some(EXTRA), None);
    assert!(m.check().is_none());
}

#[test]
fn break_outside_of_a_loop_cannot_be_lowered() {
    let mut m = Make::new();
    let cond = m.flag();
    let brk = m.stmt(Stmt::Break);
    let bare = m.block(vec![brk]);
    let cont = m.stmt(Stmt::Continue);
    let body = m.block(vec![cont]);
    let repeat = m.stmt(Stmt::While(cond, body));
    let looped = m.block(vec![repeat]);
    let input = m.done();
    assert!(!input.can_lower(bare));
    assert!(!input.can_lower(body));
    assert!(input.can_lower(looped));
}

#[test]
fn what_a_for_loop_can_run_over() {
    let mut m = Make::new();
    let pat = m.pat(U256);
    let one = m.number(1);
    let flag = m.flag();
    let range = m.expr(Expr::Bin(one, one, BinOp::Index), U256);
    let sum = m.expr(Expr::Bin(one, one, BinOp::Arith(ArithBinOp::Add)), U256);
    let array = m.path(ARRAY);
    let name = m.path(U256);
    let body = m.block(vec![]);
    let mut roots = vec![];
    for iter in [one, flag, range, sum, array, name] {
        let stmt = m.stmt(Stmt::For(pat, iter, body));
        roots.push(m.block(vec![stmt]));
    }
    let input = m.done();
    let fine: Vec<bool> = roots.iter().map(|root| input.can_lower(*root)).collect();
    assert_eq!(fine, vec![true, false, true, false, true, false]);
}
