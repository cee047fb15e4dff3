//! The mid-level representation: basic blocks of instructions, and the values they work on.
//!
//! The types that hold lists are generic in the list. Compiled code holds vectors, contracts
//! speak of sequences.

use vstd::prelude::*;

use crate::hir::body::{ArithBinOp, CompBinOp, Word};
use crate::hir::ids::{ExprId, PatId, StmtId, TypeId};
use crate::hir::typed::{CallableId, CodeRegionId, TyId};

verus! {

/// The position of a basic block in its body.
#[derive(Debug, Clone, Copy, PartialEq, Eq, Hash, Structural)]
pub struct BasicBlockId(pub usize);

/// The position of a value in its body.
#[derive(Debug, Clone, Copy, PartialEq, Eq, Hash, Structural)]
pub struct ValueId(pub usize);

/// Where a value of an aggregate type lives.
#[derive(Debug, Clone, Copy, PartialEq, Eq, Hash, Structural)]
pub enum AddressSpaceKind {
    Memory,
    Storage,
}

/// Operations of the machine that are called like functions.
#[derive(Debug, Clone, Copy, PartialEq, Eq, Hash, Structural)]
pub enum IntrinsicOp {
    Mload,
    Mstore,
    Mstore8,
    Sload,
    Sstore,
    Calldataload,
    Calldatacopy,
    Calldatasize,
    Returndatacopy,
    Returndatasize,
    Codecopy,
    Codesize,
    CodeRegionOffset,
    CodeRegionLen,
    Keccak,
    Caller,
    ReturnData,
}

impl IntrinsicOp {
    /// Whether the operation yields a value.
    pub open spec fn yields(self) -> bool {
        match self {
            IntrinsicOp::Mload => true,
            IntrinsicOp::Sload => true,
            IntrinsicOp::Calldataload => true,
            IntrinsicOp::Calldatasize => true,
            IntrinsicOp::Returndatasize => true,
            IntrinsicOp::Codesize => true,
            IntrinsicOp::CodeRegionOffset => true,
            IntrinsicOp::CodeRegionLen => true,
            IntrinsicOp::Keccak => true,
            IntrinsicOp::Caller => true,
            _ => false,
        }
    }

    /// Whether the operation asks for a place in the code instead of taking arguments.
    pub open spec fn asks_region(self) -> bool {
        self == IntrinsicOp::CodeRegionOffset || self == IntrinsicOp::CodeRegionLen
    }

    /// Returns whether the operation yields a value.
    pub fn returns_value(self) -> (yields: bool)
        ensures
            yields == self.yields(),
    {
        matches!(
            self,
            IntrinsicOp::Mload | IntrinsicOp::Sload | IntrinsicOp::Calldataload
                | IntrinsicOp::Calldatasize | IntrinsicOp::Returndatasize | IntrinsicOp::Codesize
                | IntrinsicOp::CodeRegionOffset | IntrinsicOp::CodeRegionLen | IntrinsicOp::Keccak
                | IntrinsicOp::Caller
        )
    }
}

/// Functions of the core library that lowering calls.
#[derive(Debug, Clone, Copy, PartialEq, Eq, Hash, Structural)]
pub enum CoreHelper {
    /// Reserves room for an aggregate.
    Alloc,
    /// Loads a field from a pointer and an offset.
    GetField,
    /// Stores a field to a pointer and an offset.
    StoreField,
    /// Stores the discriminant of an enum.
    StoreDiscriminant,
}

/// What a call calls: a callable of the body, or a helper at a pointer type and a value type.
#[derive(Debug, Clone, Copy, PartialEq, Eq, Hash, Structural)]
pub enum Callable {
    Checked(CallableId),
    Helper { helper: CoreHelper, ptr_ty: TyId, value_ty: TyId },
}

/// A call.
#[derive(Debug, Clone, PartialEq, Eq, Hash)]
pub struct CallOrigin<Args> {
    pub expr: ExprId,
    pub callable: Callable,
    pub args: Args,
    /// Where the receiver of a method on a struct lives.
    pub receiver_space: Option<AddressSpaceKind>,
    /// The name of the called function, once it is resolved.
    pub resolved_name: Option<u32>,
}

/// The use of an intrinsic as a value.
#[derive(Debug, Clone, PartialEq, Eq, Hash)]
pub struct IntrinsicValue<Args> {
    pub op: IntrinsicOp,
    pub args: Args,
    pub code_region: Option<CodeRegionId>,
}

/// A pointer to a field inside an aggregate.
#[derive(Debug, Clone, Copy, PartialEq, Eq, Hash, Structural)]
pub struct FieldPtrOrigin {
    pub base: ValueId,
    pub offset_bytes: u64,
}

/// A value that no expression of the body stands for.
#[derive(Debug, Clone, Copy, PartialEq, Eq, Hash, Structural)]
pub enum SyntheticValue {
    Int(Word),
    Comparison { left: ValueId, right: ValueId, op: CompBinOp },
    /// What the variable of a pattern holds.
    Variable(PatId),
}

/// Where a value comes from.
#[derive(Debug, Clone, PartialEq, Eq, Hash)]
pub enum ValueOrigin<Args> {
    Expr(ExprId),
    Synthetic(SyntheticValue),
    Intrinsic(IntrinsicValue<Args>),
    Call(CallOrigin<Args>),
    FieldPtr(FieldPtrOrigin),
}

/// A value: its type and where it comes from.
#[derive(Debug, Clone, PartialEq, Eq, Hash)]
pub struct ValueData<Args> {
    pub ty: TyId,
    pub origin: ValueOrigin<Args>,
}

/// Instructions.
#[allow(inconsistent_fields)]
#[derive(Debug, Clone, PartialEq, Eq, Hash)]
pub enum MirInst<Args> {
    Let { stmt: StmtId, pat: PatId, ty: Option<TypeId>, value: Option<ValueId> },
    Assign { stmt: StmtId, target: ExprId, value: ValueId },
    AugAssign { stmt: StmtId, target: ExprId, value: ValueId, op: ArithBinOp },
    /// `AugAssign` to the variable of a pattern.
    AugAssignVariable { stmt: StmtId, pat: PatId, value: ValueId, op: ArithBinOp },
    Eval { stmt: StmtId, value: ValueId },
    EvalExpr { expr: ExprId, value: ValueId, bind_value: bool },
    IntrinsicStmt { expr: ExprId, op: IntrinsicOp, args: Args },
}

/// One case of a switch.
#[derive(Debug, Clone, Copy, PartialEq, Eq, Hash, Structural)]
pub struct SwitchTarget {
    pub value: Word,
    pub block: BasicBlockId,
}

/// How a basic block ends.
#[derive(Debug, Clone, PartialEq, Eq, Hash)]
pub enum Terminator<Targets> {
    Return(Option<ValueId>),
    ReturnData { offset: ValueId, size: ValueId },
    Goto { target: BasicBlockId },
    Branch { cond: ValueId, then_bb: BasicBlockId, else_bb: BasicBlockId },
    Switch { discr: ValueId, targets: Targets, default: BasicBlockId },
    Unreachable,
}

/// A basic block. It is open until it has a terminator.
#[derive(Debug, Clone, PartialEq, Eq, Hash)]
pub struct BasicBlock {
    pub insts: Vec<MirInst<Vec<ValueId>>>,
    pub terminator: Option<Terminator<Vec<SwitchTarget>>>,
}

/// The blocks of a loop, registered under the block that tests its condition.
#[derive(Debug, Clone, Copy, PartialEq, Eq, Hash, Structural)]
pub struct LoopInfo {
    pub body: BasicBlockId,
    pub exit: BasicBlockId,
    pub backedge: Option<BasicBlockId>,
}

/// Where `continue` and `break` lead.
#[derive(Debug, Clone, Copy, PartialEq, Eq, Hash, Structural)]
pub struct LoopScope {
    pub continue_target: BasicBlockId,
    pub break_target: BasicBlockId,
}

/// A value, as contracts speak of it.
pub type ValueModel = ValueData<Seq<ValueId>>;

/// An instruction, as contracts speak of it.
pub type InstModel = MirInst<Seq<ValueId>>;

/// A terminator, as contracts speak of it.
pub type TerminatorModel = Terminator<Seq<SwitchTarget>>;

/// A basic block, as contracts speak of it.
#[verifier::ext_equal]
pub struct BlockModel {
    pub insts: Seq<InstModel>,
    pub terminator: Option<TerminatorModel>,
}

impl View for ValueData<Vec<ValueId>> {
    type V = ValueModel;

    open spec fn view(&self) -> ValueModel {
        ValueData {
            ty: self.ty,
            origin: match self.origin {
                ValueOrigin::Expr(expr) => ValueOrigin::Expr(expr),
                ValueOrigin::Synthetic(value) => ValueOrigin::Synthetic(value),
                ValueOrigin::Intrinsic(value) => ValueOrigin::Intrinsic(
                    IntrinsicValue {
                        op: value.op,
                        args: value.args@,
                        code_region: value.code_region,
                    },
                ),
                ValueOrigin::Call(call) => ValueOrigin::Call(
                    CallOrigin {
                        expr: call.expr,
                        callable: call.callable,
                        args: call.args@,
                        receiver_space: call.receiver_space,
                        resolved_name: call.resolved_name,
                    },
                ),
                ValueOrigin::FieldPtr(ptr) => ValueOrigin::FieldPtr(ptr),
            },
        }
    }
}

impl View for MirInst<Vec<ValueId>> {
    type V = InstModel;

    open spec fn view(&self) -> InstModel {
        match *self {
            MirInst::Let { stmt, pat, ty, value } => MirInst::Let { stmt, pat, ty, value },
            MirInst::Assign { stmt, target, value } => MirInst::Assign { stmt, target, value },
            MirInst::AugAssign { stmt, target, value, op } => MirInst::AugAssign {
                stmt,
                target,
                value,
                op,
            },
            MirInst::AugAssignVariable { stmt, pat, value, op } => MirInst::AugAssignVariable {
                stmt,
                pat,
                value,
                op,
            },
            MirInst::Eval { stmt, value } => MirInst::Eval { stmt, value },
            MirInst::EvalExpr { expr, value, bind_value } => MirInst::EvalExpr {
                expr,
                value,
                bind_value,
            },
            MirInst::IntrinsicStmt { expr, op, args } => MirInst::IntrinsicStmt {
                expr,
                op,
                args: args@,
            },
        }
    }
}

impl View for Terminator<Vec<SwitchTarget>> {
    type V = TerminatorModel;

    open spec fn view(&self) -> TerminatorModel {
        match *self {
            Terminator::Return(value) => Terminator::Return(value),
            Terminator::ReturnData { offset, size } => Terminator::ReturnData { offset, size },
            Terminator::Goto { target } => Terminator::Goto { target },
            Terminator::Branch { cond, then_bb, else_bb } => Terminator::Branch {
                cond,
                then_bb,
                else_bb,
            },
            Terminator::Switch { discr, targets, default } => Terminator::Switch {
                discr,
                targets: targets@,
                default,
            },
            Terminator::Unreachable => Terminator::Unreachable,
        }
    }
}

impl View for BasicBlock {
    type V = BlockModel;

    open spec fn view(&self) -> BlockModel {
        BlockModel {
            insts: Seq::new(self.insts@.len(), |i: int| self.insts@[i]@),
            terminator: match self.terminator {
                Some(terminator) => Some(terminator@),
                None => None,
            },
        }
    }
}

} // verus!
