//! What the lowering of a body reads.

use vstd::prelude::*;

use crate::hir::body::{Body, Expr, Partial, Stmt};
use crate::hir::ids::{ExprId, StmtId};
use crate::hir::typed::{CallableId, TyId, TypedBody};
use crate::mir::ir::{AddressSpaceKind, IntrinsicOp};

verus! {

/// The parts of the core library that lowering knows.
#[derive(Debug, Clone, PartialEq, Eq, Hash)]
pub struct CoreLib {
    /// The type of pointers into memory.
    pub mem_ptr_ty: TyId,
    /// The type of pointers into storage.
    pub stor_ptr_ty: TyId,
    /// The intrinsic that each callable stands for.
    pub intrinsics: Vec<Option<IntrinsicOp>>,
}

impl CoreLib {
    /// The type of pointers into an address space.
    pub open spec fn ptr_ty(self, space: AddressSpaceKind) -> TyId {
        match space {
            AddressSpaceKind::Memory => self.mem_ptr_ty,
            AddressSpaceKind::Storage => self.stor_ptr_ty,
        }
    }

    /// The intrinsic that a callable stands for.
    pub open spec fn intrinsic(self, callable: CallableId) -> Option<IntrinsicOp> {
        if callable.0 < self.intrinsics@.len() {
            self.intrinsics@[callable.0 as int]
        } else {
            None
        }
    }

    /// Returns the type of pointers into an address space.
    pub fn helper_ty(&self, space: AddressSpaceKind) -> (ty: TyId)
        ensures
            ty == self.ptr_ty(space),
    {
        match space {
            AddressSpaceKind::Memory => self.mem_ptr_ty,
            AddressSpaceKind::Storage => self.stor_ptr_ty,
        }
    }

    /// Returns the intrinsic that a callable stands for.
    pub fn intrinsic_kind(&self, callable: CallableId) -> (op: Option<IntrinsicOp>)
        ensures
            op == self.intrinsic(callable),
    {
        if callable.0 < self.intrinsics.len() {
            self.intrinsics[callable.0]
        } else {
            None
        }
    }
}

/// A body together with its types and the core library.
#[derive(Debug, Clone, PartialEq, Eq, Hash)]
pub struct CheckedBody {
    pub body: Body,
    pub typed_body: TypedBody,
    pub core: CoreLib,
}

impl CheckedBody {
    /// Whether the body and its tables are well-formed and fit each other.
    pub open spec fn wf(self) -> bool {
        &&& self.body.wf()
        &&& self.typed_body.wf(self.body.exprs@.len())
    }

    /// Puts a body and its tables together, if they are well-formed and fit each other.
    pub fn new(body: Body, typed_body: TypedBody, core: CoreLib) -> (checked: Option<CheckedBody>)
        ensures
            checked is Some <==> (CheckedBody { body, typed_body, core }).wf(),
            checked matches Some(checked) ==> checked == (CheckedBody { body, typed_body, core }),
    {
        if body.is_wf() && typed_body.is_wf(body.exprs.len()) {
            Some(CheckedBody { body, typed_body, core })
        } else {
            None
        }
    }

    /// The expression at a position.
    pub open spec fn expr(self, expr: ExprId) -> Partial<Expr> {
        self.body.exprs@[expr.0 as int]
    }

    /// The statement at a position.
    pub open spec fn stmt(self, stmt: StmtId) -> Partial<Stmt> {
        self.body.stmts@[stmt.0 as int]
    }

    /// Whether `expr` is an expression of the body.
    pub open spec fn has_expr(self, expr: ExprId) -> bool {
        expr.0 < self.body.exprs@.len()
    }

    /// Whether `stmt` is a statement of the body.
    pub open spec fn has_stmt(self, stmt: StmtId) -> bool {
        stmt.0 < self.body.stmts@.len()
    }
}

} // verus!
