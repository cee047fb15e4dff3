//! Function bodies: an arena of expressions and an arena of statements.

use vstd::prelude::*;

use crate::hir::ids::{ExprId, IdentId, PatId, PathId, StmtId, TypeId};

verus! {

/// A part of the source that may be missing after a syntax error.
#[derive(Debug, Clone, Copy, PartialEq, Eq, Hash)]
pub enum Partial<T> {
    Present(T),
    Absent,
}

/// An unsigned integer of 256 bits.
#[derive(Debug, Clone, Copy, PartialEq, Eq, Hash, Structural)]
pub struct Word {
    pub high: u128,
    pub low: u128,
}

impl Word {
    /// The word that holds `n`.
    pub open spec fn of(n: u64) -> Word {
        Word { high: 0, low: n as u128 }
    }

    /// Converts a machine integer to a word.
    pub fn from_u64(n: u64) -> (word: Word)
        ensures
            word == Word::of(n),
    {
        Word { high: 0, low: n as u128 }
    }
}

/// A literal.
#[derive(Debug, Clone, Copy, PartialEq, Eq, Hash, Structural)]
pub enum LitKind {
    Int(Word),
    Bool(bool),
    String(IdentId),
}

/// Arithmetic operators.
#[derive(Debug, Clone, Copy, PartialEq, Eq, Hash, Structural)]
pub enum ArithBinOp {
    Add,
    Sub,
    Mul,
    Div,
    Rem,
    Pow,
    LShift,
    RShift,
    BitAnd,
    BitOr,
    BitXor,
}

/// Comparison operators.
#[derive(Debug, Clone, Copy, PartialEq, Eq, Hash, Structural)]
pub enum CompBinOp {
    Eq,
    NotEq,
    Lt,
    LtEq,
    Gt,
    GtEq,
}

/// Logical operators.
#[derive(Debug, Clone, Copy, PartialEq, Eq, Hash, Structural)]
pub enum LogicalBinOp {
    And,
    Or,
}

/// Binary operators. `Index` also stands for the `..` of a range.
#[derive(Debug, Clone, Copy, PartialEq, Eq, Hash, Structural)]
pub enum BinOp {
    Arith(ArithBinOp),
    Comp(CompBinOp),
    Logical(LogicalBinOp),
    Index,
}

/// Unary operators.
#[derive(Debug, Clone, Copy, PartialEq, Eq, Hash, Structural)]
pub enum UnOp {
    Plus,
    Minus,
    Not,
    BitNot,
}

/// How a field is named in a field access.
#[derive(Debug, Clone, Copy, PartialEq, Eq, Hash, Structural)]
pub enum FieldIndex {
    Ident(IdentId),
    Index(usize),
}

/// One `name: value` of a record initializer.
#[derive(Debug, Clone, Copy, PartialEq, Eq, Hash, Structural)]
pub struct FieldInit {
    pub field: FieldIndex,
    pub expr: ExprId,
}

/// One arm of a `match`.
#[derive(Debug, Clone, Copy, PartialEq, Eq, Hash, Structural)]
pub struct MatchArm {
    pub pat: PatId,
    pub body: ExprId,
}

/// Expressions.
#[derive(Debug, Clone, PartialEq, Eq, Hash)]
pub enum Expr {
    Lit(LitKind),
    Block(Vec<StmtId>),
    Bin(ExprId, ExprId, BinOp),
    Un(ExprId, UnOp),
    /// The callee and the arguments.
    Call(ExprId, Vec<ExprId>),
    /// The receiver, the method's name and the remaining arguments.
    MethodCall(ExprId, IdentId, Vec<ExprId>),
    Path(PathId),
    RecordInit(PathId, Vec<FieldInit>),
    Field(ExprId, Partial<FieldIndex>),
    Tuple(Vec<ExprId>),
    Array(Vec<ExprId>),
    /// The condition, the then-branch and the else-branch.
    If(ExprId, ExprId, Option<ExprId>),
    Match(ExprId, Partial<Vec<MatchArm>>),
    /// The target and the value.
    Assign(ExprId, ExprId),
    AugAssign(ExprId, ExprId, ArithBinOp),
}

/// Statements.
#[derive(Debug, Clone, PartialEq, Eq, Hash)]
pub enum Stmt {
    Let(PatId, Option<TypeId>, Option<ExprId>),
    /// The pattern, the iterable and the body.
    For(PatId, ExprId, ExprId),
    /// The condition and the body.
    While(ExprId, ExprId),
    Continue,
    Break,
    Return(Option<ExprId>),
    Expr(ExprId),
}

/// The larger of two numbers.
pub open spec fn max(a: nat, b: nat) -> nat {
    if a < b {
        b
    } else {
        a
    }
}

/// A bound above the identifiers of the expressions that stand directly in a statement.
pub open spec fn stmt_top(stmt: Partial<Stmt>) -> nat {
    match stmt {
        Partial::Absent => 0,
        Partial::Present(stmt) => match stmt {
            Stmt::Let(_, _, Some(value)) => value.0 as nat + 1,
            Stmt::Let(_, _, None) => 0,
            Stmt::For(_, iter, body) => max(iter.0 as nat, body.0 as nat) + 1,
            Stmt::While(cond, body) => max(cond.0 as nat, body.0 as nat) + 1,
            Stmt::Continue => 0,
            Stmt::Break => 0,
            Stmt::Return(Some(value)) => value.0 as nat + 1,
            Stmt::Return(None) => 0,
            Stmt::Expr(expr) => expr.0 as nat + 1,
        },
    }
}

/// Whether every expression of `exprs` comes before position `bound`.
pub open spec fn all_before(exprs: Seq<ExprId>, bound: nat) -> bool {
    forall|i: int| 0 <= i < exprs.len() ==> (#[trigger] exprs[i]).0 < bound
}

/// Returns whether every expression of `exprs` comes before position `bound`.
fn all_below(exprs: &Vec<ExprId>, bound: usize) -> (below: bool)
    ensures
        below == all_before(exprs@, bound as nat),
{
    let mut i: usize = 0;
    while i < exprs.len()
        invariant
            i <= exprs@.len(),
            forall|j: int| 0 <= j < i ==> (#[trigger] exprs@[j]).0 < bound,
        decreases exprs@.len() - i,
    {
        if exprs[i].0 >= bound {
            return false;
        }
        i += 1;
    }
    true
}

/// Returns whether the values of all of `fields` come before position `bound`.
fn fields_below(fields: &Vec<FieldInit>, bound: usize) -> (below: bool)
    ensures
        below == (forall|i: int|
            0 <= i < fields@.len() ==> (#[trigger] fields@[i]).expr.0 < bound),
{
    let mut i: usize = 0;
    while i < fields.len()
        invariant
            i <= fields@.len(),
            forall|j: int| 0 <= j < i ==> (#[trigger] fields@[j]).expr.0 < bound,
        decreases fields@.len() - i,
    {
        if fields[i].expr.0 >= bound {
            return false;
        }
        i += 1;
    }
    true
}

/// Returns whether the bodies of all of `arms` come before position `bound`.
fn arms_below(arms: &Vec<MatchArm>, bound: usize) -> (below: bool)
    ensures
        below == (forall|i: int|
            0 <= i < arms@.len() ==> (#[trigger] arms@[i]).body.0 < bound),
{
    let mut i: usize = 0;
    while i < arms.len()
        invariant
            i <= arms@.len(),
            forall|j: int| 0 <= j < i ==> (#[trigger] arms@[j]).body.0 < bound,
        decreases arms@.len() - i,
    {
        if arms[i].body.0 >= bound {
            return false;
        }
        i += 1;
    }
    true
}

/// Returns whether every expression that stands directly in a statement comes before position
/// `bound`.
fn stmt_below(stmt: &Partial<Stmt>, bound: usize) -> (below: bool)
    ensures
        below == (stmt_top(*stmt) <= bound),
{
    match stmt {
        Partial::Absent => true,
        Partial::Present(stmt) => match stmt {
            Stmt::Let(_, _, Some(value)) => value.0 < bound,
            Stmt::Let(_, _, None) => true,
            Stmt::For(_, iter, body) => iter.0 < bound && body.0 < bound,
            Stmt::While(cond, body) => cond.0 < bound && body.0 < bound,
            Stmt::Continue => true,
            Stmt::Break => true,
            Stmt::Return(Some(value)) => value.0 < bound,
            Stmt::Return(None) => true,
            Stmt::Expr(expr) => expr.0 < bound,
        },
    }
}

/// The body of a function.
///
/// Both arenas are filled from the leaves up: an expression stands behind the expressions that it
/// holds, directly or in its statements.
#[derive(Debug, Clone, PartialEq, Eq, Hash)]
pub struct Body {
    pub exprs: Vec<Partial<Expr>>,
    pub stmts: Vec<Partial<Stmt>>,
}

impl Body {
    /// Whether `stmts` are statements of this body whose expressions all come before `bound`.
    pub open spec fn stmts_before(self, stmts: Seq<StmtId>, bound: nat) -> bool {
        forall|i: int|
            0 <= i < stmts.len() ==> {
                &&& (#[trigger] stmts[i]).0 < self.stmts@.len()
                &&& stmt_top(self.stmts@[stmts[i].0 as int]) <= bound
            }
    }

    /// Whether everything that `expr` holds comes before position `bound`.
    pub open spec fn expr_before(self, expr: Partial<Expr>, bound: nat) -> bool {
        match expr {
            Partial::Absent => true,
            Partial::Present(expr) => match expr {
                Expr::Lit(_) => true,
                Expr::Block(stmts) => self.stmts_before(stmts@, bound),
                Expr::Bin(lhs, rhs, _) => lhs.0 < bound && rhs.0 < bound,
                Expr::Un(operand, _) => operand.0 < bound,
                Expr::Call(callee, args) => callee.0 < bound && all_before(args@, bound),
                Expr::MethodCall(receiver, _, args) => receiver.0 < bound && all_before(
                    args@,
                    bound,
                ),
                Expr::Path(_) => true,
                Expr::RecordInit(_, fields) => forall|i: int|
                    0 <= i < fields@.len() ==> (#[trigger] fields@[i]).expr.0 < bound,
                Expr::Field(lhs, _) => lhs.0 < bound,
                Expr::Tuple(elems) => all_before(elems@, bound),
                Expr::Array(elems) => all_before(elems@, bound),
                Expr::If(cond, then_expr, else_expr) => {
                    &&& cond.0 < bound
                    &&& then_expr.0 < bound
                    &&& else_expr matches Some(e) ==> e.0 < bound
                },
                Expr::Match(scrutinee, arms) => {
                    &&& scrutinee.0 < bound
                    &&& arms matches Partial::Present(arms) ==> forall|i: int|
                        0 <= i < arms@.len() ==> (#[trigger] arms@[i]).body.0 < bound
                },
                Expr::Assign(target, value) => target.0 < bound && value.0 < bound,
                Expr::AugAssign(target, value, _) => target.0 < bound && value.0 < bound,
            },
        }
    }

    /// Whether the arenas are filled from the leaves up and every identifier in them is bound.
    pub open spec fn wf(self) -> bool {
        &&& forall|i: int|
            0 <= i < self.exprs@.len() ==> self.expr_before(#[trigger] self.exprs@[i], i as nat)
        &&& forall|i: int|
            0 <= i < self.stmts@.len() ==> stmt_top(#[trigger] self.stmts@[i])
                <= self.exprs@.len()
    }

    /// Returns whether `stmts` are statements of this body whose expressions all come before
    /// `bound`.
    fn stmts_below(&self, stmts: &Vec<StmtId>, bound: usize) -> (below: bool)
        ensures
            below == self.stmts_before(stmts@, bound as nat),
    {
        let mut i: usize = 0;
        while i < stmts.len()
            invariant
                i <= stmts@.len(),
                forall|j: int|
                    0 <= j < i ==> {
                        &&& (#[trigger] stmts@[j]).0 < self.stmts@.len()
                        &&& stmt_top(self.stmts@[stmts@[j].0 as int]) <= bound
                    },
            decreases stmts@.len() - i,
        {
            if stmts[i].0 >= self.stmts.len() {
                return false;
            }
            if !stmt_below(&self.stmts[stmts[i].0], bound) {
                return false;
            }
            i += 1;
        }
        true
    }

    /// Returns whether everything that `expr` holds comes before position `bound`.
    fn expr_below(&self, expr: &Partial<Expr>, bound: usize) -> (below: bool)
        ensures
            below == self.expr_before(*expr, bound as nat),
    {
        match expr {
            Partial::Absent => true,
            Partial::Present(expr) => match expr {
                Expr::Lit(_) => true,
                Expr::Block(stmts) => self.stmts_below(stmts, bound),
                Expr::Bin(lhs, rhs, _) => lhs.0 < bound && rhs.0 < bound,
                Expr::Un(operand, _) => operand.0 < bound,
                Expr::Call(callee, args) => callee.0 < bound && all_below(args, bound),
                Expr::MethodCall(receiver, _, args) => receiver.0 < bound && all_below(
                    args,
                    bound,
                ),
                Expr::Path(_) => true,
                Expr::RecordInit(_, fields) => fields_below(fields, bound),
                Expr::Field(lhs, _) => lhs.0 < bound,
                Expr::Tuple(elems) => all_below(elems, bound),
                Expr::Array(elems) => all_below(elems, bound),
                Expr::If(cond, then_expr, else_expr) => {
                    let else_below = match else_expr {
                        Some(expr) => expr.0 < bound,
                        None => true,
                    };
                    cond.0 < bound && then_expr.0 < bound && else_below
                },
                Expr::Match(scrutinee, arms) => {
                    let arms_below = match arms {
                        Partial::Present(arms) => arms_below(arms, bound),
                        Partial::Absent => true,
                    };
                    scrutinee.0 < bound && arms_below
                },
                Expr::Assign(target, value) => target.0 < bound && value.0 < bound,
                Expr::AugAssign(target, value, _) => target.0 < bound && value.0 < bound,
            },
        }
    }

    /// Returns whether the arenas are filled from the leaves up and every identifier in them is
    /// bound.
    pub fn is_wf(&self) -> (ok: bool)
        ensures
            ok == self.wf(),
    {
        let mut i: usize = 0;
        while i < self.exprs.len()
            invariant
                i <= self.exprs@.len(),
                forall|j: int|
                    0 <= j < i ==> self.expr_before(#[trigger] self.exprs@[j], j as nat),
            decreases self.exprs@.len() - i,
        {
            if !self.expr_below(&self.exprs[i], i) {
                return false;
            }
            i += 1;
        }
        let mut k: usize = 0;
        while k < self.stmts.len()
            invariant
                k <= self.stmts@.len(),
                forall|j: int|
                    0 <= j < self.exprs@.len() ==> self.expr_before(
                        #[trigger] self.exprs@[j],
                        j as nat,
                    ),
                forall|j: int|
                    0 <= j < k ==> stmt_top(#[trigger] self.stmts@[j]) <= self.exprs@.len(),
            decreases self.stmts@.len() - k,
        {
            if !stmt_below(&self.stmts[k], self.exprs.len()) {
                return false;
            }
            k += 1;
        }
        true
    }
}

} // verus!
