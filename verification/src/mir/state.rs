//! The state of a lowering, as contracts speak of it.

use vstd::prelude::*;

use crate::hir::body::Word;
use crate::hir::ids::{ExprId, PatId};
use crate::hir::typed::LocalBinding;
use crate::mir::input::CheckedBody;
use crate::mir::ir::{
    AddressSpaceKind, BasicBlockId, BlockModel, InstModel, LoopInfo, LoopScope, SyntheticValue,
    TerminatorModel, ValueData, ValueId, ValueModel, ValueOrigin,
};

verus! {

/// A lowering in progress.
#[verifier::ext_equal]
pub struct State {
    pub blocks: Seq<BlockModel>,
    pub values: Seq<ValueModel>,
    /// The value of each expression that has one.
    pub expr_values: Map<usize, ValueId>,
    /// The loops, by the block that tests their condition.
    pub loop_headers: Map<usize, LoopInfo>,
    /// For each element of an array that no expression stands for, the array and the index.
    pub array_index_info: Map<usize, (ValueId, ValueId)>,
    /// The loops around the current point, innermost last.
    pub loop_stack: Seq<LoopScope>,
    /// Where values live, as far as that has been settled.
    pub value_spaces: Map<usize, AddressSpaceKind>,
    /// Where the variables of patterns live, as far as that has been settled.
    pub pat_spaces: Map<usize, AddressSpaceKind>,
}

/// A block without instructions and without terminator.
pub open spec fn open_block() -> BlockModel {
    BlockModel { insts: Seq::empty(), terminator: None }
}

impl State {
    /// Before anything is lowered.
    pub open spec fn start() -> State {
        State {
            blocks: Seq::empty(),
            values: Seq::empty(),
            expr_values: Map::empty(),
            loop_headers: Map::empty(),
            array_index_info: Map::empty(),
            loop_stack: Seq::empty(),
            value_spaces: Map::empty(),
            pat_spaces: Map::empty(),
        }
    }

    /// The identifier that the next new block gets.
    pub open spec fn next_block(self) -> BasicBlockId {
        BasicBlockId(self.blocks.len() as usize)
    }

    /// The identifier that the next new value gets.
    pub open spec fn next_value(self) -> ValueId {
        ValueId(self.values.len() as usize)
    }

    /// A new open block is added.
    pub open spec fn with_block(self) -> State {
        State { blocks: self.blocks.push(open_block()), ..self }
    }

    /// A new value is added.
    pub open spec fn with_value(self, value: ValueModel) -> State {
        State { values: self.values.push(value), ..self }
    }

    /// A block is replaced.
    pub open spec fn with_block_at(self, block: BasicBlockId, model: BlockModel) -> State {
        if block.0 < self.blocks.len() {
            State { blocks: self.blocks.update(block.0 as int, model), ..self }
        } else {
            self
        }
    }

    /// An instruction is added at the end of a block.
    pub open spec fn with_inst(self, block: BasicBlockId, inst: InstModel) -> State {
        let before = self.blocks[block.0 as int];
        self.with_block_at(
            block,
            BlockModel { insts: before.insts.push(inst), terminator: before.terminator },
        )
    }

    /// A block gets its terminator.
    pub open spec fn with_terminator(self, block: BasicBlockId, end: TerminatorModel) -> State {
        let before = self.blocks[block.0 as int];
        self.with_block_at(block, BlockModel { insts: before.insts, terminator: Some(end) })
    }

    /// An expression gets its value.
    pub open spec fn with_expr_value(self, expr: ExprId, value: ValueId) -> State {
        State { expr_values: self.expr_values.insert(expr.0, value), ..self }
    }

    /// A loop is registered under the block that tests its condition.
    pub open spec fn with_loop(self, header: BasicBlockId, info: LoopInfo) -> State {
        State { loop_headers: self.loop_headers.insert(header.0, info), ..self }
    }

    /// A value is known to be an element of an array.
    pub open spec fn with_element(self, value: ValueId, array: ValueId, index: ValueId) -> State {
        State { array_index_info: self.array_index_info.insert(value.0, (array, index)), ..self }
    }

    /// A loop is entered.
    pub open spec fn enter_loop(self, scope: LoopScope) -> State {
        State { loop_stack: self.loop_stack.push(scope), ..self }
    }

    /// The innermost loop is left.
    pub open spec fn leave_loop(self) -> State {
        State { loop_stack: self.loop_stack.drop_last(), ..self }
    }

    /// It is settled where a value lives.
    pub open spec fn with_value_space(self, value: ValueId, space: AddressSpaceKind) -> State {
        State { value_spaces: self.value_spaces.insert(value.0, space), ..self }
    }

    /// It is settled where the variable of a pattern lives.
    pub open spec fn with_pat_space(self, pat: PatId, space: AddressSpaceKind) -> State {
        State { pat_spaces: self.pat_spaces.insert(pat.0, space), ..self }
    }

    /// A new value is the constant `word`.
    pub open spec fn with_word(self, cx: CheckedBody, word: Word) -> State {
        self.with_value(
            ValueData {
                ty: cx.typed_body.u256_ty,
                origin: ValueOrigin::Synthetic(SyntheticValue::Int(word)),
            },
        )
    }

    /// Where the variable that an expression refers to lives: in memory, unless it is settled.
    pub open spec fn expr_space(self, cx: CheckedBody, expr: ExprId) -> AddressSpaceKind {
        if cx.has_expr(expr) {
            match cx.typed_body.exprs@[expr.0 as int].binding {
                Some(LocalBinding::Local { pat, .. }) => if self.pat_spaces.contains_key(pat.0) {
                    self.pat_spaces[pat.0]
                } else {
                    AddressSpaceKind::Memory
                },
                _ => AddressSpaceKind::Memory,
            }
        } else {
            AddressSpaceKind::Memory
        }
    }

    /// Where a value lives. Unless it is settled, a value that stands for a variable lives where
    /// the variable does, and any other lives in memory.
    pub open spec fn space_of(self, cx: CheckedBody, value: ValueId) -> AddressSpaceKind {
        if self.value_spaces.contains_key(value.0) {
            self.value_spaces[value.0]
        } else if value.0 < self.values.len() {
            match self.values[value.0 as int].origin {
                ValueOrigin::Expr(expr) => self.expr_space(cx, expr),
                _ => AddressSpaceKind::Memory,
            }
        } else {
            AddressSpaceKind::Memory
        }
    }
}

} // verus!
