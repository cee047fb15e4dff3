//! The builder that lowering works on, and its elementary steps.

use std::collections::HashMap;

use vstd::prelude::*;

use crate::hir::body::Word;
use crate::hir::ids::{ExprId, PatId};
use crate::hir::typed::LocalBinding;
use crate::mir::input::CheckedBody;
use crate::mir::ir::{
    AddressSpaceKind, BasicBlock, BasicBlockId, LoopInfo, LoopScope, MirInst, SwitchTarget,
    SyntheticValue, Terminator, ValueData, ValueId, ValueOrigin,
};
use crate::mir::state;
use crate::mir::state::State;

verus! {

broadcast use vstd::std_specs::hash::group_hash_axioms;

/// A lowered body.
#[derive(Debug, Clone, PartialEq, Eq)]
pub struct MirBody {
    pub blocks: Vec<BasicBlock>,
    pub values: Vec<ValueData<Vec<ValueId>>>,
    /// The value of each expression that has one.
    pub expr_values: HashMap<usize, ValueId>,
    /// The loops, by the block that tests their condition.
    pub loop_headers: HashMap<usize, LoopInfo>,
    /// For each element of an array that no expression stands for, the array and the index.
    pub array_index_info: HashMap<usize, (ValueId, ValueId)>,
}

/// Lowers one body.
pub struct MirBuilder<'a> {
    pub input: &'a CheckedBody,
    pub mir_body: MirBody,
    /// The loops around the current point, innermost last.
    pub loop_stack: Vec<LoopScope>,
    pub value_spaces: HashMap<usize, AddressSpaceKind>,
    pub pat_spaces: HashMap<usize, AddressSpaceKind>,
}

impl<'a> View for MirBuilder<'a> {
    type V = State;

    open spec fn view(&self) -> State {
        State {
            blocks: Seq::new(self.mir_body.blocks@.len(), |i: int| self.mir_body.blocks@[i]@),
            values: Seq::new(self.mir_body.values@.len(), |i: int| self.mir_body.values@[i]@),
            expr_values: self.mir_body.expr_values@,
            loop_headers: self.mir_body.loop_headers@,
            array_index_info: self.mir_body.array_index_info@,
            loop_stack: self.loop_stack@,
            value_spaces: self.value_spaces@,
            pat_spaces: self.pat_spaces@,
        }
    }
}

impl<'a> MirBuilder<'a> {
    /// Whether the input is well-formed.
    pub open spec fn wf(self) -> bool {
        self.input.wf()
    }

    /// Whether `block` is one of the blocks.
    pub open spec fn has_block(self, block: BasicBlockId) -> bool {
        block.0 < self@.blocks.len()
    }

    /// Begins to lower a body.
    pub fn new(input: &'a CheckedBody) -> (builder: Self)
        ensures
            builder.input == input,
            builder@ == State::start(),
    {
        let mir_body = MirBody {
            blocks: Vec::new(),
            values: Vec::new(),
            expr_values: HashMap::new(),
            loop_headers: HashMap::new(),
            array_index_info: HashMap::new(),
        };
        MirBuilder {
            input,
            mir_body,
            loop_stack: Vec::new(),
            value_spaces: HashMap::new(),
            pat_spaces: HashMap::new(),
        }
    }

    /// Adds an open block.
    pub fn alloc_block(&mut self) -> (block: BasicBlockId)
        ensures
            final(self).input == old(self).input,
            block == old(self)@.next_block(),
            final(self).has_block(block),
            final(self)@ == old(self)@.with_block(),
    {
        let block = BasicBlockId(self.mir_body.blocks.len());
        let fresh = BasicBlock { insts: Vec::new(), terminator: None };
        assert(fresh@ =~= state::open_block());
        self.mir_body.blocks.push(fresh);
        assert(self@.blocks == old(self)@.blocks.push(state::open_block()));
        block
    }

    /// Adds a value.
    pub fn alloc_value(&mut self, value: ValueData<Vec<ValueId>>) -> (id: ValueId)
        ensures
            final(self).input == old(self).input,
            id == old(self)@.next_value(),
            final(self)@ == old(self)@.with_value(value@),
    {
        let id = ValueId(self.mir_body.values.len());
        self.mir_body.values.push(value);
        assert(self@.values == old(self)@.values.push(value@));
        id
    }

    /// Adds an instruction at the end of a block.
    pub fn push_inst(&mut self, block: BasicBlockId, inst: MirInst<Vec<ValueId>>)
        requires
            old(self).has_block(block),
        ensures
            final(self).input == old(self).input,
            final(self)@ == old(self)@.with_inst(block, inst@),
    {
        let ghost before = self.mir_body.blocks@[block.0 as int];
        let ghost inst_view = inst@;
        self.mir_body.blocks[block.0].insts.push(inst);
        let ghost after = self.mir_body.blocks@[block.0 as int];
        assert(after@.insts == before@.insts.push(inst_view));
        assert(self@.blocks == old(self)@.with_inst(block, inst_view).blocks);
    }

    /// Gives a block its terminator.
    pub fn set_terminator(&mut self, block: BasicBlockId, end: Terminator<Vec<SwitchTarget>>)
        requires
            old(self).has_block(block),
        ensures
            final(self).input == old(self).input,
            final(self)@ == old(self)@.with_terminator(block, end@),
    {
        let ghost before = self.mir_body.blocks@[block.0 as int];
        self.mir_body.blocks[block.0].terminator = Some(end);
        let ghost after = self.mir_body.blocks@[block.0 as int];
        assert(after@.insts == before@.insts);
        assert(self@.blocks == old(self)@.with_terminator(block, end@).blocks);
    }

    /// Gives an expression its value.
    pub fn set_expr_value(&mut self, expr: ExprId, value: ValueId)
        ensures
            final(self).input == old(self).input,
            final(self)@ == old(self)@.with_expr_value(expr, value),
    {
        self.mir_body.expr_values.insert(expr.0, value);
    }

    /// Registers a loop under the block that tests its condition.
    pub fn register_loop(&mut self, header: BasicBlockId, info: LoopInfo)
        ensures
            final(self).input == old(self).input,
            final(self)@ == old(self)@.with_loop(header, info),
    {
        self.mir_body.loop_headers.insert(header.0, info);
    }

    /// Records that a value is an element of an array.
    pub fn set_element(&mut self, value: ValueId, array: ValueId, index: ValueId)
        ensures
            final(self).input == old(self).input,
            final(self)@ == old(self)@.with_element(value, array, index),
    {
        self.mir_body.array_index_info.insert(value.0, (array, index));
    }

    /// Settles where a value lives.
    pub fn set_value_address_space(&mut self, value: ValueId, space: AddressSpaceKind)
        ensures
            final(self).input == old(self).input,
            final(self)@ == old(self)@.with_value_space(value, space),
    {
        self.value_spaces.insert(value.0, space);
    }

    /// Settles where the variable of a pattern lives.
    pub fn set_pat_address_space(&mut self, pat: PatId, space: AddressSpaceKind)
        ensures
            final(self).input == old(self).input,
            final(self)@ == old(self)@.with_pat_space(pat, space),
    {
        self.pat_spaces.insert(pat.0, space);
    }

    /// Enters a loop.
    pub fn push_loop(&mut self, scope: LoopScope)
        ensures
            final(self).input == old(self).input,
            final(self)@ == old(self)@.enter_loop(scope),
    {
        self.loop_stack.push(scope);
    }

    /// Leaves the innermost loop.
    pub fn pop_loop(&mut self)
        requires
            old(self)@.loop_stack.len() > 0,
        ensures
            final(self).input == old(self).input,
            final(self)@ == old(self)@.leave_loop(),
    {
        self.loop_stack.pop();
    }

    /// Adds a constant.
    pub fn synthetic_u256(&mut self, word: Word) -> (value: ValueId)
        ensures
            final(self).input == old(self).input,
            value == old(self)@.next_value(),
            final(self)@ == old(self)@.with_word(*old(self).input, word),
    {
        let ty = self.input.typed_body.u256_ty;
        let data = ValueData {
            ty,
            origin: ValueOrigin::Synthetic(SyntheticValue::Int(word)),
        };
        self.alloc_value(data)
    }

    /// Returns where a value lives.
    pub fn value_address_space(&self, value: ValueId) -> (space: AddressSpaceKind)
        requires
            self.wf(),
        ensures
            space == self@.space_of(*self.input, value),
    {
        match self.value_spaces.get(&value.0) {
            Some(space) => *space,
            None => {
                if value.0 < self.mir_body.values.len() {
                    let ghost model = self.mir_body.values@[value.0 as int]@;
                    assert(self@.values[value.0 as int] == model);
                    match &self.mir_body.values[value.0].origin {
                        ValueOrigin::Expr(expr) => self.expr_address_space(*expr),
                        _ => AddressSpaceKind::Memory,
                    }
                } else {
                    AddressSpaceKind::Memory
                }
            },
        }
    }

    /// Returns where the variable that an expression refers to lives.
    fn expr_address_space(&self, expr: ExprId) -> (space: AddressSpaceKind)
        requires
            self.wf(),
        ensures
            space == self@.expr_space(*self.input, expr),
    {
        if expr.0 < self.input.body.exprs.len() {
            match self.input.typed_body.exprs[expr.0].binding {
                Some(LocalBinding::Local { pat, .. }) => match self.pat_spaces.get(&pat.0) {
                    Some(space) => *space,
                    None => AddressSpaceKind::Memory,
                },
                _ => AddressSpaceKind::Memory,
            }
        } else {
            AddressSpaceKind::Memory
        }
    }
}

} // verus!
