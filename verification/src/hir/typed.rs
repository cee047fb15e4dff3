//! What the type checker knows of a body.

use vstd::prelude::*;

use crate::hir::body::{FieldIndex, Word};
use crate::hir::ids::{ExprId, IdentId, PatId};

verus! {

/// The position of a type in the type table.
#[derive(Debug, Clone, Copy, PartialEq, Eq, Hash, Structural)]
pub struct TyId(pub usize);

/// The position of a callable in its table.
#[derive(Debug, Clone, Copy, PartialEq, Eq, Hash, Structural)]
pub struct CallableId(pub usize);

/// The position of an enum variant in its table.
#[derive(Debug, Clone, Copy, PartialEq, Eq, Hash, Structural)]
pub struct VariantId(pub usize);

/// The root of a region of code that is deployed on its own.
#[derive(Debug, Clone, Copy, PartialEq, Eq, Hash, Structural)]
pub struct CodeRegionId(pub usize);

/// Primitive types.
#[derive(Debug, Clone, Copy, PartialEq, Eq, Hash, Structural)]
pub enum PrimTy {
    Bool,
    U8,
    U256,
    I256,
    Str,
    Array,
}

/// User-defined types.
#[derive(Debug, Clone, Copy, PartialEq, Eq, Hash, Structural)]
pub enum AdtRef {
    Struct(IdentId),
    Enum(IdentId),
    Contract(IdentId),
}

/// What a type is before it is applied to its arguments.
#[derive(Debug, Clone, Copy, PartialEq, Eq, Hash, Structural)]
pub enum TyBase {
    Prim(PrimTy),
    Tuple,
    Adt(AdtRef),
    Func,
    Invalid,
}

/// A field: its name, its type, and its offset from the start of the value that holds it.
#[derive(Debug, Clone, Copy, PartialEq, Eq, Hash, Structural)]
pub struct FieldSlot {
    pub name: Option<IdentId>,
    pub ty: TyId,
    pub offset_bytes: u64,
}

/// A type: its base, the arguments the base is applied to, its fields, the number of elements of
/// an array, and its size.
#[derive(Debug, Clone, PartialEq, Eq, Hash)]
pub struct TyData {
    pub base: TyBase,
    pub args: Vec<TyId>,
    pub fields: Vec<FieldSlot>,
    pub length: Option<Word>,
    pub size_bytes: u64,
}

/// A function or a method, with the type of its receiver.
#[derive(Debug, Clone, Copy, PartialEq, Eq, Hash, Structural)]
pub struct CallableDef {
    pub receiver_ty: Option<TyId>,
}

/// How a value of an enum variant is laid out.
#[derive(Debug, Clone, PartialEq, Eq, Hash)]
pub struct VariantLayout {
    pub discriminant: u64,
    pub size_bytes: u64,
    pub fields: Vec<FieldSlot>,
}

/// What a name in a body refers to.
#[derive(Debug, Clone, Copy, PartialEq, Eq, Hash, Structural)]
pub enum LocalBinding {
    Local { pat: PatId, is_mut: bool },
    Param { index: usize },
}

/// What the pattern of a match arm tests.
#[derive(Debug, Clone, Copy, PartialEq, Eq, Hash, Structural)]
pub enum MatchArmPattern {
    /// The scrutinee, or its discriminant, is this word.
    Value(Word),
    /// Nothing.
    Wildcard,
}

/// What is known of one expression.
#[derive(Debug, Clone, Copy, PartialEq, Eq, Hash, Structural)]
pub struct ExprInfo {
    pub ty: TyId,
    /// The callable that a call calls.
    pub callable: Option<CallableId>,
    /// The binding that a name refers to.
    pub binding: Option<LocalBinding>,
    /// The enum variant that a path names.
    pub variant: Option<VariantId>,
    /// The code region that a path names.
    pub code_region: Option<CodeRegionId>,
}

/// What is known of one pattern.
#[derive(Debug, Clone, Copy, PartialEq, Eq, Hash, Structural)]
pub struct PatInfo {
    pub ty: TyId,
    pub binding: Option<LocalBinding>,
    /// What the pattern tests as the pattern of a match arm, where a switch can test it.
    pub arm: Option<MatchArmPattern>,
}

/// Where the references to a binding stand.
#[derive(Debug, Clone, PartialEq, Eq, Hash)]
pub struct References {
    pub binding: LocalBinding,
    pub exprs: Vec<ExprId>,
}

/// The type and the offset of an accessed field.
#[derive(Debug, Clone, Copy, PartialEq, Eq, Hash, Structural)]
pub struct FieldAccessInfo {
    pub field_ty: TyId,
    pub offset_bytes: u64,
}

/// The types of a body's expressions and what its names refer to.
#[derive(Debug, Clone, PartialEq, Eq, Hash)]
pub struct TypedBody {
    pub types: Vec<TyData>,
    pub unit_ty: TyId,
    pub bool_ty: TyId,
    pub u256_ty: TyId,
    pub exprs: Vec<ExprInfo>,
    pub pats: Vec<PatInfo>,
    pub callables: Vec<CallableDef>,
    pub variants: Vec<VariantLayout>,
    pub references: Vec<References>,
}

/// The place of the first field among the first `n` of `fields` that is named `name`.
pub open spec fn named_slot(fields: Seq<FieldSlot>, name: IdentId, n: nat) -> Option<FieldSlot>
    decreases n,
{
    if n == 0 {
        None
    } else {
        match named_slot(fields, name, (n - 1) as nat) {
            Some(slot) => Some(slot),
            None => if fields[n - 1].name == Some(name) {
                Some(fields[n - 1])
            } else {
                None
            },
        }
    }
}

/// The field of `fields` that `index` names.
pub open spec fn field_slot(fields: Seq<FieldSlot>, index: FieldIndex) -> Option<FieldSlot> {
    match index {
        FieldIndex::Ident(name) => named_slot(fields, name, fields.len()),
        FieldIndex::Index(i) => if i < fields.len() {
            Some(fields[i as int])
        } else {
            None
        },
    }
}

/// The first expression among the references to `binding` in the first `n` entries of `table`.
pub open spec fn first_reference_in(
    table: Seq<References>,
    binding: LocalBinding,
    n: nat,
) -> Option<ExprId>
    decreases n,
{
    if n == 0 {
        None
    } else {
        match first_reference_in(table, binding, (n - 1) as nat) {
            Some(expr) => Some(expr),
            None => if table[n - 1].binding == binding && table[n - 1].exprs@.len() > 0 {
                Some(table[n - 1].exprs@[0])
            } else {
                None
            },
        }
    }
}

impl TypedBody {
    /// Whether `ty` is a type of the table.
    pub open spec fn has_ty(self, ty: TyId) -> bool {
        ty.0 < self.types@.len()
    }

    /// Whether every identifier in the tables is bound, for a body of `exprs` expressions, and
    /// every array type has an element type and a number of elements.
    pub open spec fn wf(self, exprs: nat) -> bool {
        &&& self.has_ty(self.bool_ty)
        &&& self.has_ty(self.u256_ty)
        &&& self.exprs@.len() == exprs
        &&& forall|i: int|
            0 <= i < exprs ==> {
                &&& self.has_ty((#[trigger] self.exprs@[i]).ty)
                &&& self.exprs@[i].callable matches Some(c) ==> c.0 < self.callables@.len()
                &&& self.exprs@[i].variant matches Some(v) ==> v.0 < self.variants@.len()
            }
        &&& forall|i: int|
            0 <= i < self.callables@.len() ==> ((
            #[trigger] self.callables@[i]).receiver_ty matches Some(ty) ==> self.has_ty(ty))
        &&& forall|i: int|
            0 <= i < self.types@.len() ==> ((#[trigger] self.types@[i]).base == TyBase::Prim(
                PrimTy::Array,
            ) ==> self.types@[i].args@.len() > 0 && self.types@[i].length is Some)
        &&& forall|i: int, j: int|
            0 <= i < self.types@.len() && 0 <= j < self.types@[i].fields@.len() ==> self.has_ty(
                (#[trigger] self.types@[i].fields@[j]).ty,
            )
        &&& forall|i: int, j: int|
            0 <= i < self.references@.len() && 0 <= j < self.references@[i].exprs@.len() ==> (
            #[trigger] self.references@[i].exprs@[j]).0 < exprs
    }

    /// Returns whether every identifier in the tables is bound, for a body of `exprs` expressions,
    /// and every array type has an element type and a number of elements.
    pub fn is_wf(&self, exprs: usize) -> (ok: bool)
        ensures
            ok == self.wf(exprs as nat),
    {
        if self.bool_ty.0 >= self.types.len() || self.u256_ty.0 >= self.types.len() {
            return false;
        }
        if self.exprs.len() != exprs {
            return false;
        }
        self.exprs_bound() && self.callables_bound() && self.types_bound()
            && self.references_bound()
    }

    /// Returns whether what is known of the expressions is bound.
    fn exprs_bound(&self) -> (ok: bool)
        ensures
            ok == (forall|i: int|
                0 <= i < self.exprs@.len() ==> {
                    &&& self.has_ty((#[trigger] self.exprs@[i]).ty)
                    &&& self.exprs@[i].callable matches Some(c) ==> c.0 < self.callables@.len()
                    &&& self.exprs@[i].variant matches Some(v) ==> v.0 < self.variants@.len()
                }),
    {
        let mut i: usize = 0;
        while i < self.exprs.len()
            invariant
                i <= self.exprs@.len(),
                forall|j: int|
                    0 <= j < i ==> {
                        &&& self.has_ty((#[trigger] self.exprs@[j]).ty)
                        &&& self.exprs@[j].callable matches Some(c) ==> c.0
                            < self.callables@.len()
                        &&& self.exprs@[j].variant matches Some(v) ==> v.0
                            < self.variants@.len()
                    },
            decreases self.exprs@.len() - i,
        {
            let info = self.exprs[i];
            if info.ty.0 >= self.types.len() {
                return false;
            }
            if let Some(callable) = info.callable {
                if callable.0 >= self.callables.len() {
                    return false;
                }
            }
            if let Some(variant) = info.variant {
                if variant.0 >= self.variants.len() {
                    return false;
                }
            }
            i += 1;
        }
        true
    }

    /// Returns whether the types of all receivers are bound.
    fn callables_bound(&self) -> (ok: bool)
        ensures
            ok == (forall|i: int|
                0 <= i < self.callables@.len() ==> ((
                #[trigger] self.callables@[i]).receiver_ty matches Some(ty) ==> self.has_ty(ty))),
    {
        let mut i: usize = 0;
        while i < self.callables.len()
            invariant
                i <= self.callables@.len(),
                forall|j: int|
                    0 <= j < i ==> ((
                    #[trigger] self.callables@[j]).receiver_ty matches Some(ty) ==> self.has_ty(
                        ty,
                    )),
            decreases self.callables@.len() - i,
        {
            if let Some(ty) = self.callables[i].receiver_ty {
                if ty.0 >= self.types.len() {
                    return false;
                }
            }
            i += 1;
        }
        true
    }

    /// Whether the type at position `i` has an element type and a number of elements if it is an
    /// array, and the types of its fields are bound.
    spec fn type_bound(self, i: int) -> bool {
        &&& self.types@[i].base == TyBase::Prim(PrimTy::Array) ==> self.types@[i].args@.len() > 0
            && self.types@[i].length is Some
        &&& forall|j: int|
            0 <= j < self.types@[i].fields@.len() ==> self.has_ty(
                (#[trigger] self.types@[i].fields@[j]).ty,
            )
    }

    /// Returns whether array types have an element type and a number of elements, and the types
    /// of all fields are bound.
    fn types_bound(&self) -> (ok: bool)
        ensures
            ok == {
                &&& forall|i: int|
                    0 <= i < self.types@.len() ==> ((#[trigger] self.types@[i]).base
                        == TyBase::Prim(PrimTy::Array) ==> self.types@[i].args@.len() > 0
                        && self.types@[i].length is Some)
                &&& forall|i: int, j: int|
                    0 <= i < self.types@.len() && 0 <= j < self.types@[i].fields@.len()
                        ==> self.has_ty((#[trigger] self.types@[i].fields@[j]).ty)
            },
    {
        let mut i: usize = 0;
        while i < self.types.len()
            invariant
                i <= self.types@.len(),
                forall|k: int| 0 <= k < i ==> #[trigger] self.type_bound(k),
            decreases self.types@.len() - i,
        {
            let data = &self.types[i];
            if matches!(data.base, TyBase::Prim(PrimTy::Array)) {
                if data.args.len() == 0 || data.length.is_none() {
                    return false;
                }
            }
            let mut j: usize = 0;
            while j < data.fields.len()
                invariant
                    i < self.types@.len(),
                    *data == self.types@[i as int],
                    j <= data.fields@.len(),
                    forall|k: int|
                        0 <= k < j ==> self.has_ty(
                            (#[trigger] self.types@[i as int].fields@[k]).ty,
                        ),
                decreases data.fields@.len() - j,
            {
                if data.fields[j].ty.0 >= self.types.len() {
                    assert(!self.has_ty(self.types@[i as int].fields@[j as int].ty));
                    return false;
                }
                j += 1;
            }
            assert(self.type_bound(i as int));
            i += 1;
        }
        assert forall|i: int, j: int|
            0 <= i < self.types@.len() && 0 <= j < self.types@[i].fields@.len() implies self.has_ty(
            (#[trigger] self.types@[i].fields@[j]).ty,
        ) by {
            assert(self.type_bound(i));
        }
        assert forall|i: int| 0 <= i < self.types@.len() implies ((
        #[trigger] self.types@[i]).base == TyBase::Prim(PrimTy::Array)
            ==> self.types@[i].args@.len() > 0 && self.types@[i].length is Some) by {
            assert(self.type_bound(i));
        }
        true
    }

    /// Whether all references of the entry at position `i` are bound.
    spec fn entry_bound(self, i: int) -> bool {
        forall|j: int|
            0 <= j < self.references@[i].exprs@.len() ==> (
            #[trigger] self.references@[i].exprs@[j]).0 < self.exprs@.len()
    }

    /// Returns whether all references are bound.
    fn references_bound(&self) -> (ok: bool)
        ensures
            ok == (forall|i: int, j: int|
                0 <= i < self.references@.len() && 0 <= j < self.references@[i].exprs@.len() ==> (
                #[trigger] self.references@[i].exprs@[j]).0 < self.exprs@.len()),
    {
        let mut i: usize = 0;
        while i < self.references.len()
            invariant
                i <= self.references@.len(),
                forall|k: int| 0 <= k < i ==> #[trigger] self.entry_bound(k),
            decreases self.references@.len() - i,
        {
            let entry = &self.references[i];
            let mut j: usize = 0;
            while j < entry.exprs.len()
                invariant
                    i < self.references@.len(),
                    *entry == self.references@[i as int],
                    j <= entry.exprs@.len(),
                    forall|k: int|
                        0 <= k < j ==> (#[trigger] self.references@[i as int].exprs@[k]).0
                            < self.exprs@.len(),
                decreases entry.exprs@.len() - j,
            {
                if entry.exprs[j].0 >= self.exprs.len() {
                    assert(self.references@[i as int].exprs@[j as int].0 >= self.exprs@.len());
                    return false;
                }
                j += 1;
            }
            assert(self.entry_bound(i as int));
            i += 1;
        }
        assert forall|i: int, j: int|
            0 <= i < self.references@.len() && 0 <= j
                < self.references@[i].exprs@.len() implies (
        #[trigger] self.references@[i].exprs@[j]).0 < self.exprs@.len() by {
            assert(self.entry_bound(i));
        }
        true
    }

    /// The type of an expression.
    pub open spec fn ty_of(self, expr: ExprId) -> TyId {
        self.exprs@[expr.0 as int].ty
    }

    /// The fields of a type.
    pub open spec fn fields_of(self, ty: TyId) -> Seq<FieldSlot> {
        self.types@[ty.0 as int].fields@
    }

    /// Whether a type is the tuple without fields.
    pub open spec fn is_unit(self, ty: TyId) -> bool {
        self.types@[ty.0 as int].base == TyBase::Tuple && self.fields_of(ty).len() == 0
    }

    /// Whether a type is an array.
    pub open spec fn is_array(self, ty: TyId) -> bool {
        self.types@[ty.0 as int].base == TyBase::Prim(PrimTy::Array)
    }

    /// The number of elements of an array type.
    pub open spec fn length_of(self, ty: TyId) -> Word {
        self.types@[ty.0 as int].length->0
    }

    /// Whether a type is a struct.
    pub open spec fn is_struct(self, ty: TyId) -> bool {
        self.types@[ty.0 as int].base matches TyBase::Adt(AdtRef::Struct(_))
    }

    /// The type and the offset of the field of `ty` that `index` names.
    pub open spec fn field_info(self, ty: TyId, index: FieldIndex) -> Option<FieldAccessInfo> {
        match field_slot(self.fields_of(ty), index) {
            Some(slot) => Some(
                FieldAccessInfo { field_ty: slot.ty, offset_bytes: slot.offset_bytes },
            ),
            None => None,
        }
    }

    /// The binding that a pattern introduces.
    pub open spec fn binding_of(self, pat: PatId) -> Option<LocalBinding> {
        if pat.0 < self.pats@.len() {
            self.pats@[pat.0 as int].binding
        } else {
            None
        }
    }

    /// The type of the values that a pattern matches.
    pub open spec fn ty_of_pat(self, pat: PatId) -> TyId {
        if pat.0 < self.pats@.len() {
            self.pats@[pat.0 as int].ty
        } else {
            self.u256_ty
        }
    }

    /// The first expression that refers to the binding that a pattern introduces.
    pub open spec fn first_use(self, pat: PatId) -> Option<ExprId> {
        match self.binding_of(pat) {
            Some(binding) => first_reference_in(
                self.references@,
                binding,
                self.references@.len(),
            ),
            None => None,
        }
    }

    /// What a pattern tests in a match arm.
    pub open spec fn arm_pattern(self, pat: PatId) -> Option<MatchArmPattern> {
        if pat.0 < self.pats@.len() {
            self.pats@[pat.0 as int].arm
        } else {
            None
        }
    }

    /// Returns the type of an expression.
    pub fn expr_ty(&self, expr: ExprId) -> (ty: TyId)
        requires
            expr.0 < self.exprs@.len(),
        ensures
            ty == self.ty_of(expr),
    {
        self.exprs[expr.0].ty
    }

    /// Returns the number of fields of a type.
    pub fn field_count(&self, ty: TyId) -> (count: usize)
        requires
            self.has_ty(ty),
        ensures
            count == self.fields_of(ty).len(),
    {
        self.types[ty.0].fields.len()
    }

    /// Returns the number of elements of an array type.
    pub fn array_length(&self, ty: TyId) -> (length: Word)
        requires
            self.has_ty(ty),
            self.types@[ty.0 as int].length is Some,
        ensures
            length == self.length_of(ty),
    {
        self.types[ty.0].length.unwrap()
    }

    /// Returns whether a type is a tuple.
    pub fn is_tuple(&self, ty: TyId) -> (tuple: bool)
        requires
            self.has_ty(ty),
        ensures
            tuple == (self.types@[ty.0 as int].base == TyBase::Tuple),
    {
        matches!(self.types[ty.0].base, TyBase::Tuple)
    }

    /// Returns the type of the values that a pattern matches.
    pub fn pat_ty(&self, pat: PatId) -> (ty: TyId)
        ensures
            ty == self.ty_of_pat(pat),
    {
        if pat.0 < self.pats.len() {
            self.pats[pat.0].ty
        } else {
            self.u256_ty
        }
    }

    /// Returns the binding that a pattern introduces.
    pub fn pat_binding(&self, pat: PatId) -> (binding: Option<LocalBinding>)
        ensures
            binding == self.binding_of(pat),
    {
        if pat.0 < self.pats.len() {
            self.pats[pat.0].binding
        } else {
            None
        }
    }

    /// Returns the first expression that refers to `binding`.
    pub fn first_reference(&self, binding: LocalBinding) -> (expr: Option<ExprId>)
        ensures
            expr == first_reference_in(self.references@, binding, self.references@.len()),
    {
        let mut i: usize = 0;
        while i < self.references.len()
            invariant
                i <= self.references@.len(),
                first_reference_in(self.references@, binding, i as nat) is None,
            decreases self.references@.len() - i,
        {
            let entry = &self.references[i];
            if entry.binding == binding && entry.exprs.len() > 0 {
                proof {
                    lemma_first_reference_stays(
                        self.references@,
                        binding,
                        (i + 1) as nat,
                        self.references@.len(),
                    );
                }
                return Some(entry.exprs[0]);
            }
            i += 1;
        }
        None
    }

    /// Returns the first expression that refers to the binding of a pattern.
    pub fn pat_first_use(&self, pat: PatId) -> (expr: Option<ExprId>)
        ensures
            expr == self.first_use(pat),
    {
        match self.pat_binding(pat) {
            Some(binding) => self.first_reference(binding),
            None => None,
        }
    }

    /// Returns what a pattern tests in a match arm.
    pub fn pat_arm(&self, pat: PatId) -> (arm: Option<MatchArmPattern>)
        ensures
            arm == self.arm_pattern(pat),
    {
        if pat.0 < self.pats.len() {
            self.pats[pat.0].arm
        } else {
            None
        }
    }

    /// Returns the type and the offset of the field of `ty` that `index` names.
    pub fn field_access_info(&self, ty: TyId, index: FieldIndex) -> (info: Option<FieldAccessInfo>)
        requires
            self.has_ty(ty),
        ensures
            info == self.field_info(ty, index),
    {
        let fields = &self.types[ty.0].fields;
        match index {
            FieldIndex::Index(i) => {
                if i < fields.len() {
                    Some(
                        FieldAccessInfo {
                            field_ty: fields[i].ty,
                            offset_bytes: fields[i].offset_bytes,
                        },
                    )
                } else {
                    None
                }
            },
            FieldIndex::Ident(name) => {
                let mut i: usize = 0;
                while i < fields.len()
                    invariant
                        i <= fields@.len(),
                        fields@ == self.fields_of(ty),
                        index == FieldIndex::Ident(name),
                        named_slot(fields@, name, i as nat) is None,
                    decreases fields@.len() - i,
                {
                    let slot = fields[i];
                    let found = match slot.name {
                        Some(own) => own == name,
                        None => false,
                    };
                    if found {
                        proof {
                            lemma_named_slot_stays(
                                fields@,
                                name,
                                (i + 1) as nat,
                                fields@.len(),
                            );
                        }
                        return Some(
                            FieldAccessInfo {
                                field_ty: slot.ty,
                                offset_bytes: slot.offset_bytes,
                            },
                        );
                    }
                    i += 1;
                }
                None
            },
        }
    }
}

/// A field found among the first `m` is the one found among more.
proof fn lemma_named_slot_stays(fields: Seq<FieldSlot>, name: IdentId, m: nat, n: nat)
    requires
        m <= n,
        named_slot(fields, name, m) is Some,
    ensures
        named_slot(fields, name, n) == named_slot(fields, name, m),
    decreases n,
{
    if m < n {
        lemma_named_slot_stays(fields, name, m, (n - 1) as nat);
    }
}

/// A field that is found is one of the fields.
proof fn lemma_named_slot_listed(fields: Seq<FieldSlot>, name: IdentId, n: nat)
    requires
        n <= fields.len(),
    ensures
        named_slot(fields, name, n) matches Some(slot) ==> exists|i: int|
            0 <= i < n && #[trigger] fields[i] == slot,
    decreases n,
{
    if n > 0 {
        lemma_named_slot_listed(fields, name, (n - 1) as nat);
        if named_slot(fields, name, (n - 1) as nat) is None {
            assert(fields[n - 1] == fields[n - 1]);
        }
    }
}

/// The type of an accessed field is a type of the table.
pub proof fn lemma_field_ty_known(typed: TypedBody, exprs: nat, ty: TyId, index: FieldIndex)
    requires
        typed.wf(exprs),
        typed.has_ty(ty),
    ensures
        typed.field_info(ty, index) matches Some(info) ==> typed.has_ty(info.field_ty),
{
    let fields = typed.fields_of(ty);
    if let Some(slot) = field_slot(fields, index) {
        if let FieldIndex::Ident(name) = index {
            lemma_named_slot_listed(fields, name, fields.len());
        }
        let j = choose|j: int| 0 <= j < fields.len() && #[trigger] fields[j] == slot;
        assert(typed.has_ty(typed.types@[ty.0 as int].fields@[j].ty));
    }
}

/// A reference found in the first `m` entries is the one found in more.
proof fn lemma_first_reference_stays(
    table: Seq<References>,
    binding: LocalBinding,
    m: nat,
    n: nat,
)
    requires
        m <= n,
        first_reference_in(table, binding, m) is Some,
    ensures
        first_reference_in(table, binding, n) == first_reference_in(table, binding, m),
    decreases n,
{
    if m < n {
        lemma_first_reference_stays(table, binding, m, (n - 1) as nat);
    }
}

/// The first reference to a binding stands in the table.
pub proof fn lemma_first_reference_listed(table: Seq<References>, binding: LocalBinding, n: nat)
    requires
        n <= table.len(),
    ensures
        first_reference_in(table, binding, n) matches Some(expr) ==> exists|i: int, j: int|
            0 <= i < n && 0 <= j < table[i].exprs@.len() && #[trigger] table[i].exprs@[j] == expr,
    decreases n,
{
    if n > 0 {
        lemma_first_reference_listed(table, binding, (n - 1) as nat);
        if first_reference_in(table, binding, (n - 1) as nat) is None
            && first_reference_in(table, binding, n) is Some {
            assert(table[n - 1].exprs@[0] == first_reference_in(table, binding, n)->0);
        }
    }
}

} // verus!
