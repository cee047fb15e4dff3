//! Items: what a module is made of.

use vstd::prelude::*;
use vstd::std_specs::convert::{FromSpec, FromSpecImpl};

use crate::hir::ids::{
    AttrListId, BodyId, FnParamListId, GenericParamListId, IdentId, PathId, TypeId, UseTreeId,
    WherePredicateId,
};

verus! {

/// Where an item stands in the source: from the byte at `start` up to the byte before `end`.
#[derive(Debug, Clone, Copy, PartialEq, Eq, Hash, Structural)]
pub struct HirOrigin {
    pub start: u32,
    pub end: u32,
}

/// A function.
#[derive(Debug, Clone, PartialEq, Eq, Hash)]
pub struct Fn {
    pub name: IdentId,
    pub generic_params: GenericParamListId,
    pub where_predicate: WherePredicateId,
    pub params: FnParamListId,
    pub ret_ty: Option<TypeId>,
    pub modifier: ItemModifier,
    pub attributes: AttrListId,
    pub body: Option<BodyId>,
    pub origin: HirOrigin,
}

/// A struct.
#[derive(Debug, Clone, PartialEq, Eq, Hash)]
pub struct Struct {
    pub name: IdentId,
    pub is_pub: bool,
    pub generic_params: GenericParamListId,
    pub where_predicate: WherePredicateId,
    pub attributes: AttrListId,
    pub fields: RecordFieldListId,
    pub origin: HirOrigin,
}

/// A contract.
#[derive(Debug, Clone, PartialEq, Eq, Hash)]
pub struct Contract {
    pub name: IdentId,
    pub is_pub: bool,
    pub attributes: AttrListId,
    pub fields: RecordFieldListId,
    pub origin: HirOrigin,
}

/// An enum.
#[derive(Debug, Clone, PartialEq, Eq, Hash)]
pub struct Enum {
    pub name: IdentId,
    pub is_pub: bool,
    pub generic_params: GenericParamListId,
    pub attributes: AttrListId,
    pub where_predicate: WherePredicateId,
    pub variants: EnumVariantListId,
    pub origin: HirOrigin,
}

/// Another name for a type.
#[derive(Debug, Clone, PartialEq, Eq, Hash)]
pub struct TypeAlias {
    pub name: IdentId,
    pub is_pub: bool,
    pub generic_params: GenericParamListId,
    pub attributes: AttrListId,
    pub where_predicate: WherePredicateId,
    pub ty: TypeId,
    pub origin: HirOrigin,
}

/// The functions of a type.
#[derive(Debug, Clone, PartialEq, Eq, Hash)]
pub struct Impl {
    pub ty: TypeId,
    pub generic_params: GenericParamListId,
    pub attributes: AttrListId,
    pub where_predicate: WherePredicateId,
    pub items: ImplItemListId,
    pub origin: HirOrigin,
}

/// A trait.
#[derive(Debug, Clone, PartialEq, Eq, Hash)]
pub struct Trait {
    pub name: IdentId,
    pub generic_params: GenericParamListId,
    pub attributes: AttrListId,
    pub where_predicate: WherePredicateId,
    pub items: TraitItemListId,
    pub origin: HirOrigin,
}

/// The functions of a trait for a type.
#[derive(Debug, Clone, PartialEq, Eq, Hash)]
pub struct ImplTrait {
    pub trait_path: PathId,
    pub ty: TypeId,
    pub generic_params: GenericParamListId,
    pub attributes: AttrListId,
    pub where_predicate: WherePredicateId,
    pub items: ImplTraitItemListId,
    pub origin: HirOrigin,
}

/// A constant.
#[derive(Debug, Clone, PartialEq, Eq, Hash)]
pub struct Const {
    pub name: IdentId,
    pub body: BodyId,
    pub origin: HirOrigin,
}

/// An import.
#[derive(Debug, Clone, PartialEq, Eq, Hash)]
pub struct Use {
    pub name: UseTreeId,
    pub origin: HirOrigin,
}

/// Functions that are defined elsewhere.
#[derive(Debug, Clone, PartialEq, Eq, Hash)]
pub struct Extern {
    pub items: ExternItemListId,
    pub origin: HirOrigin,
}

/// An item of any kind.
#[derive(Debug, Clone, PartialEq, Eq, Hash)]
pub enum ItemKind {
    Fn(Fn),
    Struct(Struct),
    Contract(Contract),
    Enum(Enum),
    TypeAlias(TypeAlias),
    Impl(Impl),
    Trait(Trait),
    ImplTrait(ImplTrait),
    Const(Const),
    Use(Use),
    Extern(Extern),
}

/// How an item is told apart from the others in its module: by its name, by the type that an
/// `impl` is for, by the trait and the type of a trait `impl`, or by its number among the items
/// that are defined elsewhere.
#[derive(Debug, Clone, Copy, PartialEq, Eq, Hash, Structural)]
pub enum ItemId {
    Ident(IdentId),
    Ty(TypeId),
    Ty2(TypeId, TypeId),
    Extern(u32),
}

/// What stands before `fn`; `Plain` is nothing.
#[derive(Debug, Clone, Copy, PartialEq, Eq, Hash, Structural)]
pub enum ItemModifier {
    Pub,
    Unsafe,
    PubAndUnsafe,
    Plain,
}

/// The fields of a struct or a contract, in order.
#[derive(Debug, Clone, PartialEq, Eq, Hash)]
pub struct RecordFieldListId {
    pub fields: Vec<RecordField>,
}

/// A field.
#[derive(Debug, Clone, Copy, PartialEq, Eq, Hash, Structural)]
pub struct RecordField {
    pub name: IdentId,
    pub ty: TypeId,
    pub is_pub: bool,
}

/// The variants of an enum, in order.
#[derive(Debug, Clone, PartialEq, Eq, Hash)]
pub struct EnumVariantListId {
    pub variants: Vec<EnumVariant>,
}

/// A variant.
#[derive(Debug, Clone, Copy, PartialEq, Eq, Hash, Structural)]
pub struct EnumVariant {
    pub name: IdentId,
    pub ty: TypeId,
}

/// The functions of an `impl`, in order.
#[derive(Debug, Clone, PartialEq, Eq, Hash)]
pub struct ImplItemListId {
    pub items: Vec<Fn>,
}

/// The functions of a trait, in order.
pub type TraitItemListId = ImplItemListId;

/// The functions of a trait `impl`, in order.
pub type ImplTraitItemListId = ImplItemListId;

/// The functions that are defined elsewhere, in order.
pub type ExternItemListId = ImplItemListId;

impl From<Fn> for ItemKind {
    fn from(item: Fn) -> (kind: ItemKind) {
        ItemKind::Fn(item)
    }
}

impl FromSpecImpl<Fn> for ItemKind {
    open spec fn obeys_from_spec() -> bool {
        true
    }

    open spec fn from_spec(item: Fn) -> ItemKind {
        ItemKind::Fn(item)
    }
}

impl From<Struct> for ItemKind {
    fn from(item: Struct) -> (kind: ItemKind) {
        ItemKind::Struct(item)
    }
}

impl FromSpecImpl<Struct> for ItemKind {
    open spec fn obeys_from_spec() -> bool {
        true
    }

    open spec fn from_spec(item: Struct) -> ItemKind {
        ItemKind::Struct(item)
    }
}

impl From<Contract> for ItemKind {
    fn from(item: Contract) -> (kind: ItemKind) {
        ItemKind::Contract(item)
    }
}

impl FromSpecImpl<Contract> for ItemKind {
    open spec fn obeys_from_spec() -> bool {
        true
    }

    open spec fn from_spec(item: Contract) -> ItemKind {
        ItemKind::Contract(item)
    }
}

impl From<Enum> for ItemKind {
    fn from(item: Enum) -> (kind: ItemKind) {
        ItemKind::Enum(item)
    }
}

impl FromSpecImpl<Enum> for ItemKind {
    open spec fn obeys_from_spec() -> bool {
        true
    }

    open spec fn from_spec(item: Enum) -> ItemKind {
        ItemKind::Enum(item)
    }
}

impl From<TypeAlias> for ItemKind {
    fn from(item: TypeAlias) -> (kind: ItemKind) {
        ItemKind::TypeAlias(item)
    }
}

impl FromSpecImpl<TypeAlias> for ItemKind {
    open spec fn obeys_from_spec() -> bool {
        true
    }

    open spec fn from_spec(item: TypeAlias) -> ItemKind {
        ItemKind::TypeAlias(item)
    }
}

impl From<Impl> for ItemKind {
    fn from(item: Impl) -> (kind: ItemKind) {
        ItemKind::Impl(item)
    }
}

impl FromSpecImpl<Impl> for ItemKind {
    open spec fn obeys_from_spec() -> bool {
        true
    }

    open spec fn from_spec(item: Impl) -> ItemKind {
        ItemKind::Impl(item)
    }
}

impl From<Trait> for ItemKind {
    fn from(item: Trait) -> (kind: ItemKind) {
        ItemKind::Trait(item)
    }
}

impl FromSpecImpl<Trait> for ItemKind {
    open spec fn obeys_from_spec() -> bool {
        true
    }

    open spec fn from_spec(item: Trait) -> ItemKind {
        ItemKind::Trait(item)
    }
}

impl From<ImplTrait> for ItemKind {
    fn from(item: ImplTrait) -> (kind: ItemKind) {
        ItemKind::ImplTrait(item)
    }
}

impl FromSpecImpl<ImplTrait> for ItemKind {
    open spec fn obeys_from_spec() -> bool {
        true
    }

    open spec fn from_spec(item: ImplTrait) -> ItemKind {
        ItemKind::ImplTrait(item)
    }
}

impl From<Const> for ItemKind {
    fn from(item: Const) -> (kind: ItemKind) {
        ItemKind::Const(item)
    }
}

impl FromSpecImpl<Const> for ItemKind {
    open spec fn obeys_from_spec() -> bool {
        true
    }

    open spec fn from_spec(item: Const) -> ItemKind {
        ItemKind::Const(item)
    }
}

impl From<Use> for ItemKind {
    fn from(item: Use) -> (kind: ItemKind) {
        ItemKind::Use(item)
    }
}

impl FromSpecImpl<Use> for ItemKind {
    open spec fn obeys_from_spec() -> bool {
        true
    }

    open spec fn from_spec(item: Use) -> ItemKind {
        ItemKind::Use(item)
    }
}

impl From<Extern> for ItemKind {
    fn from(item: Extern) -> (kind: ItemKind) {
        ItemKind::Extern(item)
    }
}

impl FromSpecImpl<Extern> for ItemKind {
    open spec fn obeys_from_spec() -> bool {
        true
    }

    open spec fn from_spec(item: Extern) -> ItemKind {
        ItemKind::Extern(item)
    }
}

/// An item of any kind becomes the variant of its own kind, and is kept there as it is.
pub proof fn lemma_item_kept()
    ensures
        forall|item: Fn| #[trigger]
            <ItemKind as FromSpec<Fn>>::from_spec(item) == ItemKind::Fn(item),
        forall|item: Struct| #[trigger]
            <ItemKind as FromSpec<Struct>>::from_spec(item) == ItemKind::Struct(item),
        forall|item: Contract| #[trigger]
            <ItemKind as FromSpec<Contract>>::from_spec(item) == ItemKind::Contract(item),
        forall|item: Enum| #[trigger]
            <ItemKind as FromSpec<Enum>>::from_spec(item) == ItemKind::Enum(item),
        forall|item: TypeAlias| #[trigger]
            <ItemKind as FromSpec<TypeAlias>>::from_spec(item) == ItemKind::TypeAlias(item),
        forall|item: Impl| #[trigger]
            <ItemKind as FromSpec<Impl>>::from_spec(item) == ItemKind::Impl(item),
        forall|item: Trait| #[trigger]
            <ItemKind as FromSpec<Trait>>::from_spec(item) == ItemKind::Trait(item),
        forall|item: ImplTrait| #[trigger]
            <ItemKind as FromSpec<ImplTrait>>::from_spec(item) == ItemKind::ImplTrait(item),
        forall|item: Const| #[trigger]
            <ItemKind as FromSpec<Const>>::from_spec(item) == ItemKind::Const(item),
        forall|item: Use| #[trigger]
            <ItemKind as FromSpec<Use>>::from_spec(item) == ItemKind::Use(item),
        forall|item: Extern| #[trigger]
            <ItemKind as FromSpec<Extern>>::from_spec(item) == ItemKind::Extern(item),
{
}

} // verus!
