use fe_compiler::hir::ids::{
    AttrListId, BodyId, FnParamListId, GenericParamListId, IdentId, PathId, TypeId, UseTreeId,
    WherePredicateId,
};
use fe_compiler::hir::item::{
    Const, Contract, Enum, EnumVariant, EnumVariantListId, Extern, Fn, HirOrigin, Impl,
    ImplItemListId, ImplTrait, ItemId, ItemKind, ItemModifier, RecordField, RecordFieldListId,
    Struct, Trait, TypeAlias, Use,
};

const ORIGIN: HirOrigin = HirOrigin { start: 3, end: 9 };
const GENERICS: GenericParamListId = GenericParamListId(1);
const WHERE: WherePredicateId = WherePredicateId(2);
const ATTRS: AttrListId = AttrListId(4);

fn function(name: u32) -> Fn {
    Fn {
        name: IdentId(name),
        generic_params: GENERICS,
        where_predicate: WHERE,
        params: FnParamListId(5),
        ret_ty: Some(TypeId(6)),
        modifier: ItemModifier::Pub,
        attributes: ATTRS,
        body: Some(BodyId(7)),
        origin: ORIGIN,
    }
}

fn fields() -> RecordFieldListId {
    RecordFieldListId {
        fields: vec![RecordField { name: IdentId(8), ty: TypeId(9), is_pub: true }],
    }
}

fn functions() -> ImplItemListId {
    ImplItemListId { items: vec![function(1), function(2)] }
}

#[test]
fn functions_are_items() {
    assert_eq!(ItemKind::from(function(1)), ItemKind::Fn(function(1)));
    assert_ne!(ItemKind::from(function(1)), ItemKind::Fn(function(2)));
}

#[test]
fn types_are_items() {
    let record = Struct {
        name: IdentId(1),
        is_pub: true,
        generic_params: GENERICS,
        where_predicate: WHERE,
        attributes: ATTRS,
        fields: fields(),
        origin: ORIGIN,
    };
    assert_eq!(ItemKind::from(record.clone()), ItemKind::Struct(record));
    let contract = Contract {
        name: IdentId(1),
        is_pub: false,
        attributes: ATTRS,
        fields: fields(),
        origin: ORIGIN,
    };
    assert_eq!(ItemKind::from(contract.clone()), ItemKind::Contract(contract));
    let choice = Enum {
        name: IdentId(1),
        is_pub: false,
        generic_params: GENERICS,
        attributes: ATTRS,
        where_predicate: WHERE,
        variants: EnumVariantListId {
            variants: vec![EnumVariant { name: IdentId(2), ty: TypeId(3) }],
        },
        origin: ORIGIN,
    };
    assert_eq!(ItemKind::from(choice.clone()), ItemKind::Enum(choice));
    let alias = TypeAlias {
        name: IdentId(1),
        is_pub: true,
        generic_params: GENERICS,
        attributes: ATTRS,
        where_predicate: WHERE,
        ty: TypeId(3),
        origin: ORIGIN,
    };
    assert_eq!(ItemKind::from(alias.clone()), ItemKind::TypeAlias(alias));
}

#[test]
fn impls_and_traits_are_items() {
    let own = Impl {
        ty: TypeId(1),
        generic_params: GENERICS,
        attributes: ATTRS,
        where_predicate: WHERE,
        items: functions(),
        origin: ORIGIN,
    };
    assert_eq!(ItemKind::from(own.clone()), ItemKind::Impl(own));
    let shared = Trait {
        name: IdentId(1),
        generic_params: GENERICS,
        attributes: ATTRS,
        where_predicate: WHERE,
        items: functions(),
        origin: ORIGIN,
    };
    assert_eq!(ItemKind::from(shared.clone()), ItemKind::Trait(shared));
    let both = ImplTrait {
        trait_path: PathId(1),
        ty: TypeId(2),
        generic_params: GENERICS,
        attributes: ATTRS,
        where_predicate: WHERE,
        items: functions(),
        origin: ORIGIN,
    };
    assert_eq!(ItemKind::from(both.clone()), ItemKind::ImplTrait(both));
}

#[test]
fn the_other_items() {
    let constant = Const { name: IdentId(1), body: BodyId(2), origin: ORIGIN };
    assert_eq!(ItemKind::from(constant.clone()), ItemKind::Const(constant));
    let import = Use { name: UseTreeId(1), origin: ORIGIN };
    assert_eq!(ItemKind::from(import.clone()), ItemKind::Use(import));
    let outside = Extern { items: functions(), origin: ORIGIN };
    assert_eq!(ItemKind::from(outside.clone()), ItemKind::Extern(outside));
}

#[test]
fn item_ids_are_told_apart() {
    assert_ne!(ItemId::Ident(IdentId(1)), ItemId::Ident(IdentId(2)));
    assert_ne!(ItemId::Ty(TypeId(1)), ItemId::Ty2(TypeId(1), TypeId(1)));
    assert_eq!(ItemId::Extern(3), ItemId::Extern(3));
}
