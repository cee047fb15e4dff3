//! What holds of contracts and their dispatchers as a whole.

use vstd::prelude::*;

use crate::text;
use crate::yul::abi;
use crate::yul::contracts;
use crate::yul::contracts::{ContractStmt, Support};
use crate::yul::scopes::{DefModel, ScopeModel};
use crate::yul::types;
use crate::yul::types::{Array, Base, FixedSize, Type};

verus! {

// Parameters.

/// Every parameter starts behind the selector, and behind the words of each parameter before it:
/// no two parameters share a byte.
pub proof fn lemma_params_apart(params: Seq<FixedSize>, i: nat, j: nat)
    requires
        i < j <= params.len(),
    ensures
        4 <= abi::param_start(params, i),
        abi::param_start(params, i) + params[i as int].bytes() <= abi::param_start(params, j),
        abi::param_start(params, i) + params[i as int].padded() <= abi::param_start(params, j),
    decreases j,
{
    types::lemma_padded(params[i as int]);
    if i + 1 < j {
        lemma_params_apart(params, i, (j - 1) as nat);
    } else {
        assert(abi::param_start(params, j) == abi::param_start(params, i)
            + params[i as int].padded());
    }
    if i > 0 {
        lemma_params_apart(params, 0, i);
    }
}

/// Behind the selector, every parameter starts at the start of a word.
pub proof fn lemma_params_aligned(params: Seq<FixedSize>, i: nat)
    requires
        i <= params.len(),
    ensures
        abi::param_start(params, i) >= 4,
        (abi::param_start(params, i) - 4) % 32 == 0,
    decreases i,
{
    if i > 0 {
        lemma_params_aligned(params, (i - 1) as nat);
        types::lemma_padded(params[i - 1]);
    }
}

// Signatures.

/// Different types have different names.
pub proof fn lemma_abi_name_injective(a: FixedSize, b: FixedSize)
    requires
        abi::abi_name(a) == abi::abi_name(b),
    ensures
        a == b,
{
    reveal_strlit("uint256");
    reveal_strlit("address");
    reveal_strlit("byte");
    reveal_strlit("bytes");
    reveal_strlit("[");
    reveal_strlit("]");
    let name = abi::abi_name(a);
    match (a, b) {
        (FixedSize::Base(x), FixedSize::Base(y)) => {
            assert(name[0] == abi::base_name(x)[0] && name[0] == abi::base_name(y)[0]);
        },
        (FixedSize::Base(x), FixedSize::Array(y)) => lemma_base_is_no_array(x, y),
        (FixedSize::Array(x), FixedSize::Base(y)) => lemma_base_is_no_array(y, x),
        (FixedSize::Array(x), FixedSize::Array(y)) => {
            let dx = text::decimal(x.dimension as nat);
            let dy = text::decimal(y.dimension as nat);
            text::lemma_decimal_digits(x.dimension as nat);
            text::lemma_decimal_digits(y.dimension as nat);
            assert(name[0] == abi::base_name(x.inner)[0]);
            assert(name[0] == abi::base_name(y.inner)[0]);
            assert(x.inner == y.inner);
            let head: int = if x.inner == Base::Byte {
                5
            } else {
                8
            };
            let tail: int = if x.inner == Base::Byte {
                name.len() as int
            } else {
                name.len() - 1
            };
            assert(dx =~= name.subrange(head, tail));
            assert(dy =~= name.subrange(head, tail));
            text::lemma_decimal_injective(x.dimension as nat, y.dimension as nat);
        },
    }
}

/// The name of a type of single values is not the name of an array.
proof fn lemma_base_is_no_array(base: Base, array: Array)
    ensures
        abi::base_name(base) != abi::abi_name(FixedSize::Array(array)),
{
    reveal_strlit("uint256");
    reveal_strlit("address");
    reveal_strlit("byte");
    reveal_strlit("bytes");
    reveal_strlit("[");
    reveal_strlit("]");
    text::lemma_decimal_digits(array.dimension as nat);
    let single = abi::base_name(base);
    let name = abi::abi_name(FixedSize::Array(array));
    assert(name[0] == abi::base_name(array.inner)[0]);
    if array.inner == Base::Byte {
        assert(name.len() >= 6);
    } else {
        assert(name.len() >= 9);
    }
}

/// The name of a type is not empty and has no comma and no opening parenthesis in it.
proof fn lemma_abi_name_plain(typ: FixedSize)
    ensures
        text::is_part(abi::abi_name(typ), ','),
        text::is_part(abi::abi_name(typ), '('),
{
    reveal_strlit("uint256");
    reveal_strlit("address");
    reveal_strlit("byte");
    reveal_strlit("bytes");
    reveal_strlit("[");
    reveal_strlit("]");
    if let FixedSize::Array(array) = typ {
        text::lemma_decimal_digits(array.dimension as nat);
        let digits = text::decimal(array.dimension as nat);
        let name = abi::abi_name(typ);
        assert forall|i: int| 0 <= i < name.len() implies #[trigger] name[i] != ',' && name[i]
            != '(' by {
            if array.inner == Base::Byte {
                if i >= 5 {
                    assert(name[i] == digits[i - 5]);
                }
            } else if 8 <= i < name.len() - 1 {
                assert(name[i] == digits[i - 8]);
            }
        }
    }
}

/// Functions that differ in their names or in the types of their parameters have different
/// signatures.
pub proof fn lemma_signature_injective(
    name1: Seq<char>,
    params1: Seq<FixedSize>,
    name2: Seq<char>,
    params2: Seq<FixedSize>,
)
    requires
        abi::signature(name1, params1) == abi::signature(name2, params2),
    ensures
        name1 == name2,
        params1 == params2,
{
    reveal_strlit("(");
    reveal_strlit(")");
    let text = abi::signature(name1, params1);
    let list1 = text::joined(abi::abi_names(params1), ","@);
    let list2 = text::joined(abi::abi_names(params2), ","@);
    lemma_names_plain(params1);
    lemma_names_plain(params2);
    // The last opening parenthesis is the one behind the name.
    let n1 = name1.len() as int;
    let n2 = name2.len() as int;
    assert(text[n1] == '(');
    assert(text[n2] == '(');
    if n1 < n2 {
        assert(n2 < text.len() - 1 ==> text[n2] == list1[n2 - n1 - 1]);
    }
    if n2 < n1 {
        assert(n1 < text.len() - 1 ==> text[n1] == list2[n1 - n2 - 1]);
    }
    assert(name1 =~= text.subrange(0, n1));
    assert(name2 =~= text.subrange(0, n1));
    assert(list1 =~= text.subrange(n1 + 1, text.len() - 1));
    assert(list2 =~= text.subrange(n1 + 1, text.len() - 1));
    reveal_strlit(",");
    assert(","@ =~= seq![',']);
    text::lemma_joined_injective(abi::abi_names(params1), abi::abi_names(params2), ',');
    assert(abi::abi_names(params1).len() == params1.len());
    assert(abi::abi_names(params2).len() == params2.len());
    assert forall|i: int| 0 <= i < params1.len() implies params1[i] == params2[i] by {
        assert(abi::abi_names(params1)[i] == abi::abi_names(params2)[i]);
        lemma_abi_name_injective(params1[i], params2[i]);
    }
    assert(params1 =~= params2);
}

/// No name in a list of types has a comma in it, and the list has no opening parenthesis in it.
proof fn lemma_names_plain(params: Seq<FixedSize>)
    ensures
        forall|i: int|
            0 <= i < params.len() ==> text::is_part(#[trigger] abi::abi_names(params)[i], ','),
        forall|i: int|
            0 <= i < text::joined(abi::abi_names(params), ","@).len()
                ==> #[trigger] text::joined(abi::abi_names(params), ","@)[i] != '(',
{
    reveal_strlit(",");
    assert forall|i: int| 0 <= i < params.len() implies text::is_part(
        #[trigger] abi::abi_names(params)[i],
        ',',
    ) && text::is_part(abi::abi_names(params)[i], '(') by {
        lemma_abi_name_plain(params[i]);
    }
    text::lemma_joined_without(abi::abi_names(params), ","@, '(');
}

// The dispatcher.

/// What a function returns has no part in how it is selected.
pub proof fn lemma_selector_without_return(
    name: Seq<char>,
    params: Seq<FixedSize>,
    first: Option<FixedSize>,
    second: Option<FixedSize>,
)
    ensures
        abi::call_case(name, params, first).literal == abi::call_case(
            name,
            params,
            second,
        ).literal,
{
}

/// The dispatcher has one case for each function of the interface, in the same order, and each is
/// selected by the function's own selector.
pub proof fn lemma_dispatcher_cases(
    interface: Seq<Seq<char>>,
    defs: Map<Seq<char>, DefModel>,
    i: int,
)
    requires
        0 <= i < interface.len(),
    ensures
        ({
            let cases = abi::dispatcher(interface, defs)->Switch_0.cases;
            let name = interface[i];
            &&& cases.len() == interface.len()
            &&& cases[i].literal == Some(abi::selector(name, defs[name]->params))
        }),
{
}

// Contracts.

/// Whether every name that can be called from outside is defined.
pub open spec fn interface_defined(scope: ScopeModel) -> bool {
    forall|i: int|
        0 <= i < scope.interface.len() ==> scope.defs.contains_key(#[trigger] scope.interface[i])
}

/// Every name that can be called from outside is defined.
pub proof fn lemma_interface_defined(body: Seq<ContractStmt>, n: nat)
    requires
        n <= body.len(),
    ensures
        contracts::map_stmts(body, n) matches Ok(mapped) ==> interface_defined(mapped.scope),
    decreases n,
{
    if n > 0 {
        lemma_interface_defined(body, (n - 1) as nat);
    }
}

/// A contract is never refused for a name without a definition: where all statements can be
/// mapped, it is refused only for a function whose name was taken over by a field.
pub proof fn lemma_refused_name_taken(body: Seq<ContractStmt>, support: Support)
    requires
        contracts::map_stmts(body, body.len()) is Ok,
    ensures
        contracts::map_contract(body, support) matches Err(message) ==> message
            == "Cannot create case from definition"@,
{
    lemma_interface_defined(body, body.len());
    let scope = contracts::map_stmts(body, body.len())->Ok_0.scope;
    abi::lemma_first_refused(scope.interface, scope.defs, 0);
}

/// Whether a statement can be mapped.
pub open spec fn mappable(stmt: ContractStmt) -> bool {
    match stmt {
        ContractStmt::ContractField { typ, .. } => typ matches Ok(Type::Mapping(_)),
        ContractStmt::FuncDef { function, .. } => function is Ok,
        ContractStmt::EventDef { .. } => false,
    }
}

/// Whether no field has the name of a function.
pub open spec fn names_apart(body: Seq<ContractStmt>) -> bool {
    forall|i: int, j: int|
        #![trigger body[i], body[j]]
        0 <= i < body.len() && 0 <= j < body.len() && body[i] is ContractField
            && body[j] is FuncDef ==> body[i]->ContractField_name@ != body[j]->FuncDef_name@
}

/// A contract can be compiled if its fields are mappings, the bodies of its functions could be
/// mapped, and no field has the name of a function.
pub proof fn lemma_contract_compiles(body: Seq<ContractStmt>, support: Support)
    requires
        forall|i: int| 0 <= i < body.len() ==> mappable(#[trigger] body[i]),
        names_apart(body),
    ensures
        contracts::map_contract(body, support) is Ok,
{
    lemma_stmts_compile(body, body.len());
    let scope = contracts::map_stmts(body, body.len())->Ok_0.scope;
    abi::lemma_first_refused(scope.interface, scope.defs, 0);
    let refused = abi::first_refused(scope.interface, scope.defs, 0);
    if refused < scope.interface.len() {
        assert(callable_known(body, body.len(), scope, refused as int));
    }
}

/// Whether the `k`-th name that can be called from outside stands for a function, and is the name
/// of one of the first `n` statements, which is a function.
pub open spec fn callable_known(
    body: Seq<ContractStmt>,
    n: nat,
    scope: ScopeModel,
    k: int,
) -> bool {
    &&& abi::callable(scope.defs, scope.interface[k])
    &&& exists|j: int|
        0 <= j < n && #[trigger] body[j] is FuncDef && body[j]->FuncDef_name@
            == scope.interface[k]
}

/// Statements that can be mapped are mapped, and what can be called from outside is a function.
proof fn lemma_stmts_compile(body: Seq<ContractStmt>, n: nat)
    requires
        n <= body.len(),
        forall|i: int| 0 <= i < body.len() ==> mappable(#[trigger] body[i]),
        names_apart(body),
    ensures
        contracts::map_stmts(body, n) is Ok,
        ({
            let scope = contracts::map_stmts(body, n)->Ok_0.scope;
            forall|k: int|
                0 <= k < scope.interface.len() ==> #[trigger] callable_known(body, n, scope, k)
        }),
    decreases n,
{
    if n > 0 {
        lemma_stmts_compile(body, (n - 1) as nat);
        let before = contracts::map_stmts(body, (n - 1) as nat)->Ok_0.scope;
        let stmt = body[n - 1];
        assert(mappable(stmt));
        let scope = contracts::map_stmts(body, n)->Ok_0.scope;
        assert forall|k: int| 0 <= k < scope.interface.len() implies #[trigger] callable_known(
            body,
            n,
            scope,
            k,
        ) by {
            if k < before.interface.len() {
                assert(callable_known(body, (n - 1) as nat, before, k));
                let j = choose|j: int|
                    0 <= j < n - 1 && #[trigger] body[j] is FuncDef && body[j]->FuncDef_name@
                        == before.interface[k];
                assert(scope.interface[k] == before.interface[k]);
                assert(body[j] is FuncDef);
            } else {
                assert(body[n - 1] is FuncDef);
            }
        }
    }
}

} // verus!
