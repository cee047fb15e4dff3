//! What a contract answers to the calls that reach it.
//!
//! A call names a function by the hash of its signature and carries the arguments behind it. The
//! laws here follow a call through the code of a contract: which function of the contract runs,
//! on which bytes of the call, and what is handed back.

use vstd::prelude::*;

use crate::text;
use crate::yul::abi;
use crate::yul::ast;
use crate::yul::ast::{
    CaseModel, ExpressionModel, LiteralModel, ObjectModel, StatementModel,
};
use crate::yul::contracts;
use crate::yul::contracts::{ContractStmt, MappedFunction, Support};
use crate::yul::laws;
use crate::yul::pieces;
use crate::yul::scopes::{DefModel, ScopeModel};
use crate::yul::types::{Base, FixedSize, Type};

verus! {

// Numbers.

/// The number that a text of decimal digits says.
pub open spec fn said(digits: Seq<char>) -> nat
    decreases digits.len(),
{
    if digits.len() == 0 {
        0
    } else {
        10 * said(digits.drop_last()) + (digits.last() as u32 - '0' as u32) as nat
    }
}

/// Whether a text says the number `n` in decimal digits, without leading zeros.
pub open spec fn says(digits: Seq<char>, n: nat) -> bool {
    &&& digits.len() > 0
    &&& forall|i: int| 0 <= i < digits.len() ==> '0' <= #[trigger] digits[i] <= '9'
    &&& digits.len() > 1 ==> digits[0] != '0'
    &&& said(digits) == n
}

/// Reading the decimal text of a number gives the number back.
pub proof fn lemma_decimal_says(n: nat)
    ensures
        says(text::decimal(n), n),
    decreases n,
{
    text::lemma_decimal_digits(n);
    reveal_with_fuel(said, 2);
    if n < 10 {
        assert(text::decimal(n).drop_last() =~= Seq::<char>::empty());
    } else {
        lemma_decimal_says(n / 10);
        let before = text::decimal(n / 10);
        assert(text::decimal(n).drop_last() =~= before);
        assert(text::decimal(n)[0] == before[0]);
        if before.len() == 1 {
            assert(before.drop_last() =~= Seq::<char>::empty());
        }
    }
}

/// Whether an expression is the literal number `n`.
pub open spec fn is_number(expression: ExpressionModel, n: nat) -> bool {
    expression matches ExpressionModel::Literal(literal) && literal.yultype is None && says(
        literal.literal,
        n,
    )
}

/// Whether an expression is the variable `name`.
pub open spec fn is_variable(expression: ExpressionModel, name: Seq<char>) -> bool {
    expression matches ExpressionModel::Identifier(variable) && variable.yultype is None
        && variable.identifier == name
}

/// Whether an expression calls `callee` with so many arguments.
pub open spec fn is_call(expression: ExpressionModel, callee: Seq<char>, arguments: nat) -> bool {
    expression matches ExpressionModel::FunctionCall(call) && call.identifier.yultype is None
        && call.identifier.identifier == callee && call.arguments.len() == arguments
}

/// The argument of a call at a position.
pub open spec fn argument(expression: ExpressionModel, i: int) -> ExpressionModel {
    expression->FunctionCall_0.arguments[i]
}

// The data of a call.

/// The number of bytes of a value: a word for numbers and addresses, one for a byte, and for an
/// array as many as its elements together.
pub open spec fn room(typ: FixedSize) -> nat {
    match typ {
        FixedSize::Base(Base::Byte) => 1,
        FixedSize::Base(_) => 32,
        FixedSize::Array(array) => if array.inner == Base::Byte {
            array.dimension as nat
        } else {
            array.dimension as nat * 32
        },
    }
}

/// The number of bytes of the fewest words that hold `n` bytes.
pub open spec fn in_words(n: nat) -> nat {
    (n + 31) / 32 * 32
}

/// Where the data of a call goes on behind the selector and the words of `params`.
pub open spec fn behind(params: Seq<FixedSize>) -> nat
    decreases params.len(),
{
    if params.len() == 0 {
        4
    } else {
        behind(params.drop_last()) + in_words(room(params.last()))
    }
}

/// Whether an expression reads a value of type `typ` from the data of a call, at `start`: a
/// single value is loaded, an array is copied to memory.
pub open spec fn reads(expression: ExpressionModel, typ: FixedSize, start: nat) -> bool {
    &&& typ is Array ==> is_call(expression, "ccopy"@, 2)
    &&& typ is Base ==> is_call(expression, "cloadn"@, 2)
    &&& is_number(argument(expression, 0), start)
    &&& is_number(argument(expression, 1), room(typ))
}

/// A value takes as many bytes, and as many words, as its type has room for.
pub proof fn lemma_room(typ: FixedSize)
    ensures
        typ.bytes() == room(typ),
        typ.padded() == in_words(room(typ)),
{
    let n = room(typ);
    match typ {
        FixedSize::Array(array) => {
            assert(array.dimension as nat * 1 == array.dimension as nat);
        },
        _ => {},
    }
    assert(typ.bytes() == n);
    if n % 32 == 0 {
        assert((n + 31) / 32 == n / 32);
    } else {
        assert((n + 31) / 32 == n / 32 + 1);
    }
    assert(n == n / 32 * 32 + n % 32);
}

/// A parameter starts behind the words of those before it.
pub proof fn lemma_starts(params: Seq<FixedSize>, i: nat)
    requires
        i <= params.len(),
    ensures
        abi::param_start(params, i) == behind(params.take(i as int)),
    decreases i,
{
    if i > 0 {
        lemma_starts(params, (i - 1) as nat);
        lemma_room(params[i - 1]);
        assert(params.take(i as int).drop_last() =~= params.take(i - 1));
        assert(params.take(i as int).last() == params[i - 1]);
    }
}

/// Each parameter of a function is read from its own place in the data of a call, which is right
/// behind those of the parameters before it: an array, whatever its elements are, is copied to
/// memory, and anything else is loaded.
pub proof fn lemma_parameters_read(params: Seq<FixedSize>)
    ensures
        abi::parameters(params).len() == params.len(),
        forall|i: int|
            0 <= i < params.len() ==> reads(
                #[trigger] abi::parameters(params)[i],
                params[i],
                behind(params.take(i)),
            ),
{
    reveal_strlit("ccopy");
    reveal_strlit("cloadn");
    assert forall|i: int| 0 <= i < params.len() implies reads(
        #[trigger] abi::parameters(params)[i],
        params[i],
        behind(params.take(i)),
    ) by {
        lemma_starts(params, i as nat);
        lemma_room(params[i]);
        lemma_decimal_says(abi::param_start(params, i as nat));
        lemma_decimal_says(params[i].bytes());
    }
}

// Selectors.

/// How the type of single values is written in a signature.
pub open spec fn base_text(base: Base) -> Seq<char> {
    match base {
        Base::U256 => seq!['u', 'i', 'n', 't', '2', '5', '6'],
        Base::Address => seq!['a', 'd', 'd', 'r', 'e', 's', 's'],
        Base::Byte => seq!['b', 'y', 't', 'e'],
    }
}

/// Whether a text is how a type is written in a signature: an array of bytes as `bytes` and its
/// length, and any other array as the type of its elements and its length in brackets.
pub open spec fn writes_type(written: Seq<char>, typ: FixedSize) -> bool {
    match typ {
        FixedSize::Base(base) => written == base_text(base),
        FixedSize::Array(array) => {
            let head = if array.inner == Base::Byte {
                seq!['b', 'y', 't', 'e', 's']
            } else {
                base_text(array.inner).push('[')
            };
            let tail: Seq<char> = if array.inner == Base::Byte {
                Seq::empty()
            } else {
                seq![']']
            };
            exists|digits: Seq<char>| #[trigger]
                says(digits, array.dimension as nat) && written == head + digits + tail
        },
    }
}

/// Whether a text is how types are written in a signature: one after the other, with commas
/// between them.
pub open spec fn writes_types(written: Seq<char>, params: Seq<FixedSize>) -> bool
    decreases params.len(),
{
    if params.len() == 0 {
        written.len() == 0
    } else if params.len() == 1 {
        writes_type(written, params[0])
    } else {
        exists|k: int|
            #![trigger written[k]]
            0 <= k < written.len() && written[k] == ',' && writes_types(
                written.take(k),
                params.drop_last(),
            ) && writes_type(written.skip(k + 1), params.last())
    }
}

/// Whether a text is the signature of a function: its name, and behind it the types of its
/// parameters in parentheses.
pub open spec fn writes_signature(
    written: Seq<char>,
    name: Seq<char>,
    params: Seq<FixedSize>,
) -> bool {
    exists|list: Seq<char>| #[trigger]
        writes_types(list, params) && written == name.push('(') + list.push(')')
}

/// Whether a literal selects the function `name` with parameters `params`: it is the first four
/// bytes of the hash of the signature, in hexadecimal.
pub open spec fn selects(
    literal: Option<LiteralModel>,
    name: Seq<char>,
    params: Seq<FixedSize>,
) -> bool {
    literal matches Some(literal) && literal.yultype is None && exists|written: Seq<char>|
        #[trigger] writes_signature(written, name, params) && literal.literal == seq!['0', 'x']
            + abi::lower_hex(abi::keccak256_prefix(vstd::utf8::encode_utf8(written)))
}

/// The name of a type is how it is written in a signature.
pub proof fn lemma_writes_type(typ: FixedSize)
    ensures
        writes_type(abi::abi_name(typ), typ),
{
    reveal_strlit("uint256");
    reveal_strlit("address");
    reveal_strlit("byte");
    reveal_strlit("bytes");
    reveal_strlit("[");
    reveal_strlit("]");
    let written = abi::abi_name(typ);
    match typ {
        FixedSize::Base(base) => {
            assert(written =~= base_text(base));
        },
        FixedSize::Array(array) => {
            let digits = text::decimal(array.dimension as nat);
            lemma_decimal_says(array.dimension as nat);
            assert(abi::base_name(array.inner) =~= base_text(array.inner));
            if array.inner == Base::Byte {
                assert(written =~= seq!['b', 'y', 't', 'e', 's'] + digits + Seq::<char>::empty());
            } else {
                assert(written =~= base_text(array.inner).push('[') + digits + seq![']']);
            }
        },
    }
}

/// The names of types, joined by commas, are how they are written in a signature.
proof fn lemma_writes_types(params: Seq<FixedSize>)
    ensures
        writes_types(text::joined(abi::abi_names(params), ","@), params),
    decreases params.len(),
{
    reveal_strlit(",");
    let names = abi::abi_names(params);
    let written = text::joined(names, ","@);
    if params.len() == 1 {
        lemma_writes_type(params[0]);
    } else if params.len() > 1 {
        lemma_writes_types(params.drop_last());
        lemma_writes_type(params.last());
        assert(names.drop_last() =~= abi::abi_names(params.drop_last()));
        let first = text::joined(names.drop_last(), ","@);
        let k = first.len() as int;
        assert(written == first + ","@ + names.last());
        assert(written[k] == ',');
        assert(written.take(k) =~= first);
        assert(written.skip(k + 1) =~= names.last());
    }
}

/// The selector of a function selects it.
pub proof fn lemma_selects(name: Seq<char>, params: Seq<FixedSize>)
    ensures
        selects(Some(abi::selector(name, params)), name, params),
{
    reveal_strlit("(");
    reveal_strlit(")");
    reveal_strlit("0x");
    let list = text::joined(abi::abi_names(params), ","@);
    let written = abi::signature(name, params);
    lemma_writes_types(params);
    assert(written =~= name.push('(') + list.push(')'));
    assert(writes_signature(written, name, params));
    assert("0x"@ =~= seq!['0', 'x']);
}

// Answers.

/// Whether an expression calls the function `name` on the parameters in the data of a call.
pub open spec fn calls_on_data(
    expression: ExpressionModel,
    name: Seq<char>,
    params: Seq<FixedSize>,
) -> bool {
    &&& is_call(expression, name, params.len())
    &&& forall|i: int|
        0 <= i < params.len() ==> reads(
            #[trigger] argument(expression, i),
            params[i],
            behind(params.take(i)),
        )
}

/// Whether a statement lets a new variable be what the function `name` returns on the parameters
/// in the data of a call.
pub open spec fn keeps_result(
    statement: StatementModel,
    variable: Seq<char>,
    name: Seq<char>,
    params: Seq<FixedSize>,
) -> bool {
    &&& statement is VariableDeclaration
    &&& statement->VariableDeclaration_0.identifiers.len() == 1
    &&& statement->VariableDeclaration_0.identifiers[0].yultype is None
    &&& statement->VariableDeclaration_0.identifiers[0].identifier == variable
    &&& statement->VariableDeclaration_0.expression is Some
    &&& calls_on_data(statement->VariableDeclaration_0.expression->0, name, params)
}

/// Whether a statement calls `callee` with two arguments.
pub open spec fn runs(statement: StatementModel, callee: Seq<char>) -> bool {
    statement is Expression && is_call(statement->Expression_0, callee, 2)
}

/// The argument at a position, in a statement that is a call.
pub open spec fn given(statement: StatementModel, i: int) -> ExpressionModel {
    argument(statement->Expression_0, i)
}

/// Whether statements answer a call of a function: they call it once, on the parameters in the
/// data of the call, and hand back what it returns, in whole words. A single value is written to
/// memory first, an array is returned from where it is, and where the function returns nothing,
/// nothing is handed back.
pub open spec fn answers(
    statements: Seq<StatementModel>,
    name: Seq<char>,
    params: Seq<FixedSize>,
    returned: Option<FixedSize>,
) -> bool {
    match returned {
        None => {
            &&& statements.len() == 1
            &&& statements[0] is Expression
            &&& calls_on_data(statements[0]->Expression_0, name, params)
        },
        Some(FixedSize::Base(base)) => exists|variable: Seq<char>|
            {
                &&& #[trigger] keeps_result(statements[0], variable, name, params)
                &&& statements.len() == 3
                &&& runs(statements[1], "mstore"@)
                &&& is_number(given(statements[1], 0), 0)
                &&& is_variable(given(statements[1], 1), variable)
                &&& runs(statements[2], "return"@)
                &&& is_number(given(statements[2], 0), 0)
                &&& is_number(given(statements[2], 1), in_words(room(FixedSize::Base(base))))
            },
        Some(FixedSize::Array(array)) => exists|variable: Seq<char>|
            {
                &&& #[trigger] keeps_result(statements[0], variable, name, params)
                &&& statements.len() == 2
                &&& runs(statements[1], "return"@)
                &&& is_variable(given(statements[1], 0), variable)
                &&& is_number(given(statements[1], 1), in_words(room(FixedSize::Array(array))))
            },
    }
}

/// Whether a case answers the calls of a function, and of no function with another signature.
pub open spec fn is_answer(
    case: CaseModel,
    name: Seq<char>,
    params: Seq<FixedSize>,
    returned: Option<FixedSize>,
) -> bool {
    &&& selects(case.literal, name, params)
    &&& answers(case.block.statements, name, params, returned)
}

/// The case of a function is selected by the function's signature, calls the function on the
/// parameters in the data of the call, and hands back what the function returns.
pub proof fn lemma_case_answers(
    name: Seq<char>,
    params: Seq<FixedSize>,
    returned: Option<FixedSize>,
)
    ensures
        is_answer(abi::call_case(name, params, returned), name, params, returned),
{
    lemma_selects(name, params);
    lemma_parameters_read(params);
    let statements = abi::call_body(name, params, returned);
    let called = pieces::call(name, abi::parameters(params));
    assert(calls_on_data(called, name, params)) by {
        assert forall|i: int| 0 <= i < params.len() implies reads(
            #[trigger] argument(called, i),
            params[i],
            behind(params.take(i)),
        ) by {
            assert(argument(called, i) == abi::parameters(params)[i]);
        }
    }
    lemma_decimal_says(0);
    if let Some(typ) = returned {
        lemma_room(typ);
        lemma_decimal_says(typ.padded());
        match typ {
            FixedSize::Base(_) => {
                assert(keeps_result(statements[0], "return_val"@, name, params));
            },
            FixedSize::Array(_) => {
                assert(keeps_result(statements[0], "return_ptr"@, name, params));
            },
        }
    }
}

// Dispatchers.

/// Whether a statement is a switch on the first four bytes of the data of a call.
pub open spec fn is_dispatcher(statement: StatementModel) -> bool {
    &&& statement is Switch
    &&& is_call(statement->Switch_0.expression, "cloadn"@, 2)
    &&& is_number(argument(statement->Switch_0.expression, 0), 0)
    &&& is_number(argument(statement->Switch_0.expression, 1), 4)
}

/// A dispatcher looks at the selector of a call, and has for each name of the interface, in order,
/// a case that answers the calls of the function that the name stands for.
pub proof fn lemma_dispatcher_answers(
    interface: Seq<Seq<char>>,
    defs: Map<Seq<char>, DefModel>,
)
    requires
        forall|i: int|
            0 <= i < interface.len() ==> #[trigger] defs.contains_key(interface[i])
                && defs[interface[i]] is Function,
    ensures
        is_dispatcher(abi::dispatcher(interface, defs)),
        abi::dispatcher(interface, defs)->Switch_0.cases.len() == interface.len(),
        forall|i: int|
            0 <= i < interface.len() ==> is_answer(
                #[trigger] abi::dispatcher(interface, defs)->Switch_0.cases[i],
                interface[i],
                defs[interface[i]]->params,
                defs[interface[i]]->returned,
            ),
{
    lemma_decimal_says(0);
    lemma_decimal_says(4);
    assert forall|i: int| 0 <= i < interface.len() implies is_answer(
        #[trigger] abi::dispatcher(interface, defs)->Switch_0.cases[i],
        interface[i],
        defs[interface[i]]->params,
        defs[interface[i]]->returned,
    ) by {
        let def = defs[interface[i]];
        lemma_case_answers(interface[i], def->params, def->returned);
    }
}

/// A dispatcher is built exactly if every name of the interface stands for a function. Otherwise
/// the first name that does not is refused, in words that say whether it is defined at all.
pub proof fn lemma_dispatcher_refused(
    interface: Seq<Seq<char>>,
    defs: Map<Seq<char>, DefModel>,
)
    ensures
        ({
            let refused = abi::first_refused(interface, defs, 0);
            &&& refused <= interface.len()
            &&& forall|i: int|
                0 <= i < refused ==> #[trigger] defs.contains_key(interface[i])
                    && defs[interface[i]] is Function
            &&& refused < interface.len() ==> {
                let name = interface[refused as int];
                &&& defs.contains_key(name) ==> !(defs[name] is Function) && abi::refusal(
                    defs,
                    name,
                ) == "Cannot create case from definition"@
                &&& !defs.contains_key(name) ==> abi::refusal(defs, name)
                    == "No definition for name"@
            }
        }),
{
    abi::lemma_first_refused(interface, defs, 0);
    assert forall|i: int| 0 <= i < abi::first_refused(interface, defs, 0) implies
        #[trigger] defs.contains_key(interface[i]) && defs[interface[i]] is Function by {
        assert(abi::callable(defs, interface[i]));
    }
}

// Contracts.

/// The name that a statement of a contract defines.
pub open spec fn defined(stmt: ContractStmt) -> Seq<char> {
    match stmt {
        ContractStmt::ContractField { name, .. } => name@,
        ContractStmt::FuncDef { name, .. } => name@,
        ContractStmt::EventDef { name } => name@,
    }
}

/// Whether a statement of a contract is a function that can be called from outside.
pub open spec fn is_public(stmt: ContractStmt) -> bool {
    stmt is FuncDef && stmt->FuncDef_qual == Some(contracts::FuncQual::Pub)
}

/// The functions among the statements of a contract, in order.
pub open spec fn functions(body: Seq<ContractStmt>) -> Seq<ContractStmt>
    decreases body.len(),
{
    if body.len() == 0 {
        Seq::empty()
    } else if body.last() is FuncDef {
        functions(body.drop_last()).push(body.last())
    } else {
        functions(body.drop_last())
    }
}

/// The functions among the statements of a contract that can be called from outside, in order.
pub open spec fn public_functions(body: Seq<ContractStmt>) -> Seq<ContractStmt>
    decreases body.len(),
{
    if body.len() == 0 {
        Seq::empty()
    } else if is_public(body.last()) {
        public_functions(body.drop_last()).push(body.last())
    } else {
        public_functions(body.drop_last())
    }
}

/// Whether the statement at position `j` is the last one that defines `name`.
pub open spec fn last_to_define(body: Seq<ContractStmt>, j: int, name: Seq<char>) -> bool {
    &&& 0 <= j < body.len()
    &&& defined(body[j]) == name
    &&& forall|m: int| j < m < body.len() ==> defined(#[trigger] body[m]) != name
}

/// What a function of a contract was mapped to.
pub open spec fn function_of(stmt: ContractStmt) -> MappedFunction {
    stmt->FuncDef_function->Ok_0
}

/// Whether a case answers the calls of the function that `name` stands for at the end of a
/// contract: the last one that is defined under that name.
pub open spec fn answers_for(
    case: CaseModel,
    body: Seq<ContractStmt>,
    name: Seq<char>,
) -> bool {
    exists|j: int|
        {
            &&& #[trigger] last_to_define(body, j, name)
            &&& body[j] is FuncDef
            &&& body[j]->FuncDef_function is Ok
            &&& is_answer(
                case,
                name,
                function_of(body[j]).params@,
                function_of(body[j]).returned,
            )
        }
}

/// Whether an object is the object of a contract. It deploys an object that holds the functions
/// of the contract, then those that they rely on, and last a dispatcher with a case for each
/// function that can be called from outside, in order.
pub open spec fn is_contract(
    object: ObjectModel,
    body: Seq<ContractStmt>,
    support: Support,
) -> bool {
    let deployed = object.objects[0];
    let statements = deployed.code.block.statements;
    let own = functions(body);
    let called = public_functions(body);
    let dispatcher = statements.last();
    &&& object.name.identifier == "Contract"@
    &&& object.code == support.constructor@
    &&& object.objects.len() == 1
    &&& deployed.name.identifier == "runtime"@
    &&& deployed.objects.len() == 0
    &&& statements.len() == own.len() + support.functions@.len() + 1
    &&& forall|i: int|
        0 <= i < own.len() ==> (#[trigger] own[i])->FuncDef_function is Ok && statements[i]
            == function_of(own[i]).statement@
    &&& forall|i: int|
        0 <= i < support.functions@.len() ==> statements[own.len() + i] == (
        #[trigger] support.functions@[i])@
    &&& is_dispatcher(dispatcher)
    &&& dispatcher->Switch_0.cases.len() == called.len()
    &&& forall|k: int|
        0 <= k < called.len() ==> answers_for(
            #[trigger] dispatcher->Switch_0.cases[k],
            body,
            defined(called[k]),
        )
}

/// Whether `name` stands in a scope for what a statement says: a mapping for a field, and for a
/// function the types of its parameters and of what it returns.
pub open spec fn is_definition(scope: ScopeModel, stmt: ContractStmt, name: Seq<char>) -> bool {
    match stmt {
        ContractStmt::ContractField { typ: Ok(Type::Mapping(map)), .. } => scope.defs[name] == (
        DefModel::Mapping { map }),
        ContractStmt::FuncDef { function: Ok(mapped), .. } => scope.defs[name] == (
        DefModel::Function { params: mapped.params@, returned: mapped.returned }),
        _ => false,
    }
}

/// Whether a scope is what the statements of a contract define: a name stands for what the last
/// statement with that name says, and the names that can be called from outside are those of the
/// public functions, in order.
pub open spec fn is_scope(scope: ScopeModel, body: Seq<ContractStmt>) -> bool {
    let called = public_functions(body);
    &&& scope.interface.len() == called.len()
    &&& forall|k: int|
        0 <= k < called.len() ==> #[trigger] scope.interface[k] == defined(called[k])
    &&& forall|name: Seq<char>| #[trigger]
        scope.defs.contains_key(name) <==> exists|j: int| #[trigger]
            last_to_define(body, j, name)
    &&& forall|j: int, name: Seq<char>| #[trigger]
        last_to_define(body, j, name) ==> is_definition(scope, body[j], name)
}

/// The first `n` statements of a contract, where they can be mapped, give its scope what they
/// define, and become the statements that their functions were mapped to.
pub proof fn lemma_scope(body: Seq<ContractStmt>, n: nat)
    requires
        n <= body.len(),
    ensures
        contracts::map_stmts(body, n) matches Ok(mapped) ==> {
            let own = functions(body.take(n as int));
            &&& is_scope(mapped.scope, body.take(n as int))
            &&& mapped.statements.len() == own.len()
            &&& forall|i: int|
                0 <= i < own.len() ==> (#[trigger] own[i])->FuncDef_function is Ok
                    && mapped.statements[i] == function_of(own[i]).statement@
        },
    decreases n,
{
    let done = body.take(n as int);
    if n == 0 {
        assert(done =~= Seq::<ContractStmt>::empty());
    } else if let Ok(mapped) = contracts::map_stmts(body, n) {
        lemma_scope(body, (n - 1) as nat);
        let before = contracts::map_stmts(body, (n - 1) as nat)->Ok_0;
        let first = body.take(n - 1);
        let stmt = body[n - 1];
        assert(done.drop_last() =~= first);
        assert(done.last() == stmt);
        let own = defined(stmt);
        if let ContractStmt::FuncDef { qual: Some(qual), .. } = stmt {
            assert(qual == contracts::FuncQual::Pub);
        }
        assert(last_to_define(done, n - 1, own));
        assert forall|j: int, name: Seq<char>| #[trigger]
            last_to_define(done, j, name) implies (if name == own {
            j == n - 1
        } else {
            j < n - 1 && last_to_define(first, j, name)
        }) by {
            assert(done[n - 1] == stmt);
            if name != own {
                assert forall|m: int| j < m < first.len() implies defined(#[trigger] first[m])
                    != name by {
                    assert(first[m] == done[m]);
                }
            }
        }
        assert forall|j: int, name: Seq<char>| #[trigger]
            last_to_define(first, j, name) && name != own implies last_to_define(
            done,
            j,
            name,
        ) by {
            assert forall|m: int| j < m < done.len() implies defined(#[trigger] done[m])
                != name by {
                if m < n - 1 {
                    assert(first[m] == done[m]);
                }
            }
        }
        assert forall|name: Seq<char>| #[trigger]
            mapped.scope.defs.contains_key(name) <==> exists|j: int| #[trigger]
            last_to_define(done, j, name) by {
            if name != own {
                assert(before.scope.defs.contains_key(name)
                    <==> mapped.scope.defs.contains_key(name));
                if exists|j: int| #[trigger] last_to_define(done, j, name) {
                    let j = choose|j: int| #[trigger] last_to_define(done, j, name);
                    assert(last_to_define(first, j, name));
                }
                if exists|j: int| #[trigger] last_to_define(first, j, name) {
                    let j = choose|j: int| #[trigger] last_to_define(first, j, name);
                    assert(last_to_define(done, j, name));
                }
            }
        }
        let called = public_functions(done);
        assert forall|k: int| 0 <= k < called.len() implies #[trigger] mapped.scope.interface[k]
            == defined(called[k]) by {
            if k < before.scope.interface.len() {
                assert(mapped.scope.interface[k] == before.scope.interface[k]);
            }
        }
        assert forall|j: int, name: Seq<char>| #[trigger]
            last_to_define(done, j, name) implies is_definition(
            mapped.scope,
            done[j],
            name,
        ) by {
            if name != own {
                assert(last_to_define(first, j, name));
                assert(first[j] == done[j]);
            }
        }
        let own = functions(done);
        assert forall|i: int| 0 <= i < own.len() implies (
        #[trigger] own[i])->FuncDef_function is Ok && mapped.statements[i] == function_of(
            own[i],
        ).statement@ by {
            if i < before.statements.len() {
                assert(own[i] == functions(first)[i]);
            }
        }
    }
}

/// The object of a contract that compiles answers the calls of each function that can be called
/// from outside: by the selector of its name and the types of its parameters, with the function
/// last defined under that name, and with what that function returns.
pub proof fn lemma_contract_answers(body: Seq<ContractStmt>, support: Support)
    ensures
        contracts::map_contract(body, support) matches Ok(statement) ==> statement is Object
            && is_contract(statement->Object_0, body, support),
{
    if let Ok(statement) = contracts::map_contract(body, support) {
        lemma_scope(body, body.len());
        assert(body.take(body.len() as int) =~= body);
        let mapped = contracts::map_stmts(body, body.len())->Ok_0;
        let scope = mapped.scope;
        lemma_dispatcher_refused(scope.interface, scope.defs);
        lemma_dispatcher_answers(scope.interface, scope.defs);
        let object = statement->Object_0;
        let statements = object.objects[0].code.block.statements;
        let dispatcher = statements.last();
        assert(dispatcher == abi::dispatcher(scope.interface, scope.defs));
        let called = public_functions(body);
        assert forall|k: int| 0 <= k < called.len() implies answers_for(
            #[trigger] dispatcher->Switch_0.cases[k],
            body,
            defined(called[k]),
        ) by {
            let name = scope.interface[k];
            assert(scope.defs.contains_key(name));
            let j = choose|j: int| #[trigger] last_to_define(body, j, name);
            assert(last_to_define(body, j, name));
        }
        let own = functions(body);
        assert forall|i: int| 0 <= i < support.functions@.len() implies statements[own.len() + i]
            == (#[trigger] support.functions@[i])@ by {
            assert(statements[own.len() + i] == ast::statements_model(support.functions@)[i]);
        }
        assert forall|i: int| 0 <= i < own.len() implies (
        #[trigger] own[i])->FuncDef_function is Ok && statements[i] == function_of(
            own[i],
        ).statement@ by {
            assert(statements[i] == mapped.statements[i]);
        }
    }
}

/// What is said of a statement of a contract that cannot be mapped.
pub open spec fn complaint(stmt: ContractStmt) -> Seq<char> {
    match stmt {
        ContractStmt::ContractField { typ: Err(error), .. } => error@,
        ContractStmt::ContractField { .. } => "Contract field type not supported"@,
        ContractStmt::FuncDef { function: Err(error), .. } => error@,
        ContractStmt::FuncDef { .. } => Seq::empty(),
        ContractStmt::EventDef { .. } => "Unable to translate module statement."@,
    }
}

/// A contract with statements that cannot be mapped is refused with what is said of the first of
/// them.
pub proof fn lemma_contract_refused(body: Seq<ContractStmt>, support: Support, i: int)
    requires
        0 <= i < body.len(),
        !laws::mappable(body[i]),
        forall|j: int| 0 <= j < i ==> laws::mappable(#[trigger] body[j]),
    ensures
        contracts::map_contract(body, support) == Err::<StatementModel, _>(complaint(body[i])),
{
    lemma_first_complaint(body, i, body.len());
}

/// Once a statement cannot be mapped, what is said of it stays.
proof fn lemma_first_complaint(body: Seq<ContractStmt>, i: int, n: nat)
    requires
        0 <= i < body.len(),
        n <= body.len(),
        !laws::mappable(body[i]),
        forall|j: int| 0 <= j < i ==> laws::mappable(#[trigger] body[j]),
    ensures
        n <= i ==> contracts::map_stmts(body, n) is Ok,
        i < n ==> contracts::map_stmts(body, n) == Err::<contracts::MappedBody, _>(
            complaint(body[i]),
        ),
    decreases n,
{
    if n > 0 {
        lemma_first_complaint(body, i, (n - 1) as nat);
        if n <= i {
            assert(laws::mappable(body[n - 1]));
        }
    }
}

/// A contract whose statements can all be mapped compiles exactly if, of every name that can be
/// called from outside, the last definition is a function.
pub proof fn lemma_contract_accepted(body: Seq<ContractStmt>, support: Support)
    requires
        forall|i: int| 0 <= i < body.len() ==> laws::mappable(#[trigger] body[i]),
    ensures
        contracts::map_contract(body, support) is Ok <==> forall|k: int, j: int|
            0 <= k < public_functions(body).len() && #[trigger] last_to_define(
                body,
                j,
                defined(#[trigger] public_functions(body)[k]),
            ) ==> body[j] is FuncDef,
{
    lemma_all_mapped(body, body.len());
    lemma_scope(body, body.len());
    assert(body.take(body.len() as int) =~= body);
    let scope = contracts::map_stmts(body, body.len())->Ok_0.scope;
    let called = public_functions(body);
    let refused = abi::first_refused(scope.interface, scope.defs, 0);
    lemma_dispatcher_refused(scope.interface, scope.defs);
    laws::lemma_interface_defined(body, body.len());
    if refused < scope.interface.len() {
        let name = scope.interface[refused as int];
        assert(name == defined(called[refused as int]));
        assert(scope.defs.contains_key(name));
        let j = choose|j: int| #[trigger] last_to_define(body, j, name);
        assert(last_to_define(body, j, defined(called[refused as int])));
        assert(!(body[j] is FuncDef));
    } else {
        assert forall|k: int, j: int|
            0 <= k < called.len() && #[trigger] last_to_define(
                body,
                j,
                defined(#[trigger] called[k]),
            ) implies body[j] is FuncDef by {
            assert(scope.defs.contains_key(scope.interface[k]));
        }
    }
}

/// Statements that can be mapped are mapped.
proof fn lemma_all_mapped(body: Seq<ContractStmt>, n: nat)
    requires
        n <= body.len(),
        forall|i: int| 0 <= i < body.len() ==> laws::mappable(#[trigger] body[i]),
    ensures
        contracts::map_stmts(body, n) is Ok,
    decreases n,
{
    if n > 0 {
        lemma_all_mapped(body, (n - 1) as nat);
        assert(laws::mappable(body[n - 1]));
    }
}

} // verus!
