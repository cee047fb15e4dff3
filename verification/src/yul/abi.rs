//! How the functions of a contract are called from outside.
//!
//! A call comes with data: the first four bytes select the function, and behind them stand the
//! arguments, each of them in words of its own.

use tiny_keccak::Hasher;
use vstd::prelude::*;

use crate::text;
use crate::yul::ast;
use crate::yul::ast::{
    Block, BlockModel, Case, CaseModel, Expression, ExpressionModel, Literal, LiteralModel,
    Statement, StatementModel, Switch, SwitchModel,
};
use crate::yul::pieces;
use crate::yul::errors::CompileError;
use crate::yul::scopes::{ContractDef, DefModel, Defs};
use crate::yul::types::{Array, Base, FixedSize};

verus! {

// Outside functions.

/// The first four bytes of the Keccak-256 hash of `data`.
pub uninterp spec fn keccak256_prefix(data: Seq<u8>) -> Seq<u8>;

/// Hashes bytes with `tiny_keccak::Keccak::v256`: `update` absorbs them all and `finalize` fills
/// the four bytes of the output.
///
/// The claim is that the bytes that come out depend on the bytes that went in alone. Which they
/// are is not said.
#[verifier::external_body]
fn keccak(data: &[u8]) -> (hash: [u8; 4])
    ensures
        hash@ == keccak256_prefix(data@),
{
    let mut keccak = tiny_keccak::Keccak::v256();
    let mut hash = [0u8; 4];
    keccak.update(data);
    keccak.finalize(&mut hash);
    hash
}

/// The character of a hexadecimal digit, in lower case.
pub open spec fn hex_digit(d: u8) -> char {
    if d < 10 {
        (48 + d) as char
    } else {
        (87 + d) as char
    }
}

/// Bytes in hexadecimal: two digits for each byte, the higher one first.
pub open spec fn lower_hex(bytes: Seq<u8>) -> Seq<char> {
    Seq::new(
        2 * bytes.len(),
        |i: int|
            if i % 2 == 0 {
                hex_digit(bytes[i / 2] / 16)
            } else {
                hex_digit(bytes[i / 2] % 16)
            },
    )
}

/// Writes bytes in hexadecimal with `hex::encode`, which takes two lower-case digits for each
/// byte, the higher one first.
#[verifier::external_body]
fn hex_encode(bytes: &[u8]) -> (digits: String)
    ensures
        digits@ == lower_hex(bytes@),
{
    hex::encode(bytes)
}

// Types and signatures.

/// The name of a type of single values.
pub open spec fn base_name(base: Base) -> Seq<char> {
    match base {
        Base::U256 => "uint256"@,
        Base::Address => "address"@,
        Base::Byte => "byte"@,
    }
}

/// The name of a type. Arrays of bytes have a name of their own.
pub open spec fn abi_name(typ: FixedSize) -> Seq<char> {
    match typ {
        FixedSize::Base(base) => base_name(base),
        FixedSize::Array(array) => if array.inner == Base::Byte {
            "bytes"@ + text::decimal(array.dimension as nat)
        } else {
            base_name(array.inner) + "["@ + text::decimal(array.dimension as nat) + "]"@
        },
    }
}

/// The names of types.
pub open spec fn abi_names(params: Seq<FixedSize>) -> Seq<Seq<char>> {
    Seq::new(params.len(), |i: int| abi_name(params[i]))
}

/// The signature of a function: its name, and the types of its parameters in parentheses.
pub open spec fn signature(name: Seq<char>, params: Seq<FixedSize>) -> Seq<char> {
    name + "("@ + text::joined(abi_names(params), ","@) + ")"@
}

/// The literal that stands for a hash.
pub open spec fn hash_literal(hash: Seq<u8>) -> LiteralModel {
    pieces::literal_text("0x"@ + lower_hex(hash))
}

/// The literal that selects a function.
pub open spec fn selector(name: Seq<char>, params: Seq<FixedSize>) -> LiteralModel {
    hash_literal(keccak256_prefix(vstd::utf8::encode_utf8(signature(name, params))))
}

/// Returns the name of a type of single values.
pub fn abi_type_base(typ: Base) -> (name: String)
    ensures
        name@ == base_name(typ),
{
    match typ {
        Base::U256 => String::from_str("uint256"),
        Base::Address => String::from_str("address"),
        Base::Byte => String::from_str("byte"),
    }
}

/// Returns the name of a type.
pub fn abi_type(typ: FixedSize) -> (name: String)
    ensures
        name@ == abi_name(typ),
{
    match typ {
        FixedSize::Base(base) => abi_type_base(base),
        FixedSize::Array(Array { dimension, inner }) => {
            let number = text::decimal_string(dimension);
            if inner == Base::Byte {
                return String::from_str("bytes").concat(number.as_str());
            }
            abi_type_base(inner).concat("[").concat(number.as_str()).concat("]")
        },
    }
}

/// Returns the signature of a function.
pub fn function_signature(name: &String, params: &Vec<FixedSize>) -> (text: String)
    ensures
        text@ == signature(name@, params@),
{
    let mut types: Vec<String> = Vec::new();
    let mut i: usize = 0;
    while i < params.len()
        invariant
            i <= params@.len(),
            types@.len() == i,
            forall|j: int| 0 <= j < i ==> #[trigger] types@[j]@ == abi_name(params@[j]),
        decreases params@.len() - i,
    {
        types.push(abi_type(params[i]));
        i += 1;
    }
    assert(text::texts(types@) =~= abi_names(params@));
    let list = text::join(&types, ",");
    name.clone().concat("(").concat(list.as_str()).concat(")")
}

/// Returns the literal that stands for a hash.
pub fn literal_of_hash(hash: [u8; 4]) -> (literal: Literal)
    ensures
        literal@ == hash_literal(hash@),
{
    let digits = hex_encode(hash.as_slice());
    pieces::literal(String::from_str("0x").concat(digits.as_str()))
}

/// Returns the literal that selects a function: the first bytes of the hash of its signature.
pub fn selector_literal(name: String, params: &Vec<FixedSize>) -> (literal: Literal)
    ensures
        literal@ == selector(name@, params@),
{
    let signature = function_signature(&name, params);
    let hash = keccak(signature.as_str().as_bytes());
    literal_of_hash(hash)
}

// Parameters.

/// Where the `i`-th parameter starts in the data of a call: behind the selector and the words of
/// the parameters before it.
pub open spec fn param_start(params: Seq<FixedSize>, i: nat) -> nat
    decreases i,
{
    if i == 0 {
        4
    } else {
        param_start(params, (i - 1) as nat) + params[i - 1].padded()
    }
}

/// Whether every position in the data of a call can be numbered.
pub open spec fn params_fit(params: Seq<FixedSize>) -> bool {
    param_start(params, params.len()) <= usize::MAX
}

/// The expression that reads the `i`-th parameter: single values are loaded, arrays are copied.
pub open spec fn parameter(params: Seq<FixedSize>, i: nat) -> ExpressionModel {
    let reader = match params[i as int] {
        FixedSize::Base(_) => "cloadn"@,
        FixedSize::Array(_) => "ccopy"@,
    };
    pieces::call(
        reader,
        seq![
            pieces::number(param_start(params, i)),
            pieces::number(params[i as int].bytes()),
        ],
    )
}

/// The expressions that read the parameters.
pub open spec fn parameters(params: Seq<FixedSize>) -> Seq<ExpressionModel> {
    Seq::new(params.len(), |i: int| parameter(params, i as nat))
}

/// A parameter starts behind those before it.
proof fn lemma_param_start_grows(params: Seq<FixedSize>, i: nat, j: nat)
    requires
        i <= j <= params.len(),
    ensures
        param_start(params, i) <= param_start(params, j),
    decreases j,
{
    if i < j {
        lemma_param_start_grows(params, i, (j - 1) as nat);
    }
}

/// Returns the expressions that read the parameters.
pub fn parameter_expressions(params: &Vec<FixedSize>) -> (expressions: Vec<Expression>)
    requires
        params_fit(params@),
    ensures
        ast::expressions_model(expressions@) == parameters(params@),
{
    let mut ptr: usize = 4;
    let mut expressions: Vec<Expression> = Vec::new();
    let mut i: usize = 0;
    while i < params.len()
        invariant
            i <= params@.len(),
            params_fit(params@),
            ptr == param_start(params@, i as nat),
            expressions@.len() == i,
            forall|j: int|
                0 <= j < i ==> #[trigger] expressions@[j]@ == parameter(params@, j as nat),
        decreases params@.len() - i,
    {
        let param = params[i];
        proof {
            lemma_param_start_grows(params@, (i + 1) as nat, params@.len());
        }
        let start = pieces::literal_expression(ptr);
        let size = pieces::literal_expression(param.size());
        ptr += param.size() + param.padding();
        expressions.push(
            match param {
                FixedSize::Base(_) => pieces::call_of_two("cloadn", start, size),
                FixedSize::Array(_) => pieces::call_of_two("ccopy", start, size),
            },
        );
        i += 1;
    }
    assert forall|j: int| 0 <= j < params@.len() implies #[trigger] ast::expressions_model(
        expressions@,
    )[j] == parameters(params@)[j] by {
        assert(expressions@[j]@ == parameter(params@, j as nat));
    }
    assert(ast::expressions_model(expressions@) =~= parameters(params@));
    expressions
}

// The dispatcher.

/// The statements that call a function and hand back what it returns. A value is written to
/// memory first; an array is there already.
pub open spec fn call_body(
    name: Seq<char>,
    params: Seq<FixedSize>,
    returned: Option<FixedSize>,
) -> Seq<StatementModel> {
    let called = pieces::call(name, parameters(params));
    match returned {
        None => seq![StatementModel::Expression(called)],
        Some(FixedSize::Array(array)) => seq![
            pieces::let_stmt("return_ptr"@, called),
            StatementModel::Expression(
                pieces::call(
                    "return"@,
                    seq![
                        pieces::variable("return_ptr"@),
                        pieces::number(FixedSize::Array(array).padded()),
                    ],
                ),
            ),
        ],
        Some(FixedSize::Base(base)) => seq![
            pieces::let_stmt("return_val"@, called),
            StatementModel::Expression(
                pieces::call("mstore"@, seq![pieces::number(0), pieces::variable("return_val"@)]),
            ),
            StatementModel::Expression(
                pieces::call(
                    "return"@,
                    seq![pieces::number(0), pieces::number(FixedSize::Base(base).padded())],
                ),
            ),
        ],
    }
}

/// The case of a function.
pub open spec fn call_case(
    name: Seq<char>,
    params: Seq<FixedSize>,
    returned: Option<FixedSize>,
) -> CaseModel {
    CaseModel {
        literal: Some(selector(name, params)),
        block: BlockModel { statements: call_body(name, params, returned) },
    }
}

/// Whether every size in the case of a function can be written.
pub open spec fn call_fits(params: Seq<FixedSize>, returned: Option<FixedSize>) -> bool {
    &&& params_fit(params)
    &&& returned matches Some(typ) ==> typ.padded() <= usize::MAX
}

/// Returns the case of a function.
pub fn function_call_case(
    name: String,
    params: &Vec<FixedSize>,
    returned: Option<FixedSize>,
) -> (case: Case)
    requires
        call_fits(params@, returned),
    ensures
        case@ == call_case(name@, params@, returned),
{
    let selector = selector_literal(name.clone(), params);
    let called = pieces::call_expression(name, parameter_expressions(params));
    let mut statements: Vec<Statement> = Vec::new();
    if let Some(typ) = returned {
        let return_size = pieces::literal_expression(typ.size() + typ.padding());
        match typ {
            FixedSize::Array(_) => {
                statements.push(pieces::let_statement("return_ptr", called));
                statements.push(
                    Statement::Expression(
                        pieces::call_of_two(
                            "return",
                            pieces::identifier_expression("return_ptr"),
                            return_size,
                        ),
                    ),
                );
            },
            FixedSize::Base(_) => {
                statements.push(pieces::let_statement("return_val", called));
                statements.push(
                    Statement::Expression(
                        pieces::call_of_two(
                            "mstore",
                            pieces::literal_expression(0),
                            pieces::identifier_expression("return_val"),
                        ),
                    ),
                );
                statements.push(
                    Statement::Expression(
                        pieces::call_of_two("return", pieces::literal_expression(0), return_size),
                    ),
                );
            },
        }
    } else {
        statements.push(Statement::Expression(called));
    }
    let case = Case { literal: Some(selector), block: Block { statements } };
    assert(case@.block.statements =~= call_body(name@, params@, returned));
    case
}

/// Whether a name stands for a function.
pub open spec fn callable(defs: Map<Seq<char>, DefModel>, name: Seq<char>) -> bool {
    defs.contains_key(name) && defs[name] is Function
}

/// Whether every size in the case of a name can be written.
pub open spec fn case_fits(defs: Map<Seq<char>, DefModel>, name: Seq<char>) -> bool {
    callable(defs, name) ==> call_fits(defs[name]->params, defs[name]->returned)
}

/// The case of a name that stands for a function.
pub open spec fn case_of(defs: Map<Seq<char>, DefModel>, name: Seq<char>) -> CaseModel {
    call_case(name, defs[name]->params, defs[name]->returned)
}

/// Why a name that does not stand for a function has no case.
pub open spec fn refusal(defs: Map<Seq<char>, DefModel>, name: Seq<char>) -> Seq<char> {
    if defs.contains_key(name) {
        "Cannot create case from definition"@
    } else {
        "No definition for name"@
    }
}

/// Returns the case of a name.
pub fn case(name: String, defs: &Defs) -> (case: Result<Case, CompileError>)
    requires
        defs.wf(),
        case_fits(defs@, name@),
    ensures
        match case {
            Ok(case) => callable(defs@, name@) && case@ == case_of(defs@, name@),
            Err(error) => !callable(defs@, name@) && error@ == refusal(defs@, name@),
        },
{
    if let Some(def) = defs.get(&name) {
        return match def {
            ContractDef::Function { params, returned } => Ok(
                function_call_case(name, params, *returned),
            ),
            _ => Err(CompileError::static_str("Cannot create case from definition")),
        };
    }
    Err(CompileError::static_str("No definition for name"))
}

/// The position of the first name from `i` on that does not stand for a function, or the number
/// of names.
pub open spec fn first_refused(
    interface: Seq<Seq<char>>,
    defs: Map<Seq<char>, DefModel>,
    i: nat,
) -> nat
    decreases interface.len() - i,
{
    if i >= interface.len() {
        interface.len()
    } else if !callable(defs, interface[i as int]) {
        i
    } else {
        first_refused(interface, defs, i + 1)
    }
}

/// The switch over the functions that can be called from outside: on the first four bytes of the
/// data of a call, with a case for each function, in order.
pub open spec fn dispatcher(
    interface: Seq<Seq<char>>,
    defs: Map<Seq<char>, DefModel>,
) -> StatementModel {
    StatementModel::Switch(
        SwitchModel {
            expression: pieces::call("cloadn"@, seq![pieces::number(0), pieces::number(4)]),
            cases: Seq::new(interface.len(), |i: int| case_of(defs, interface[i])),
        },
    )
}

/// Whether every size can be written in the cases up to the first name that has none.
pub open spec fn switch_fits(
    interface: Seq<Seq<char>>,
    defs: Map<Seq<char>, DefModel>,
) -> bool {
    forall|i: int|
        0 <= i < first_refused(interface, defs, 0) ==> case_fits(defs, #[trigger] interface[i])
}

/// Builds the switch over the functions that can be called from outside.
pub fn switch(interface: &Vec<String>, defs: &Defs) -> (statement: Result<
    Statement,
    CompileError,
>)
    requires
        defs.wf(),
        switch_fits(text::texts(interface@), defs@),
    ensures
        ({
            let names = text::texts(interface@);
            let refused = first_refused(names, defs@, 0);
            match statement {
                Ok(statement) => refused == names.len() && statement@ == dispatcher(names, defs@),
                Err(error) => refused < names.len() && error@ == refusal(
                    defs@,
                    names[refused as int],
                ),
            }
        }),
{
    let ghost names = text::texts(interface@);
    let mut cases: Vec<Case> = Vec::new();
    let mut i: usize = 0;
    proof {
        lemma_first_refused(names, defs@, 0);
    }
    while i < interface.len()
        invariant
            i <= interface@.len(),
            names == text::texts(interface@),
            defs.wf(),
            switch_fits(names, defs@),
            first_refused(names, defs@, i as nat) == first_refused(names, defs@, 0),
            i <= first_refused(names, defs@, 0) <= names.len(),
            cases@.len() == i,
            forall|j: int| 0 <= j < i ==> #[trigger] cases@[j]@ == case_of(defs@, names[j]),
        decreases interface@.len() - i,
    {
        let name = interface[i].clone();
        assert(names[i as int] == name@);
        assert(callable(defs@, name@) ==> i < first_refused(names, defs@, 0)) by {
            lemma_first_refused(names, defs@, (i + 1) as nat);
        }
        match case(name, defs) {
            Ok(built) => cases.push(built),
            Err(error) => return Err(error),
        }
        i += 1;
    }
    let switch = Switch {
        expression: pieces::call_of_two(
            "cloadn",
            pieces::literal_expression(0),
            pieces::literal_expression(4),
        ),
        cases,
    };
    let ghost expected = Seq::new(names.len(), |i: int| case_of(defs@, names[i]));
    assert forall|j: int| 0 <= j < names.len() implies #[trigger] ast::switch_model(
        switch,
    ).cases[j] == expected[j] by {
        assert(cases@[j]@ == case_of(defs@, names[j]));
    }
    assert(ast::switch_model(switch).cases =~= expected);
    Ok(Statement::Switch(switch))
}

/// The first name without a case is one of the names, or there is none.
pub proof fn lemma_first_refused(
    interface: Seq<Seq<char>>,
    defs: Map<Seq<char>, DefModel>,
    i: nat,
)
    requires
        i <= interface.len(),
    ensures
        i <= first_refused(interface, defs, i) <= interface.len(),
        forall|j: int|
            i <= j < first_refused(interface, defs, i) ==> callable(defs, #[trigger] interface[j]),
        first_refused(interface, defs, i) < interface.len() ==> !callable(
            defs,
            interface[first_refused(interface, defs, i) as int],
        ),
    decreases interface.len() - i,
{
    if i < interface.len() && callable(defs, interface[i as int]) {
        lemma_first_refused(interface, defs, i + 1);
    }
}

} // verus!
