use fe_compiler::text::{decimal_string, join};
use fe_compiler::yul::abi::{
    abi_type, abi_type_base, case, function_call_case, function_signature, literal_of_hash,
    parameter_expressions, selector_literal, switch,
};
use fe_compiler::yul::ast::{
    Block, Case, Code, Expression, FunctionCall, Identifier, Literal, Object, Statement, Switch,
    VariableDeclaration,
};
use fe_compiler::yul::contracts::{
    contract_def, contract_field, contract_stmt, ContractFieldQual, ContractStmt, FuncQual,
    MappedFunction, Support,
};
use fe_compiler::yul::errors::CompileError;
use fe_compiler::yul::scopes::{ContractDef, ContractScope, Defs};
use fe_compiler::yul::types::{Array, Base, FixedSize, Mapping, Type};

const U256: FixedSize = FixedSize::Base(Base::U256);
const ADDRESS: FixedSize = FixedSize::Base(Base::Address);
const BYTE: FixedSize = FixedSize::Base(Base::Byte);

fn array(dimension: usize, inner: Base) -> FixedSize {
    FixedSize::Array(Array { dimension, inner })
}

fn name(text: &str) -> Identifier {
    Identifier { identifier: text.to_string(), yultype: None }
}

fn lit(text: &str) -> Literal {
    Literal { literal: text.to_string(), yultype: None }
}

fn num(text: &str) -> Expression {
    Expression::Literal(lit(text))
}

fn var(text: &str) -> Expression {
    Expression::Identifier(name(text))
}

fn call(callee: &str, arguments: Vec<Expression>) -> Expression {
    Expression::FunctionCall(FunctionCall { identifier: name(callee), arguments })
}

fn declare(variable: &str, value: Expression) -> Statement {
    Statement::VariableDeclaration(VariableDeclaration {
        identifiers: vec![name(variable)],
        expression: Some(value),
    })
}

fn function(params: Vec<FixedSize>, returned: Option<FixedSize>) -> ContractDef {
    ContractDef::Function { params, returned }
}

const MAP: Mapping = Mapping { key: Base::Address, value: U256 };

fn message<T>(result: Result<T, CompileError>) -> String {
    match result {
        Ok(_) => panic!("no error"),
        Err(error) => error.message,
    }
}

#[test]
fn numbers_in_decimal() {
    assert_eq!(decimal_string(0), "0");
    assert_eq!(decimal_string(9), "9");
    assert_eq!(decimal_string(10), "10");
    assert_eq!(decimal_string(1234567890), "1234567890");
    assert_eq!(decimal_string(usize::MAX), usize::MAX.to_string());
}

#[test]
fn joined_texts() {
    assert_eq!(join(&vec![], ","), "");
    assert_eq!(join(&vec!["a".to_string()], ","), "a");
    assert_eq!(join(&vec!["a".to_string(), "b".to_string(), "c".to_string()], ", "), "a, b, c");
}

#[test]
fn names_of_types() {
    assert_eq!(abi_type_base(Base::U256), "uint256");
    assert_eq!(abi_type_base(Base::Address), "address");
    assert_eq!(abi_type_base(Base::Byte), "byte");
    assert_eq!(abi_type(U256), "uint256");
    assert_eq!(abi_type(BYTE), "byte");
    assert_eq!(abi_type(array(100, Base::Byte)), "bytes100");
    assert_eq!(abi_type(array(3, Base::U256)), "uint256[3]");
    assert_eq!(abi_type(array(0, Base::Address)), "address[0]");
}

#[test]
fn sizes_and_padding() {
    assert_eq!((U256.size(), U256.padding()), (32, 0));
    assert_eq!((ADDRESS.size(), ADDRESS.padding()), (32, 0));
    assert_eq!((BYTE.size(), BYTE.padding()), (1, 31));
    assert_eq!((array(100, Base::Byte).size(), array(100, Base::Byte).padding()), (100, 28));
    assert_eq!((array(32, Base::Byte).size(), array(32, Base::Byte).padding()), (32, 0));
    assert_eq!((array(5, Base::U256).size(), array(5, Base::U256).padding()), (160, 0));
    assert_eq!((array(0, Base::U256).size(), array(0, Base::U256).padding()), (0, 0));
}

#[test]
fn signatures() {
    assert_eq!(function_signature(&"foo".to_string(), &vec![]), "foo()");
    assert_eq!(
        function_signature(&"foo".to_string(), &vec![U256, array(2, Base::Byte), ADDRESS]),
        "foo(uint256,bytes2,address)"
    );
}

#[test]
fn signatures_of_odd_names() {
    assert_eq!(function_signature(&"f(uint256,".to_string(), &vec![]), "f(uint256,()");
    assert_ne!(
        function_signature(&"f(uint256)".to_string(), &vec![]),
        function_signature(&"f".to_string(), &vec![U256])
    );
}

#[test]
fn test_selector_literal() {
    assert_eq!(selector_literal("bar".to_string(), &vec![U256]), lit("0x0423a132"));
}

#[test]
fn test_selector_literal_basic() {
    assert_eq!(selector_literal("foo".to_string(), &vec![]), lit("0xc2985578"));
}

#[test]
fn selectors_tell_parameters_apart() {
    assert_eq!(selector_literal("foo".to_string(), &vec![U256]), lit("0x2fbebd38"));
    assert_eq!(
        selector_literal("transfer".to_string(), &vec![ADDRESS, U256]),
        lit("0xa9059cbb")
    );
}

#[test]
fn hashes_in_hexadecimal() {
    assert_eq!(literal_of_hash([0x00, 0x0f, 0xf0, 0xab]), lit("0x000ff0ab"));
    assert_eq!(literal_of_hash([0x12, 0x34, 0x56, 0x78]), lit("0x12345678"));
    assert_eq!(literal_of_hash([0x9c, 0xde, 0xff, 0x01]), lit("0x9cdeff01"));
}

#[test]
fn parameters_stand_behind_each_other() {
    assert_eq!(parameter_expressions(&vec![]), vec![]);
    assert_eq!(
        parameter_expressions(&vec![U256, array(100, Base::Byte), BYTE, ADDRESS]),
        vec![
            call("cloadn", vec![num("4"), num("32")]),
            call("ccopy", vec![num("36"), num("100")]),
            call("cloadn", vec![num("164"), num("1")]),
            call("cloadn", vec![num("196"), num("32")]),
        ]
    );
}

#[test]
fn a_function_that_returns_nothing() {
    assert_eq!(
        function_call_case("foo".to_string(), &vec![], None),
        Case {
            literal: Some(lit("0xc2985578")),
            block: Block { statements: vec![Statement::Expression(call("foo", vec![]))] },
        }
    );
}

#[test]
fn a_function_that_returns_a_value() {
    assert_eq!(
        function_call_case("foo".to_string(), &vec![U256], Some(U256)),
        Case {
            literal: Some(lit("0x2fbebd38")),
            block: Block {
                statements: vec![
                    declare(
                        "return_val",
                        call("foo", vec![call("cloadn", vec![num("4"), num("32")])])
                    ),
                    Statement::Expression(call("mstore", vec![num("0"), var("return_val")])),
                    Statement::Expression(call("return", vec![num("0"), num("32")])),
                ],
            },
        }
    );
}

#[test]
fn a_function_that_returns_an_array() {
    assert_eq!(
        function_call_case("foo".to_string(), &vec![], Some(array(100, Base::Byte))),
        Case {
            literal: Some(lit("0xc2985578")),
            block: Block {
                statements: vec![
                    declare("return_ptr", call("foo", vec![])),
                    Statement::Expression(call("return", vec![var("return_ptr"), num("128")])),
                ],
            },
        }
    );
}

#[test]
fn what_is_returned_does_not_change_the_selector() {
    let none = function_call_case("foo".to_string(), &vec![U256], None);
    let some = function_call_case("foo".to_string(), &vec![U256], Some(ADDRESS));
    assert_eq!(none.literal, some.literal);
}

#[test]
fn definitions_are_replaced() {
    let mut defs = Defs::new();
    assert_eq!(defs.get(&"foo".to_string()), None);
    defs.insert("foo".to_string(), function(vec![], None));
    defs.insert("bar".to_string(), function(vec![U256], None));
    defs.insert("foo".to_string(), ContractDef::Mapping { map: MAP });
    assert_eq!(defs.get(&"foo".to_string()), Some(&ContractDef::Mapping { map: MAP }));
    assert_eq!(defs.get(&"bar".to_string()), Some(&function(vec![U256], None)));
    assert_eq!(defs.entries.len(), 2);
}

#[test]
fn cases_of_names() {
    let mut defs = Defs::new();
    defs.insert("foo".to_string(), function(vec![], None));
    defs.insert("balances".to_string(), ContractDef::Mapping { map: MAP });
    assert_eq!(
        case("foo".to_string(), &defs),
        Ok(function_call_case("foo".to_string(), &vec![], None))
    );
    assert_eq!(
        message(case("balances".to_string(), &defs)),
        "Cannot create case from definition"
    );
    assert_eq!(message(case("bar".to_string(), &defs)), "No definition for name");
}

#[test]
fn test_switch_basic() {
    let mut defs = Defs::new();
    defs.insert("foo".to_string(), function(vec![], None));
    defs.insert("bar".to_string(), function(vec![U256], Some(U256)));
    assert_eq!(
        switch(&vec!["foo".to_string(), "bar".to_string()], &defs),
        Ok(Statement::Switch(Switch {
            expression: call("cloadn", vec![num("0"), num("4")]),
            cases: vec![
                function_call_case("foo".to_string(), &vec![], None),
                function_call_case("bar".to_string(), &vec![U256], Some(U256)),
            ],
        }))
    );
}

#[test]
fn switch_over_nothing() {
    assert_eq!(
        switch(&vec![], &Defs::new()),
        Ok(Statement::Switch(Switch {
            expression: call("cloadn", vec![num("0"), num("4")]),
            cases: vec![],
        }))
    );
}

#[test]
fn switch_is_refused_for_the_first_name_that_is_no_function() {
    let mut defs = Defs::new();
    defs.insert("foo".to_string(), function(vec![], None));
    defs.insert("balances".to_string(), ContractDef::Mapping { map: MAP });
    let interface: Vec<String> = vec!["foo".to_string(), "balances".to_string(), "bar".to_string()];
    assert_eq!(message(switch(&interface, &defs)), "Cannot create case from definition");
    let interface: Vec<String> = vec!["bar".to_string(), "balances".to_string()];
    assert_eq!(message(switch(&interface, &defs)), "No definition for name");
}

fn field(name: &str, typ: Result<Type, CompileError>) -> ContractStmt {
    ContractStmt::ContractField {
        qual: Some(ContractFieldQual::Pub),
        name: name.to_string(),
        typ,
    }
}

fn func(name: &str, public: bool, marker: Statement) -> ContractStmt {
    ContractStmt::FuncDef {
        qual: if public { Some(FuncQual::Pub) } else { None },
        name: name.to_string(),
        function: Ok(MappedFunction { statement: marker, params: vec![], returned: None }),
    }
}

fn support() -> Support {
    Support {
        constructor: Code { block: Block { statements: vec![Statement::Continue] } },
        functions: vec![Statement::Break],
    }
}

fn marker(text: &str) -> Statement {
    Statement::Expression(var(text))
}

#[test]
fn a_contract_is_an_object_in_an_object() {
    let body = vec![
        field("balances", Ok(Type::Mapping(MAP))),
        func("foo", true, marker("first")),
        func("helper", false, marker("second")),
        func("bar", true, marker("third")),
    ];
    let mut defs = Defs::new();
    defs.insert("foo".to_string(), function(vec![], None));
    defs.insert("bar".to_string(), function(vec![], None));
    let dispatcher = switch(&vec!["foo".to_string(), "bar".to_string()], &defs).unwrap();
    assert_eq!(
        contract_def("Token".to_string(), body, support()),
        Ok(Statement::Object(Object {
            name: name("Contract"),
            code: Code { block: Block { statements: vec![Statement::Continue] } },
            objects: vec![Object {
                name: name("runtime"),
                code: Code {
                    block: Block {
                        statements: vec![
                            marker("first"),
                            marker("second"),
                            marker("third"),
                            Statement::Break,
                            dispatcher,
                        ],
                    },
                },
                objects: vec![],
            }],
        }))
    );
}

#[test]
fn a_contract_stops_at_its_first_error() {
    let oops = CompileError::static_str("oops");
    let body = vec![
        func("foo", true, marker("first")),
        field("x", Err(oops)),
        ContractStmt::EventDef { name: "Sent".to_string() },
    ];
    assert_eq!(message(contract_def("Token".to_string(), body, support())), "oops");
}

#[test]
fn events_are_not_mapped() {
    let body = vec![ContractStmt::EventDef { name: "Sent".to_string() }];
    assert_eq!(
        message(contract_def("Token".to_string(), body, support())),
        "Unable to translate module statement."
    );
}

#[test]
fn a_function_that_cannot_be_mapped() {
    let mut scope = ContractScope::new();
    let stmt = ContractStmt::FuncDef {
        qual: Some(FuncQual::Pub),
        name: "foo".to_string(),
        function: Err(CompileError::static_str("no such type")),
    };
    assert_eq!(message(contract_stmt(&mut scope, stmt)), "no such type");
    assert!(scope.interface.is_empty());
}

#[test]
fn only_mappings_can_be_fields() {
    let mut scope = ContractScope::new();
    assert_eq!(
        message(contract_field(&mut scope, None, "x".to_string(), Ok(Type::Base(Base::U256)))),
        "Contract field type not supported"
    );
    let bytes = Type::Array(Array { dimension: 2, inner: Base::Byte });
    assert_eq!(
        message(contract_stmt(&mut scope, field("x", Ok(bytes)))),
        "Contract field type not supported"
    );
    assert_eq!(
        contract_field(&mut scope, None, "x".to_string(), Ok(Type::Mapping(MAP))),
        Ok(())
    );
    assert_eq!(
        scope.defs.get(&"x".to_string()),
        Some(&ContractDef::Mapping { map: MAP })
    );
}

#[test]
fn a_field_that_takes_over_the_name_of_a_function() {
    let body = vec![
        func("foo", true, marker("first")),
        field("foo", Ok(Type::Mapping(MAP))),
    ];
    assert_eq!(
        message(contract_def("Token".to_string(), body, support())),
        "Cannot create case from definition"
    );
}

#[test]
fn functions_are_added_to_the_scope() {
    let mut scope = ContractScope::new();
    assert_eq!(
        contract_stmt(&mut scope, func("foo", true, marker("first"))),
        Ok(Some(marker("first")))
    );
    assert_eq!(
        contract_stmt(&mut scope, func("bar", false, marker("second"))),
        Ok(Some(marker("second")))
    );
    assert_eq!(scope.interface, vec!["foo".to_string()]);
    assert_eq!(scope.defs.get(&"bar".to_string()), Some(&function(vec![], None)));
}
