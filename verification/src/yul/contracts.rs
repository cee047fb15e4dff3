//! From the statements of a contract to a Yul object.

use vstd::prelude::*;

use crate::yul::abi;
use crate::yul::ast;
use crate::yul::ast::{
    Block, BlockModel, Code, CodeModel, Object, ObjectModel, Statement, StatementModel,
};
use crate::yul::errors::CompileError;
use crate::yul::pieces;
use crate::yul::scopes::{ContractScope, ScopeModel};
use crate::yul::types::{FixedSize, Type};

verus! {

/// Who can read a field.
#[derive(Debug, Clone, Copy, PartialEq, Eq, Hash, Structural)]
pub enum ContractFieldQual {
    Pub,
}

/// Who can call a function.
#[derive(Debug, Clone, Copy, PartialEq, Eq, Hash, Structural)]
pub enum FuncQual {
    Pub,
}

/// A function of a contract, in Yul, with the types of its parameters and of what it returns.
#[derive(Debug, PartialEq, Eq, Hash)]
pub struct MappedFunction {
    pub statement: Statement,
    pub params: Vec<FixedSize>,
    pub returned: Option<FixedSize>,
}

/// A statement of a contract. The type of a field and the body of a function come resolved, or
/// with the error that they led to.
#[derive(Debug, PartialEq, Eq, Hash)]
pub enum ContractStmt {
    ContractField {
        qual: Option<ContractFieldQual>,
        name: String,
        typ: Result<Type, CompileError>,
    },
    FuncDef {
        qual: Option<FuncQual>,
        name: String,
        function: Result<MappedFunction, CompileError>,
    },
    EventDef { name: String },
}

/// What every contract comes with: the code that deploys it, and the functions that the functions
/// of the contract rely on.
#[derive(Debug, PartialEq, Eq, Hash)]
pub struct Support {
    pub constructor: Code,
    pub functions: Vec<Statement>,
}

/// What a statement of a contract adds to the scope, and the Yul statement that it becomes.
pub struct Mapped {
    pub scope: ScopeModel,
    pub statement: Option<StatementModel>,
}

/// Mapping a field adds a mapping to the scope; fields of other types are not supported.
pub open spec fn map_field(
    scope: ScopeModel,
    name: Seq<char>,
    typ: Result<Type, CompileError>,
) -> Result<ScopeModel, Seq<char>> {
    match typ {
        Ok(Type::Mapping(map)) => Ok(scope.with_map(name, map)),
        Ok(_) => Err("Contract field type not supported"@),
        Err(error) => Err(error@),
    }
}

/// Mapping a statement.
pub open spec fn map_stmt(scope: ScopeModel, stmt: ContractStmt) -> Result<Mapped, Seq<char>> {
    match stmt {
        ContractStmt::ContractField { name, typ, .. } => match map_field(scope, name@, typ) {
            Ok(scope) => Ok(Mapped { scope, statement: None }),
            Err(error) => Err(error),
        },
        ContractStmt::FuncDef { qual, name, function } => match function {
            Ok(function) => Ok(
                Mapped {
                    scope: scope.with_function(
                        name@,
                        qual is Some,
                        function.params@,
                        function.returned,
                    ),
                    statement: Some(function.statement@),
                },
            ),
            Err(error) => Err(error@),
        },
        ContractStmt::EventDef { .. } => Err("Unable to translate module statement."@),
    }
}

/// What the statements of a contract add up to: the scope and the Yul statements, in order.
pub struct MappedBody {
    pub scope: ScopeModel,
    pub statements: Seq<StatementModel>,
}

/// Mapping the first `n` statements, one after the other, up to the first error.
pub open spec fn map_stmts(body: Seq<ContractStmt>, n: nat) -> Result<MappedBody, Seq<char>>
    decreases n,
{
    if n == 0 {
        Ok(MappedBody { scope: ScopeModel::empty(), statements: Seq::empty() })
    } else {
        match map_stmts(body, (n - 1) as nat) {
            Err(error) => Err(error),
            Ok(before) => match map_stmt(before.scope, body[n - 1]) {
                Err(error) => Err(error),
                Ok(mapped) => Ok(
                    MappedBody {
                        scope: mapped.scope,
                        statements: match mapped.statement {
                            Some(statement) => before.statements.push(statement),
                            None => before.statements,
                        },
                    },
                ),
            },
        }
    }
}

/// The statements that run when a contract is called: its functions, the functions that they
/// rely on, and the dispatcher.
pub open spec fn runtime(
    mapped: MappedBody,
    functions: Seq<StatementModel>,
) -> Seq<StatementModel> {
    (mapped.statements + functions).push(
        abi::dispatcher(mapped.scope.interface, mapped.scope.defs),
    )
}

/// The object of a contract: the code that deploys it, around the code that is deployed.
pub open spec fn contract_object(
    constructor: CodeModel,
    statements: Seq<StatementModel>,
) -> StatementModel {
    StatementModel::Object(
        ObjectModel {
            name: pieces::name("Contract"@),
            code: constructor,
            objects: seq![
                ObjectModel {
                    name: pieces::name("runtime"@),
                    code: CodeModel { block: BlockModel { statements } },
                    objects: Seq::empty(),
                },
            ],
        },
    )
}

/// What a contract becomes.
pub open spec fn map_contract(body: Seq<ContractStmt>, support: Support) -> Result<
    StatementModel,
    Seq<char>,
> {
    match map_stmts(body, body.len()) {
        Err(error) => Err(error),
        Ok(mapped) => {
            let interface = mapped.scope.interface;
            let refused = abi::first_refused(interface, mapped.scope.defs, 0);
            if refused < interface.len() {
                Err(abi::refusal(mapped.scope.defs, interface[refused as int]))
            } else {
                Ok(
                    contract_object(
                        support.constructor@,
                        runtime(mapped, ast::statements_model(support.functions@)),
                    ),
                )
            }
        },
    }
}

/// Builds the Yul object of a contract. Whatever the contract is called, its object is called
/// `Contract`.
pub fn contract_def(name: String, body: Vec<ContractStmt>, support: Support) -> (object: Result<
    Statement,
    CompileError,
>)
    requires
        map_stmts(body@, body@.len()) matches Ok(mapped) ==> abi::switch_fits(
            mapped.scope.interface,
            mapped.scope.defs,
        ),
    ensures
        match object {
            Ok(object) => map_contract(body@, support) == Ok::<_, Seq<char>>(object@),
            Err(error) => map_contract(body@, support) == Err::<StatementModel, _>(error@),
        },
{
    let mut contract_scope = ContractScope::new();
    let mut statements: Vec<Statement> = Vec::new();
    let ghost all = body@;
    assert(ast::statements_model(statements@) =~= Seq::<StatementModel>::empty());
    for stmt in it: body.into_iter()
        invariant
            it.seq() == all,
            contract_scope.defs.wf(),
            map_stmts(all, it.index() as nat) == Ok::<_, Seq<char>>(
                (MappedBody {
                    scope: contract_scope@,
                    statements: ast::statements_model(statements@),
                }),
            ),
    {
        let ghost before = statements@;
        let ghost n = it.index() as nat;
        match contract_stmt(&mut contract_scope, stmt) {
            Ok(Some(statement)) => {
                statements.push(statement);
                assert(ast::statements_model(statements@) =~= ast::statements_model(before).push(
                    statement@,
                ));
            },
            Ok(None) => {},
            Err(error) => {
                proof {
                    lemma_error_stays(all, (n + 1) as nat, all.len());
                }
                return Err(error);
            },
        }
    }
    let Support { constructor, functions } = support;
    let ghost mapped = MappedBody {
        scope: contract_scope@,
        statements: ast::statements_model(statements@),
    };
    let ghost helpers = functions@;
    let mut functions = functions;
    statements.append(&mut functions);
    match abi::switch(&contract_scope.interface, &contract_scope.defs) {
        Ok(dispatcher) => {
            statements.push(dispatcher);
            assert(ast::statements_model(statements@) =~= runtime(
                mapped,
                ast::statements_model(helpers),
            ));
        },
        Err(error) => return Err(error),
    }
    let ghost deployed = ast::statements_model(statements@);
    let inner = Object {
        name: pieces::identifier(String::from_str("runtime")),
        code: Code { block: Block { statements } },
        objects: Vec::new(),
    };
    assert(ast::block_model(inner.code.block).statements =~= deployed);
    assert(ast::object_model(inner).code.block == ast::block_model(inner.code.block)) by {
        reveal_with_fuel(ast::object_model, 2);
        reveal_with_fuel(ast::block_model, 2);
    }
    assert(ast::object_model(inner).objects =~= Seq::<ObjectModel>::empty());
    let ghost inner_model = ast::object_model(inner);
    let mut objects: Vec<Object> = Vec::new();
    objects.push(inner);
    let object = Object {
        name: pieces::identifier(String::from_str("Contract")),
        code: constructor,
        objects,
    };
    assert(ast::object_model(object).objects =~= seq![inner_model]);
    Ok(Statement::Object(object))
}

/// An error that the first `m` statements lead to is the one that more statements lead to.
proof fn lemma_error_stays(body: Seq<ContractStmt>, m: nat, n: nat)
    requires
        m <= n,
        map_stmts(body, m) is Err,
    ensures
        map_stmts(body, n) == map_stmts(body, m),
    decreases n,
{
    if m < n {
        lemma_error_stays(body, m, (n - 1) as nat);
    }
}

/// Maps a statement of a contract.
pub fn contract_stmt(scope: &mut ContractScope, stmt: ContractStmt) -> (statement: Result<
    Option<Statement>,
    CompileError,
>)
    requires
        old(scope).defs.wf(),
    ensures
        final(scope).defs.wf(),
        match (statement, map_stmt(old(scope)@, stmt)) {
            (Ok(statement), Ok(mapped)) => {
                &&& final(scope)@ == mapped.scope
                &&& match (statement, mapped.statement) {
                    (Some(statement), Some(model)) => statement@ == model,
                    (None, None) => true,
                    _ => false,
                }
            },
            (Err(error), Err(message)) => error@ == message && final(scope)@ == old(scope)@,
            _ => false,
        },
{
    match stmt {
        ContractStmt::ContractField { qual, name, typ } => {
            match contract_field(scope, qual, name, typ) {
                Ok(()) => Ok(None),
                Err(error) => Err(error),
            }
        },
        ContractStmt::FuncDef { qual, name, function } => match function {
            Ok(MappedFunction { statement, params, returned }) => {
                scope.add_function(name, qual.is_some(), params, returned);
                Ok(Some(statement))
            },
            Err(error) => Err(error),
        },
        _ => Err(CompileError::static_str("Unable to translate module statement.")),
    }
}

/// Adds a field to the scope of a contract.
pub fn contract_field(
    scope: &mut ContractScope,
    qual: Option<ContractFieldQual>,
    name: String,
    typ: Result<Type, CompileError>,
) -> (added: Result<(), CompileError>)
    requires
        old(scope).defs.wf(),
    ensures
        final(scope).defs.wf(),
        match (added, map_field(old(scope)@, name@, typ)) {
            (Ok(()), Ok(scope_after)) => final(scope)@ == scope_after,
            (Err(error), Err(message)) => error@ == message && final(scope)@ == old(scope)@,
            _ => false,
        },
{
    match typ {
        Ok(Type::Mapping(map)) => {
            scope.add_map(name, map);
            Ok(())
        },
        Ok(_) => Err(CompileError::static_str("Contract field type not supported")),
        Err(error) => Err(error),
    }
}

} // verus!
