//! Small pieces of Yul.

use vstd::prelude::*;

use crate::text;
use crate::yul::ast;
use crate::yul::ast::{
    Expression, ExpressionModel, FunctionCall, FunctionCallModel, Identifier, IdentifierModel,
    Literal, LiteralModel, Statement, StatementModel, VariableDeclaration,
    VariableDeclarationModel,
};

verus! {

/// The name `text`.
pub open spec fn name(text: Seq<char>) -> IdentifierModel {
    IdentifierModel { identifier: text, yultype: None }
}

/// The literal `text`.
pub open spec fn literal_text(text: Seq<char>) -> LiteralModel {
    LiteralModel { literal: text, yultype: None }
}

/// The literal `n`.
pub open spec fn number(n: nat) -> ExpressionModel {
    ExpressionModel::Literal(literal_text(text::decimal(n)))
}

/// The variable `text`.
pub open spec fn variable(text: Seq<char>) -> ExpressionModel {
    ExpressionModel::Identifier(name(text))
}

/// `callee(arguments)`.
pub open spec fn call(callee: Seq<char>, arguments: Seq<ExpressionModel>) -> ExpressionModel {
    ExpressionModel::FunctionCall(FunctionCallModel { identifier: name(callee), arguments })
}

/// `let variable := value`.
pub open spec fn let_stmt(variable: Seq<char>, value: ExpressionModel) -> StatementModel {
    StatementModel::VariableDeclaration(
        VariableDeclarationModel { identifiers: seq![name(variable)], expression: Some(value) },
    )
}

/// Makes a name.
pub fn identifier(text: String) -> (identifier: Identifier)
    ensures
        identifier@ == name(text@),
{
    Identifier { identifier: text, yultype: None }
}

/// Makes a literal.
pub fn literal(text: String) -> (literal: Literal)
    ensures
        literal@ == literal_text(text@),
{
    Literal { literal: text, yultype: None }
}

/// Makes a literal of a number.
pub fn literal_expression(n: usize) -> (expression: Expression)
    ensures
        expression@ == number(n as nat),
{
    Expression::Literal(literal(text::decimal_string(n)))
}

/// Makes a variable.
pub fn identifier_expression(text: &str) -> (expression: Expression)
    ensures
        expression@ == variable(text@),
{
    Expression::Identifier(identifier(String::from_str(text)))
}

/// Makes a call.
pub fn call_expression(callee: String, arguments: Vec<Expression>) -> (expression: Expression)
    ensures
        expression@ == call(callee@, ast::expressions_model(arguments@)),
{
    let expression = Expression::FunctionCall(
        FunctionCall { identifier: identifier(callee), arguments },
    );
    proof {
        let model = expression@->FunctionCall_0;
        assert(model.arguments =~= ast::expressions_model(arguments@));
    }
    expression
}

/// Makes a call with two arguments.
pub fn call_of_two(callee: &str, first: Expression, second: Expression) -> (expression: Expression)
    ensures
        expression@ == call(callee@, seq![first@, second@]),
{
    let ghost models = seq![first@, second@];
    let mut arguments: Vec<Expression> = Vec::new();
    arguments.push(first);
    arguments.push(second);
    assert(ast::expressions_model(arguments@) =~= models);
    call_expression(String::from_str(callee), arguments)
}

/// Makes a declaration of one variable.
pub fn let_statement(variable: &str, value: Expression) -> (statement: Statement)
    ensures
        statement@ == let_stmt(variable@, value@),
{
    let mut identifiers: Vec<Identifier> = Vec::new();
    identifiers.push(identifier(String::from_str(variable)));
    assert(ast::identifiers_model(identifiers@) =~= seq![name(variable@)]);
    Statement::VariableDeclaration(
        VariableDeclaration { identifiers, expression: Some(value) },
    )
}

} // verus!
