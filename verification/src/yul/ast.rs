//! The syntax of Yul, and what contracts say of it.
//!
//! For each kind of node there is a model, in which texts are sequences of characters and lists
//! are sequences. The view of a node is its model.

use vstd::prelude::*;

verus! {

/// The type of a value.
#[derive(Debug, Clone, PartialEq, Eq, Hash)]
pub enum Type {
    Bool,
    Uint256,
    Uint128,
    Uint64,
    Uint32,
    Uint8,
    Int256,
    Int128,
    Int64,
    Int32,
    Int8,
    Custom(String),
}

/// Statements in braces.
#[derive(Debug, PartialEq, Eq, Hash)]
pub struct Block {
    pub statements: Vec<Statement>,
}

/// A literal, as it is written.
#[derive(Debug, Clone, PartialEq, Eq, Hash)]
pub struct Literal {
    pub literal: String,
    pub yultype: Option<Type>,
}

/// A name.
#[derive(Debug, Clone, PartialEq, Eq, Hash)]
pub struct Identifier {
    pub identifier: String,
    pub yultype: Option<Type>,
}

/// A call.
#[derive(Debug, PartialEq, Eq, Hash)]
pub struct FunctionCall {
    pub identifier: Identifier,
    pub arguments: Vec<Expression>,
}

/// The definition of a function.
#[derive(Debug, PartialEq, Eq, Hash)]
pub struct FunctionDefinition {
    pub name: Identifier,
    pub parameters: Vec<Identifier>,
    pub returns: Vec<Identifier>,
    pub block: Block,
}

/// `let` with names and, possibly, a value.
#[derive(Debug, PartialEq, Eq, Hash)]
pub struct VariableDeclaration {
    pub identifiers: Vec<Identifier>,
    pub expression: Option<Expression>,
}

/// An assignment.
#[derive(Debug, PartialEq, Eq, Hash)]
pub struct Assignment {
    pub identifiers: Vec<Identifier>,
    pub expression: Expression,
}

/// Expressions.
#[derive(Debug, PartialEq, Eq, Hash)]
pub enum Expression {
    Literal(Literal),
    Identifier(Identifier),
    FunctionCall(FunctionCall),
}

/// `if`, which has no else-branch.
#[derive(Debug, PartialEq, Eq, Hash)]
pub struct If {
    pub expression: Expression,
    pub block: Block,
}

/// One case of a switch; without a literal it is the default.
#[derive(Debug, PartialEq, Eq, Hash)]
pub struct Case {
    pub literal: Option<Literal>,
    pub block: Block,
}

/// A switch.
#[derive(Debug, PartialEq, Eq, Hash)]
pub struct Switch {
    pub expression: Expression,
    pub cases: Vec<Case>,
}

/// A `for` loop.
#[derive(Debug, PartialEq, Eq, Hash)]
pub struct ForLoop {
    pub pre: Block,
    pub condition: Expression,
    pub post: Block,
    pub body: Block,
}

/// The code of an object.
#[derive(Debug, PartialEq, Eq, Hash)]
pub struct Code {
    pub block: Block,
}

/// An object: code that is deployed as one piece, and the objects inside it.
#[derive(Debug, PartialEq, Eq, Hash)]
pub struct Object {
    pub name: Identifier,
    pub code: Code,
    pub objects: Vec<Object>,
}

/// Statements.
#[derive(Debug, PartialEq, Eq, Hash)]
pub enum Statement {
    Block(Block),
    FunctionDefinition(FunctionDefinition),
    VariableDeclaration(VariableDeclaration),
    Assignment(Assignment),
    Expression(Expression),
    If(If),
    Switch(Switch),
    ForLoop(ForLoop),
    Break,
    Continue,
    Object(Object),
}

/// Models `Type`.
pub enum TypeModel {
    Bool,
    Uint256,
    Uint128,
    Uint64,
    Uint32,
    Uint8,
    Int256,
    Int128,
    Int64,
    Int32,
    Int8,
    Custom(Seq<char>),
}

/// Models `Block`.
#[verifier::ext_equal]
pub struct BlockModel {
    pub statements: Seq<StatementModel>,
}

/// Models `Literal`.
#[verifier::ext_equal]
pub struct LiteralModel {
    pub literal: Seq<char>,
    pub yultype: Option<TypeModel>,
}

/// Models `Identifier`.
#[verifier::ext_equal]
pub struct IdentifierModel {
    pub identifier: Seq<char>,
    pub yultype: Option<TypeModel>,
}

/// Models `FunctionCall`.
#[verifier::ext_equal]
pub struct FunctionCallModel {
    pub identifier: IdentifierModel,
    pub arguments: Seq<ExpressionModel>,
}

/// Models `FunctionDefinition`.
#[verifier::ext_equal]
pub struct FunctionDefinitionModel {
    pub name: IdentifierModel,
    pub parameters: Seq<IdentifierModel>,
    pub returns: Seq<IdentifierModel>,
    pub block: BlockModel,
}

/// Models `VariableDeclaration`.
#[verifier::ext_equal]
pub struct VariableDeclarationModel {
    pub identifiers: Seq<IdentifierModel>,
    pub expression: Option<ExpressionModel>,
}

/// Models `Assignment`.
#[verifier::ext_equal]
pub struct AssignmentModel {
    pub identifiers: Seq<IdentifierModel>,
    pub expression: ExpressionModel,
}

/// Models `Expression`.
#[verifier::ext_equal]
pub enum ExpressionModel {
    Literal(LiteralModel),
    Identifier(IdentifierModel),
    FunctionCall(FunctionCallModel),
}

/// Models `If`.
#[verifier::ext_equal]
pub struct IfModel {
    pub expression: ExpressionModel,
    pub block: BlockModel,
}

/// Models `Case`.
#[verifier::ext_equal]
pub struct CaseModel {
    pub literal: Option<LiteralModel>,
    pub block: BlockModel,
}

/// Models `Switch`.
#[verifier::ext_equal]
pub struct SwitchModel {
    pub expression: ExpressionModel,
    pub cases: Seq<CaseModel>,
}

/// Models `ForLoop`.
#[verifier::ext_equal]
pub struct ForLoopModel {
    pub pre: BlockModel,
    pub condition: ExpressionModel,
    pub post: BlockModel,
    pub body: BlockModel,
}

/// Models `Code`.
#[verifier::ext_equal]
pub struct CodeModel {
    pub block: BlockModel,
}

/// Models `Object`.
#[verifier::ext_equal]
pub struct ObjectModel {
    pub name: IdentifierModel,
    pub code: CodeModel,
    pub objects: Seq<ObjectModel>,
}

/// Models `Statement`.
#[verifier::ext_equal]
pub enum StatementModel {
    Block(BlockModel),
    FunctionDefinition(FunctionDefinitionModel),
    VariableDeclaration(VariableDeclarationModel),
    Assignment(AssignmentModel),
    Expression(ExpressionModel),
    If(IfModel),
    Switch(SwitchModel),
    ForLoop(ForLoopModel),
    Break,
    Continue,
    Object(ObjectModel),
}

impl View for Type {
    type V = TypeModel;

    open spec fn view(&self) -> TypeModel {
        match *self {
            Type::Bool => TypeModel::Bool,
            Type::Uint256 => TypeModel::Uint256,
            Type::Uint128 => TypeModel::Uint128,
            Type::Uint64 => TypeModel::Uint64,
            Type::Uint32 => TypeModel::Uint32,
            Type::Uint8 => TypeModel::Uint8,
            Type::Int256 => TypeModel::Int256,
            Type::Int128 => TypeModel::Int128,
            Type::Int64 => TypeModel::Int64,
            Type::Int32 => TypeModel::Int32,
            Type::Int8 => TypeModel::Int8,
            Type::Custom(name) => TypeModel::Custom(name@),
        }
    }
}

/// The model of an optional type.
pub open spec fn type_model(yultype: Option<Type>) -> Option<TypeModel> {
    match yultype {
        Some(yultype) => Some(yultype@),
        None => None,
    }
}

impl View for Literal {
    type V = LiteralModel;

    open spec fn view(&self) -> LiteralModel {
        LiteralModel { literal: self.literal@, yultype: type_model(self.yultype) }
    }
}

impl View for Identifier {
    type V = IdentifierModel;

    open spec fn view(&self) -> IdentifierModel {
        IdentifierModel { identifier: self.identifier@, yultype: type_model(self.yultype) }
    }
}

/// The models of names.
pub open spec fn identifiers_model(names: Seq<Identifier>) -> Seq<IdentifierModel> {
    Seq::new(names.len(), |i: int| names[i]@)
}

/// The model of a call.
pub open spec fn call_model(call: FunctionCall) -> FunctionCallModel
    decreases call,
{
    FunctionCallModel {
        identifier: call.identifier@,
        arguments: Seq::new(
            call.arguments@.len(),
            |i: int|
                if 0 <= i < call.arguments@.len() {
                    expression_model(call.arguments@[i])
                } else {
                    arbitrary()
                },
        ),
    }
}

/// The model of an expression.
pub open spec fn expression_model(expression: Expression) -> ExpressionModel
    decreases expression,
{
    match expression {
        Expression::Literal(literal) => ExpressionModel::Literal(literal@),
        Expression::Identifier(name) => ExpressionModel::Identifier(name@),
        Expression::FunctionCall(call) => ExpressionModel::FunctionCall(call_model(call)),
    }
}

/// The models of expressions.
pub open spec fn expressions_model(expressions: Seq<Expression>) -> Seq<ExpressionModel> {
    Seq::new(expressions.len(), |i: int| expression_model(expressions[i]))
}

impl View for Expression {
    type V = ExpressionModel;

    open spec fn view(&self) -> ExpressionModel {
        expression_model(*self)
    }
}

/// The model of a block.
pub open spec fn block_model(block: Block) -> BlockModel
    decreases block,
{
    BlockModel {
        statements: Seq::new(
            block.statements@.len(),
            |i: int|
                if 0 <= i < block.statements@.len() {
                    statement_model(block.statements@[i])
                } else {
                    arbitrary()
                },
        ),
    }
}

/// The model of a case.
pub open spec fn case_model(case: Case) -> CaseModel
    decreases case,
{
    CaseModel {
        literal: match case.literal {
            Some(literal) => Some(literal@),
            None => None,
        },
        block: block_model(case.block),
    }
}

/// The model of a switch.
pub open spec fn switch_model(switch: Switch) -> SwitchModel
    decreases switch,
{
    SwitchModel {
        expression: switch.expression@,
        cases: Seq::new(
            switch.cases@.len(),
            |i: int|
                if 0 <= i < switch.cases@.len() {
                    case_model(switch.cases@[i])
                } else {
                    arbitrary()
                },
        ),
    }
}

/// The model of an object.
pub open spec fn object_model(object: Object) -> ObjectModel
    decreases object,
{
    ObjectModel {
        name: object.name@,
        code: CodeModel { block: block_model(object.code.block) },
        objects: Seq::new(
            object.objects@.len(),
            |i: int|
                if 0 <= i < object.objects@.len() {
                    object_model(object.objects@[i])
                } else {
                    arbitrary()
                },
        ),
    }
}

/// The model of a statement.
pub open spec fn statement_model(statement: Statement) -> StatementModel
    decreases statement,
{
    match statement {
        Statement::Block(block) => StatementModel::Block(block_model(block)),
        Statement::FunctionDefinition(function) => StatementModel::FunctionDefinition(
            FunctionDefinitionModel {
                name: function.name@,
                parameters: identifiers_model(function.parameters@),
                returns: identifiers_model(function.returns@),
                block: block_model(function.block),
            },
        ),
        Statement::VariableDeclaration(declaration) => StatementModel::VariableDeclaration(
            VariableDeclarationModel {
                identifiers: identifiers_model(declaration.identifiers@),
                expression: match declaration.expression {
                    Some(expression) => Some(expression@),
                    None => None,
                },
            },
        ),
        Statement::Assignment(assignment) => StatementModel::Assignment(
            AssignmentModel {
                identifiers: identifiers_model(assignment.identifiers@),
                expression: assignment.expression@,
            },
        ),
        Statement::Expression(expression) => StatementModel::Expression(expression@),
        Statement::If(branch) => StatementModel::If(
            IfModel { expression: branch.expression@, block: block_model(branch.block) },
        ),
        Statement::Switch(switch) => StatementModel::Switch(switch_model(switch)),
        Statement::ForLoop(for_loop) => StatementModel::ForLoop(
            ForLoopModel {
                pre: block_model(for_loop.pre),
                condition: for_loop.condition@,
                post: block_model(for_loop.post),
                body: block_model(for_loop.body),
            },
        ),
        Statement::Break => StatementModel::Break,
        Statement::Continue => StatementModel::Continue,
        Statement::Object(object) => StatementModel::Object(object_model(object)),
    }
}

/// The models of statements.
pub open spec fn statements_model(statements: Seq<Statement>) -> Seq<StatementModel> {
    Seq::new(statements.len(), |i: int| statement_model(statements[i]))
}

impl View for Statement {
    type V = StatementModel;

    open spec fn view(&self) -> StatementModel {
        statement_model(*self)
    }
}

impl View for Case {
    type V = CaseModel;

    open spec fn view(&self) -> CaseModel {
        case_model(*self)
    }
}

impl View for Block {
    type V = BlockModel;

    open spec fn view(&self) -> BlockModel {
        block_model(*self)
    }
}

impl View for Code {
    type V = CodeModel;

    open spec fn view(&self) -> CodeModel {
        CodeModel { block: self.block@ }
    }
}

} // verus!
