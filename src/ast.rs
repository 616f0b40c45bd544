//! The syntax tree that a parser hands to the evaluator.
use vstd::prelude::*;
use crate::value::Value;

verus! {

/// `-x` and `!x`.
#[derive(Clone, Copy, Debug, PartialEq, Eq)]
pub enum UnaryOperation {
    Minus,
    Not,
}

/// The binary operators: arithmetic, comparison, the short-circuiting `or` and
/// `and`, and assignment.
#[derive(Clone, Copy, Debug, PartialEq, Eq)]
pub enum BinaryOperation {
    Add,
    Subtract,
    Multiply,
    Divide,
    Equal,
    NotEqual,
    Less,
    LessEqual,
    Greater,
    GreaterEqual,
    Or,
    And,
    Assignment,
}

/// An expression over numbers of type `N`. A tuple access names its element by
/// position.
#[derive(Debug)]
#[verifier::reject_recursive_types(N)]
#[allow(inconsistent_fields)]
pub enum Expression<N> {
    Unary { operation: UnaryOperation, expression: Box<Expression<N>> },
    Binary {
        operation: BinaryOperation,
        left_expression: Box<Expression<N>>,
        right_expression: Box<Expression<N>>,
    },
    Variable(String),
    Literal(Value<N>),
    Grouping(Box<Expression<N>>),
    Tuple(Vec<Expression<N>>),
    TupleAccess { expression: Box<Expression<N>>, index: usize },
}

/// A statement: an expression whose value is printed, a declaration in the
/// current scope, a block with a scope of its own, a conditional or a loop.
#[derive(Debug)]
#[verifier::reject_recursive_types(N)]
pub enum Statement<N> {
    Expression(Expression<N>),
    VariableDeclaration { variable: String, value: Expression<N> },
    Block(Vec<Statement<N>>),
    If {
        expression: Expression<N>,
        then_statement: Box<Statement<N>>,
        else_statement: Option<Box<Statement<N>>>,
    },
    While { expression: Expression<N>, statement: Box<Statement<N>> },
}

} // verus!
