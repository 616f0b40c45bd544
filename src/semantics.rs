//! What evaluation means: the result and the effect of each expression and
//! statement, as spec functions over the models of values and scopes.
use vstd::prelude::*;
use crate::ast::{BinaryOperation, Expression, Statement, UnaryOperation};
use crate::number::Number;
use crate::scope::Env;
use crate::value::{text_less, Val};

verus! {

broadcast use vstd::std_specs::vec::axiom_vec_decreases_to_view, vstd::seq::axiom_seq_index_decreases, vstd::seq::axiom_seq_subrange_decreases;

/// A runtime fault: evaluation stops and the fault is handed to the caller.
#[derive(Clone, Copy, Debug, PartialEq, Eq, Structural)]
pub enum RuntimeError {
    /// An operator or an access met an operand of a kind it does not take.
    TypeMismatch,
    /// A read of, or an assignment to, a name that no table binds.
    UndefinedVariable,
    /// A tuple index beyond the tuple's arity.
    IndexOutOfRange,
    /// The number domain refused an operation.
    Arithmetic,
    /// A while-loop wanted more iterations than the run allows.
    StepLimit,
}

pub open spec fn number_result<N>(r: Option<N>) -> Result<Val<N>, RuntimeError> {
    match r {
        Some(n) => Ok(Val::Number(n)),
        None => Err(RuntimeError::Arithmetic),
    }
}

/// The value of a unary operator on an evaluated operand.
pub open spec fn unary<N: Number>(op: UnaryOperation, v: Val<N>) -> Result<Val<N>, RuntimeError> {
    match (op, v) {
        (UnaryOperation::Minus, Val::Number(n)) => number_result(n.spec_negate()),
        (UnaryOperation::Not, Val::Boolean(b)) => Ok(Val::Boolean(!b)),
        _ => Err(RuntimeError::TypeMismatch),
    }
}

/// The value of an arithmetic or comparison operator on evaluated operands.
/// Both operands must be of one kind: numbers for arithmetic (text too for
/// `Add`, which concatenates), numbers, text or booleans for `Equal` and
/// `NotEqual`, numbers or text for the orderings.
pub open spec fn binary<N: Number>(op: BinaryOperation, a: Val<N>, b: Val<N>) -> Result<
    Val<N>,
    RuntimeError,
> {
    match (a, b) {
        (Val::Number(x), Val::Number(y)) => match op {
            BinaryOperation::Add => number_result(x.spec_plus(y)),
            BinaryOperation::Subtract => number_result(x.spec_minus(y)),
            BinaryOperation::Multiply => number_result(x.spec_times(y)),
            BinaryOperation::Divide => number_result(x.spec_over(y)),
            BinaryOperation::Equal => Ok(Val::Boolean(x.spec_equals(y))),
            BinaryOperation::NotEqual => Ok(Val::Boolean(!x.spec_equals(y))),
            BinaryOperation::Less => Ok(Val::Boolean(x.spec_less(y))),
            BinaryOperation::LessEqual => Ok(Val::Boolean(x.spec_less_eq(y))),
            BinaryOperation::Greater => Ok(Val::Boolean(y.spec_less(x))),
            BinaryOperation::GreaterEqual => Ok(Val::Boolean(y.spec_less_eq(x))),
            _ => Err(RuntimeError::TypeMismatch),
        },
        (Val::Text(x), Val::Text(y)) => match op {
            BinaryOperation::Add => Ok(Val::Text(x + y)),
            BinaryOperation::Equal => Ok(Val::Boolean(x == y)),
            BinaryOperation::NotEqual => Ok(Val::Boolean(x != y)),
            BinaryOperation::Less => Ok(Val::Boolean(text_less(x, y))),
            BinaryOperation::LessEqual => Ok(Val::Boolean(text_less(x, y) || x == y)),
            BinaryOperation::Greater => Ok(Val::Boolean(text_less(y, x))),
            BinaryOperation::GreaterEqual => Ok(Val::Boolean(text_less(y, x) || x == y)),
            _ => Err(RuntimeError::TypeMismatch),
        },
        (Val::Boolean(x), Val::Boolean(y)) => match op {
            BinaryOperation::Equal => Ok(Val::Boolean(x == y)),
            BinaryOperation::NotEqual => Ok(Val::Boolean(x != y)),
            _ => Err(RuntimeError::TypeMismatch),
        },
        _ => Err(RuntimeError::TypeMismatch),
    }
}

/// The expression at the root of a chain of tuple accesses.
pub open spec fn access_root<N>(e: Expression<N>) -> Expression<N>
    decreases e,
{
    match e {
        Expression::TupleAccess { expression, index: _ } => access_root(*expression),
        _ => e,
    }
}

/// The indices of a chain of tuple accesses, from the root outward.
pub open spec fn access_path<N>(e: Expression<N>) -> Seq<usize>
    decreases e,
{
    match e {
        Expression::TupleAccess { expression, index } => access_path(*expression).push(index),
        _ => Seq::empty(),
    }
}

/// `old` with the element that `path[k..]` leads to replaced by `v`.
pub open spec fn replace_at<N>(old: Val<N>, path: Seq<usize>, k: int, v: Val<N>) -> Result<
    Val<N>,
    RuntimeError,
>
    decreases path.len() - k,
{
    if k >= path.len() {
        Ok(v)
    } else {
        match old {
            Val::Tuple(items) => if path[k] < items.len() {
                match replace_at(items[path[k] as int], path, k + 1, v) {
                    Ok(x) => Ok(Val::Tuple(items.update(path[k] as int, x))),
                    Err(f) => Err(f),
                }
            } else {
                Err(RuntimeError::IndexOutOfRange)
            },
            _ => Err(RuntimeError::TypeMismatch),
        }
    }
}

/// Evaluation of an expression: the scope stack afterwards, and the value or
/// the fault. Operands are evaluated left to right.
pub open spec fn eval<N: Number>(e: Expression<N>, env: Env<N>) -> (Env<N>, Result<
    Val<N>,
    RuntimeError,
>)
    decreases e, 0nat,
{
    match e {
        Expression::Unary { operation, expression } => {
            let (env1, r) = eval(*expression, env);
            match r {
                Ok(v) => (env1, unary(operation, v)),
                Err(f) => (env1, Err(f)),
            }
        },
        Expression::Binary { operation, left_expression, right_expression } => match operation {
            BinaryOperation::Or => {
                let (env1, r) = eval(*left_expression, env);
                match r {
                    Ok(v) => if v == Val::<N>::Boolean(true) {
                        (env1, Ok(v))
                    } else {
                        eval(*right_expression, env1)
                    },
                    Err(f) => (env1, Err(f)),
                }
            },
            BinaryOperation::And => {
                let (env1, r) = eval(*left_expression, env);
                match r {
                    Ok(v) => if v == Val::<N>::Boolean(false) {
                        (env1, Ok(v))
                    } else {
                        eval(*right_expression, env1)
                    },
                    Err(f) => (env1, Err(f)),
                }
            },
            BinaryOperation::Assignment => {
                let (env1, r) = eval(*right_expression, env);
                match r {
                    Ok(v) => assign_to(*left_expression, v, env1),
                    Err(f) => (env1, Err(f)),
                }
            },
            _ => {
                let (env1, r1) = eval(*left_expression, env);
                match r1 {
                    Ok(a) => {
                        let (env2, r2) = eval(*right_expression, env1);
                        match r2 {
                            Ok(b) => (env2, binary(operation, a, b)),
                            Err(f) => (env2, Err(f)),
                        }
                    },
                    Err(f) => (env1, Err(f)),
                }
            },
        },
        Expression::Variable(name) => match env.lookup(name@) {
            Some(v) => (env, Ok(v)),
            None => (env, Err(RuntimeError::UndefinedVariable)),
        },
        Expression::Literal(v) => (env, Ok(v@)),
        Expression::Grouping(inner) => eval(*inner, env),
        Expression::Tuple(items) => {
            let (env1, r) = eval_list(items@, env);
            match r {
                Ok(vs) => (env1, Ok(Val::Tuple(vs))),
                Err(f) => (env1, Err(f)),
            }
        },
        Expression::TupleAccess { expression, index } => {
            let (env1, r) = eval(*expression, env);
            match r {
                Ok(Val::Tuple(vs)) => if index < vs.len() {
                    (env1, Ok(vs[index as int]))
                } else {
                    (env1, Err(RuntimeError::IndexOutOfRange))
                },
                Ok(_) => (env1, Err(RuntimeError::TypeMismatch)),
                Err(f) => (env1, Err(f)),
            }
        },
    }
}

/// Evaluation of a list of expressions, left to right, stopping at the first
/// fault.
pub open spec fn eval_list<N: Number>(items: Seq<Expression<N>>, env: Env<N>) -> (Env<N>, Result<
    Seq<Val<N>>,
    RuntimeError,
>)
    decreases items, 0nat,
{
    if items.len() == 0 {
        (env, Ok(Seq::empty()))
    } else {
        let (env1, r) = eval_list(items.drop_last(), env);
        match r {
            Ok(vs) => {
                let (env2, r2) = eval(items.last(), env1);
                match r2 {
                    Ok(v) => (env2, Ok(vs.push(v))),
                    Err(f) => (env2, Err(f)),
                }
            },
            Err(f) => (env1, Err(f)),
        }
    }
}

/// Storing the already evaluated value `v` through the target of an
/// assignment; the result is `v` itself.
/// - A variable: its innermost existing binding is overwritten.
/// - A chain of tuple accesses rooted at a variable: the variable's value is
///   copied, the element the chain leads to is replaced, and the whole value
///   is stored back.
/// - A chain rooted elsewhere: its base is evaluated once and nothing is stored.
/// - Any other expression: it is evaluated once and nothing is stored.
pub open spec fn assign_to<N: Number>(target: Expression<N>, v: Val<N>, env: Env<N>) -> (Env<N>, Result<
    Val<N>,
    RuntimeError,
>)
    decreases target, 1nat,
{
    match target {
        Expression::Variable(name) => match env.assign(name@, v) {
            Some(env1) => (env1, Ok(v)),
            None => (env, Err(RuntimeError::UndefinedVariable)),
        },
        Expression::TupleAccess { expression, index: _ } => match access_root(target) {
            Expression::Variable(name) => match env.lookup(name@) {
                Some(whole) => match replace_at(whole, access_path(target), 0, v) {
                    Ok(updated) => match env.assign(name@, updated) {
                        Some(env1) => (env1, Ok(v)),
                        None => (env, Err(RuntimeError::UndefinedVariable)),
                    },
                    Err(f) => (env, Err(f)),
                },
                None => (env, Err(RuntimeError::UndefinedVariable)),
            },
            _ => {
                let (env1, r) = eval(*expression, env);
                match r {
                    Ok(_) => (env1, Ok(v)),
                    Err(f) => (env1, Err(f)),
                }
            },
        },
        _ => {
            let (env1, r) = eval(target, env);
            match r {
                Ok(_) => (env1, Ok(v)),
                Err(f) => (env1, Err(f)),
            }
        },
    }
}

/// Execution of a statement: the scope stack afterwards, the values printed,
/// in order, and whether it completed or faulted. `fuel` bounds the number of
/// iterations of each while-loop that runs.
pub open spec fn run<N: Number>(s: Statement<N>, env: Env<N>, fuel: nat) -> (Env<N>, Seq<Val<N>>, Result<
    (),
    RuntimeError,
>)
    decreases s, 0nat,
{
    match s {
        Statement::Expression(e) => {
            let (env1, r) = eval(e, env);
            match r {
                Ok(v) => (env1, seq![v], Ok(())),
                Err(f) => (env1, Seq::empty(), Err(f)),
            }
        },
        Statement::VariableDeclaration { variable, value } => {
            let (env1, r) = eval(value, env);
            match r {
                Ok(v) => (env1.declare(variable@, v), Seq::empty(), Ok(())),
                Err(f) => (env1, Seq::empty(), Err(f)),
            }
        },
        Statement::Block(statements) => {
            let (env1, out, r) = run_all(statements@, env.enter(), fuel);
            (env1.leave(), out, r)
        },
        Statement::If { expression, then_statement, else_statement } => {
            let (env1, r) = eval(expression, env);
            match r {
                Ok(Val::Boolean(true)) => run(*then_statement, env1, fuel),
                Ok(Val::Boolean(false)) => match else_statement {
                    Some(other) => run(*other, env1, fuel),
                    None => (env1, Seq::empty(), Ok(())),
                },
                Ok(_) => (env1, Seq::empty(), Err(RuntimeError::TypeMismatch)),
                Err(f) => (env1, Seq::empty(), Err(f)),
            }
        },
        Statement::While { expression, statement } => run_loop(expression, *statement, env, fuel, fuel),
    }
}

/// Execution of statements in order, stopping at the first fault.
pub open spec fn run_all<N: Number>(statements: Seq<Statement<N>>, env: Env<N>, fuel: nat) -> (Env<
    N,
>, Seq<Val<N>>, Result<(), RuntimeError>)
    decreases statements, 0nat,
{
    if statements.len() == 0 {
        (env, Seq::empty(), Ok(()))
    } else {
        let (env1, out1, r1) = run_all(statements.drop_last(), env, fuel);
        match r1 {
            Ok(_) => {
                let (env2, out2, r2) = run(statements.last(), env1, fuel);
                (env2, out1 + out2, r2)
            },
            Err(f) => (env1, out1, Err(f)),
        }
    }
}

/// A while-loop with `left` iterations still allowed: the condition is
/// evaluated, and while it is `true` the body runs.
pub open spec fn run_loop<N: Number>(
    condition: Expression<N>,
    body: Statement<N>,
    env: Env<N>,
    fuel: nat,
    left: nat,
) -> (Env<N>, Seq<Val<N>>, Result<(), RuntimeError>)
    decreases body, left,
{
    let (env1, r) = eval(condition, env);
    match r {
        Ok(Val::Boolean(true)) => if left == 0 {
            (env1, Seq::empty(), Err(RuntimeError::StepLimit))
        } else {
            let (env2, out1, r1) = run(body, env1, fuel);
            match r1 {
                Ok(_) => {
                    let (env3, out2, r2) = run_loop(condition, body, env2, fuel, (left - 1) as nat);
                    (env3, out1 + out2, r2)
                },
                Err(f) => (env2, out1, Err(f)),
            }
        },
        Ok(Val::Boolean(false)) => (env1, Seq::empty(), Ok(())),
        Ok(_) => (env1, Seq::empty(), Err(RuntimeError::TypeMismatch)),
        Err(f) => (env1, Seq::empty(), Err(f)),
    }
}

/// Once a prefix of a list faults, the whole list faults the same way.
pub proof fn lemma_eval_list_fault<N: Number>(items: Seq<Expression<N>>, env: Env<N>, i: int)
    requires
        0 <= i <= items.len(),
        eval_list(items.take(i), env).1 is Err,
    ensures
        eval_list(items, env) == eval_list(items.take(i), env),
    decreases items.len(),
{
    if i == items.len() {
        assert(items.take(i) == items);
    } else {
        assert(items.drop_last().take(i) == items.take(i));
        lemma_eval_list_fault(items.drop_last(), env, i);
    }
}

/// Once a prefix of a statement list faults, the whole list faults the same way.
pub proof fn lemma_run_all_fault<N: Number>(statements: Seq<Statement<N>>, env: Env<N>, fuel: nat, i: int)
    requires
        0 <= i <= statements.len(),
        run_all(statements.take(i), env, fuel).2 is Err,
    ensures
        run_all(statements, env, fuel) == run_all(statements.take(i), env, fuel),
    decreases statements.len(),
{
    if i == statements.len() {
        assert(statements.take(i) == statements);
    } else {
        assert(statements.drop_last().take(i) == statements.take(i));
        lemma_run_all_fault(statements.drop_last(), env, fuel, i);
    }
}

} // verus!
