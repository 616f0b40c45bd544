//! The evaluator: executes statements and evaluates expressions against a
//! scope stack, as the spec functions of `semantics` describe.
use vstd::prelude::*;
use vstd::string::StringExecFns;
use crate::ast::{BinaryOperation, Expression, Statement, UnaryOperation};
use crate::number::Number;
use crate::scope::{Env, Table, Variables};
use crate::semantics::{
    access_path, access_root, assign_to, binary, eval, eval_list, lemma_eval_list_fault,
    lemma_run_all_fault, number_result, replace_at, run, run_all, run_loop, unary, RuntimeError,
};
use crate::value::{lemma_views_of, text_less_than, views_of, Val, Value};

verus! {

broadcast use vstd::std_specs::vec::axiom_vec_decreases_to_view, vstd::std_specs::vec::axiom_vec_index_decreases, vstd::seq::axiom_seq_index_decreases;

/// The model of an evaluation result.
pub open spec fn result_view<N>(r: Result<Value<N>, RuntimeError>) -> Result<Val<N>, RuntimeError> {
    match r {
        Ok(v) => Ok(v@),
        Err(f) => Err(f),
    }
}

fn number_value<N: Number>(r: Option<N>) -> (v: Result<Value<N>, RuntimeError>)
    ensures
        result_view(v) == number_result(r),
{
    match r {
        Some(n) => Ok(Value::Number(n)),
        None => Err(RuntimeError::Arithmetic),
    }
}

/// A unary operator applied to an evaluated operand.
pub fn unary_value<N: Number>(operation: UnaryOperation, v: Value<N>) -> (r: Result<Value<N>, RuntimeError>)
    ensures
        result_view(r) == unary(operation, v@),
{
    match (operation, v) {
        (UnaryOperation::Minus, Value::Number(n)) => number_value(n.negate()),
        (UnaryOperation::Not, Value::Boolean(b)) => Ok(Value::Boolean(!b)),
        _ => Err(RuntimeError::TypeMismatch),
    }
}

/// An arithmetic or comparison operator applied to evaluated operands.
pub fn binary_value<N: Number>(operation: BinaryOperation, a: Value<N>, b: Value<N>) -> (r: Result<
    Value<N>,
    RuntimeError,
>)
    ensures
        result_view(r) == binary(operation, a@, b@),
{
    match (a, b) {
        (Value::Number(x), Value::Number(y)) => match operation {
            BinaryOperation::Add => number_value(x.plus(y)),
            BinaryOperation::Subtract => number_value(x.minus(y)),
            BinaryOperation::Multiply => number_value(x.times(y)),
            BinaryOperation::Divide => number_value(x.over(y)),
            BinaryOperation::Equal => Ok(Value::Boolean(x.equals(y))),
            BinaryOperation::NotEqual => Ok(Value::Boolean(!x.equals(y))),
            BinaryOperation::Less => Ok(Value::Boolean(x.less(y))),
            BinaryOperation::LessEqual => Ok(Value::Boolean(x.less_eq(y))),
            BinaryOperation::Greater => Ok(Value::Boolean(y.less(x))),
            BinaryOperation::GreaterEqual => Ok(Value::Boolean(y.less_eq(x))),
            _ => Err(RuntimeError::TypeMismatch),
        },
        (Value::String(x), Value::String(y)) => match operation {
            BinaryOperation::Add => Ok(Value::String(x.concat(y.as_str()))),
            BinaryOperation::Equal => Ok(Value::Boolean(x == y)),
            BinaryOperation::NotEqual => Ok(Value::Boolean(!(x == y))),
            BinaryOperation::Less => Ok(Value::Boolean(text_less_than(&x, &y))),
            BinaryOperation::LessEqual => Ok(Value::Boolean(text_less_than(&x, &y) || x == y)),
            BinaryOperation::Greater => Ok(Value::Boolean(text_less_than(&y, &x))),
            BinaryOperation::GreaterEqual => Ok(Value::Boolean(text_less_than(&y, &x) || x == y)),
            _ => Err(RuntimeError::TypeMismatch),
        },
        (Value::Boolean(x), Value::Boolean(y)) => match operation {
            BinaryOperation::Equal => Ok(Value::Boolean(x == y)),
            BinaryOperation::NotEqual => Ok(Value::Boolean(x != y)),
            _ => Err(RuntimeError::TypeMismatch),
        },
        _ => Err(RuntimeError::TypeMismatch),
    }
}

/// The root and the index path of a chain of tuple accesses.
fn access_chain<N>(expression: &Expression<N>) -> (r: (&Expression<N>, Vec<usize>))
    ensures
        *r.0 == access_root(*expression),
        r.1@ == access_path(*expression),
    decreases expression,
{
    match expression {
        Expression::TupleAccess { expression: base, index } => {
            let (root, mut path) = access_chain(base);
            path.push(*index);
            (root, path)
        },
        _ => (expression, Vec::new()),
    }
}

/// Replaces the element of `slot` that `path[k..]` leads to by `v`.
fn replace_in<N: Copy>(slot: &mut Value<N>, path: &Vec<usize>, k: usize, v: Value<N>) -> (r: Result<
    (),
    RuntimeError,
>)
    requires
        k <= path.len(),
    ensures
        match replace_at(old(slot)@, path@, k as int, v@) {
            Ok(x) => r is Ok && final(slot)@ == x,
            Err(f) => r == Err::<(), RuntimeError>(f),
        },
    decreases path.len() - k,
{
    if k == path.len() {
        *slot = v;
        return Ok(());
    }
    match slot {
        Value::Tuple(items) => {
            let i = path[k];
            if i < items.len() {
                let ghost before = items@;
                proof {
                    lemma_views_of(before);
                }
                let r = replace_in(&mut items[i], path, k + 1, v);
                proof {
                    lemma_views_of(items@);
                    if r is Ok {
                        assert(views_of(items@) =~= views_of(before).update(i as int, items@[i as int]@));
                    }
                }
                r
            } else {
                proof {
                    lemma_views_of(items@);
                }
                Err(RuntimeError::IndexOutOfRange)
            }
        },
        _ => Err(RuntimeError::TypeMismatch),
    }
}

/// Evaluates `expression`, left to right, against the scope stack.
pub fn interpret_expression<N: Number>(expression: &Expression<N>, variables: &mut Variables<N>) -> (r:
    Result<Value<N>, RuntimeError>)
    requires
        old(variables).wf(),
    ensures
        final(variables).wf(),
        (final(variables)@, result_view(r)) == eval(*expression, old(variables)@),
    decreases expression, 0nat,
{
    match expression {
        Expression::Unary { operation, expression: inner } => {
            match interpret_expression(inner, variables) {
                Ok(v) => unary_value(*operation, v),
                Err(f) => Err(f),
            }
        },
        Expression::Binary { operation, left_expression, right_expression } => match operation {
            BinaryOperation::Or => {
                let left = match interpret_expression(left_expression, variables) {
                    Ok(v) => v,
                    Err(f) => return Err(f),
                };
                let decided = match &left {
                    Value::Boolean(b) => *b,
                    _ => false,
                };
                if decided {
                    Ok(left)
                } else {
                    interpret_expression(right_expression, variables)
                }
            },
            BinaryOperation::And => {
                let left = match interpret_expression(left_expression, variables) {
                    Ok(v) => v,
                    Err(f) => return Err(f),
                };
                let decided = match &left {
                    Value::Boolean(b) => !*b,
                    _ => false,
                };
                if decided {
                    Ok(left)
                } else {
                    interpret_expression(right_expression, variables)
                }
            },
            BinaryOperation::Assignment => {
                match interpret_expression(right_expression, variables) {
                    Ok(v) => assign_expression(left_expression, v, variables),
                    Err(f) => Err(f),
                }
            },
            _ => {
                let a = match interpret_expression(left_expression, variables) {
                    Ok(v) => v,
                    Err(f) => return Err(f),
                };
                let b = match interpret_expression(right_expression, variables) {
                    Ok(v) => v,
                    Err(f) => return Err(f),
                };
                binary_value(*operation, a, b)
            },
        },
        Expression::Variable(variable) => match variables.get_variable(variable) {
            Some(v) => Ok(v),
            None => Err(RuntimeError::UndefinedVariable),
        },
        Expression::Literal(value) => Ok(value.duplicate()),
        Expression::Grouping(inner) => interpret_expression(inner, variables),
        Expression::Tuple(items) => {
            let ghost start = variables@;
            let mut values: Vec<Value<N>> = Vec::new();
            let mut i: usize = 0;
            while i < items.len()
                invariant
                    decreases_to!(*expression => *items),
                    *expression == Expression::<N>::Tuple(*items),
                    start == old(variables)@,
                    variables.wf(),
                    i <= items.len(),
                    eval_list(items@.take(i as int), start) == (variables@, Ok::<
                        Seq<Val<N>>,
                        RuntimeError,
                    >(views_of(values@))),
                decreases items.len() - i,
            {
                proof {
                    assert(decreases_to!(*expression => items[i as int]));
                    assert(items@.take(i as int + 1).drop_last() == items@.take(i as int));
                    assert(items@.take(i as int + 1).last() == items@[i as int]);
                }
                match interpret_expression(&items[i], variables) {
                    Ok(v) => {
                        let ghost before = values@;
                        values.push(v);
                        proof {
                            assert(values@.drop_last() == before);
                        }
                    },
                    Err(f) => {
                        proof {
                            assert(eval_list(items@.take(i + 1), start).1 == Err::<Seq<Val<N>>, RuntimeError>(f));
                            lemma_eval_list_fault(items@, start, i + 1);
                        }
                        return Err(f);
                    },
                }
                i = i + 1;
            }
            proof {
                assert(items@.take(items.len() as int) == items@);
            }
            Ok(Value::Tuple(values))
        },
        Expression::TupleAccess { expression: base, index } => {
            match interpret_expression(base, variables) {
                Ok(Value::Tuple(values)) => {
                    proof {
                        lemma_views_of(values@);
                    }
                    if *index < values.len() {
                        Ok(values[*index].duplicate())
                    } else {
                        Err(RuntimeError::IndexOutOfRange)
                    }
                },
                Ok(_) => Err(RuntimeError::TypeMismatch),
                Err(f) => Err(f),
            }
        },
    }
}

/// Stores the evaluated `value` through the target of an assignment and
/// hands `value` back.
fn assign_expression<N: Number>(target: &Expression<N>, value: Value<N>, variables: &mut Variables<N>) -> (r:
    Result<Value<N>, RuntimeError>)
    requires
        old(variables).wf(),
    ensures
        final(variables).wf(),
        (final(variables)@, result_view(r)) == assign_to(*target, value@, old(variables)@),
    decreases target, 1nat,
{
    match target {
        Expression::Variable(variable) => match variables.set_variable(variable, value.duplicate()) {
            Ok(()) => Ok(value),
            Err(()) => Err(RuntimeError::UndefinedVariable),
        },
        Expression::TupleAccess { expression: base, index: _ } => {
            let (root, path) = access_chain(target);
            match root {
                Expression::Variable(variable) => match variables.get_variable(variable) {
                    Some(whole) => {
                        let mut updated = whole;
                        match replace_in(&mut updated, &path, 0, value.duplicate()) {
                            Ok(()) => match variables.set_variable(variable, updated) {
                                Ok(()) => Ok(value),
                                Err(()) => Err(RuntimeError::UndefinedVariable),
                            },
                            Err(f) => Err(f),
                        }
                    },
                    None => Err(RuntimeError::UndefinedVariable),
                },
                _ => match interpret_expression(base, variables) {
                    Ok(_) => Ok(value),
                    Err(f) => Err(f),
                },
            }
        },
        _ => match interpret_expression(target, variables) {
            Ok(_) => Ok(value),
            Err(f) => Err(f),
        },
    }
}

proof fn lemma_views_of_push<N>(before: Seq<Value<N>>, v: Value<N>)
    ensures
        views_of(before.push(v)) == views_of(before) + seq![v@],
{
    assert(before.push(v).drop_last() == before);
    assert(views_of(before).push(v@) =~= views_of(before) + seq![v@]);
}

/// Executes `statement`, appending what it prints to `output`. Each while-loop
/// may run at most `fuel` iterations each time it is entered.
pub fn interpret_statement<N: Number>(
    statement: &Statement<N>,
    variables: &mut Variables<N>,
    output: &mut Vec<Value<N>>,
    fuel: u64,
) -> (r: Result<(), RuntimeError>)
    requires
        old(variables).wf(),
    ensures
        final(variables).wf(),
        final(variables)@ == run(*statement, old(variables)@, fuel as nat).0,
        views_of(final(output)@) == views_of(old(output)@) + run(
            *statement,
            old(variables)@,
            fuel as nat,
        ).1,
        r == run(*statement, old(variables)@, fuel as nat).2,
    decreases statement,
{
    match statement {
        Statement::Expression(expression) => match interpret_expression(expression, variables) {
            Ok(v) => {
                proof {
                    lemma_views_of_push(output@, v);
                }
                output.push(v);
                Ok(())
            },
            Err(f) => {
                proof {
                    assert(views_of(output@) + Seq::<Val<N>>::empty() == views_of(output@));
                }
                Err(f)
            },
        },
        Statement::VariableDeclaration { variable, value } => {
            proof {
                assert(views_of(output@) + Seq::<Val<N>>::empty() == views_of(output@));
            }
            match interpret_expression(value, variables) {
                Ok(v) => {
                    variables.create_variable(variable, v);
                    Ok(())
                },
                Err(f) => Err(f),
            }
        },
        Statement::Block(statements) => {
            variables.push_environment();
            let ghost start = variables@;
            let ghost out0 = views_of(output@);
            let mut i: usize = 0;
            while i < statements.len()
                invariant
                    decreases_to!(*statement => *statements),
                    *statement == Statement::<N>::Block(*statements),
                    start == old(variables)@.enter(),
                    out0 == views_of(old(output)@),
                    variables.wf(),
                    i <= statements.len(),
                    run_all(statements@.take(i as int), start, fuel as nat).0 == variables@,
                    out0 + run_all(statements@.take(i as int), start, fuel as nat).1 == views_of(output@),
                    run_all(statements@.take(i as int), start, fuel as nat).2 == Ok::<(), RuntimeError>(()),
                decreases statements.len() - i,
            {
                let ghost out_before = views_of(output@);
                proof {
                    assert(decreases_to!(*statement => statements[i as int]));
                    assert(statements@.take(i as int + 1).drop_last() == statements@.take(i as int));
                    assert(statements@.take(i as int + 1).last() == statements@[i as int]);
                }
                let r = interpret_statement(&statements[i], variables, output, fuel);
                proof {
                    let prev = run_all(statements@.take(i as int), start, fuel as nat);
                    assert(out0 + (prev.1 + run(statements@[i as int], prev.0, fuel as nat).1) == out_before
                        + run(statements@[i as int], prev.0, fuel as nat).1);
                }
                match r {
                    Ok(u) => {
                        proof {
                            assert(u == ());
                            assert(r == Ok::<(), RuntimeError>(()));
                        }
                    },
                    Err(f) => {
                        proof {
                            lemma_run_all_fault(statements@, start, fuel as nat, i + 1);
                        }
                        variables.pop_environment();
                        return Err(f);
                    },
                }
                i = i + 1;
            }
            proof {
                assert(statements@.take(statements.len() as int) == statements@);
            }
            variables.pop_environment();
            Ok(())
        },
        Statement::If { expression, then_statement, else_statement } => {
            proof {
                assert(views_of(output@) + Seq::<Val<N>>::empty() == views_of(output@));
            }
            match interpret_expression(expression, variables) {
                Ok(Value::Boolean(true)) => interpret_statement(then_statement, variables, output, fuel),
                Ok(Value::Boolean(false)) => match else_statement {
                    Some(other) => interpret_statement(other, variables, output, fuel),
                    None => Ok(()),
                },
                Ok(_) => Err(RuntimeError::TypeMismatch),
                Err(f) => Err(f),
            }
        },
        Statement::While { expression, statement: body } => {
            let ghost start = old(variables)@;
            let ghost out0 = views_of(old(output)@);
            let mut left: u64 = fuel;
            loop
                invariant
                    *statement == (Statement::<N>::While { expression: *expression, statement: *body }),
                    start == old(variables)@,
                    out0 == views_of(old(output)@),
                    variables.wf(),
                    left <= fuel,
                    run_loop(*expression, **body, variables@, fuel as nat, left as nat).0 == run_loop(
                        *expression,
                        **body,
                        start,
                        fuel as nat,
                        fuel as nat,
                    ).0,
                    run_loop(*expression, **body, variables@, fuel as nat, left as nat).2 == run_loop(
                        *expression,
                        **body,
                        start,
                        fuel as nat,
                        fuel as nat,
                    ).2,
                    views_of(output@) + run_loop(*expression, **body, variables@, fuel as nat, left as nat).1
                        == out0 + run_loop(*expression, **body, start, fuel as nat, fuel as nat).1,
                decreases left,
            {
                let ghost here = variables@;
                let ghost out_before = views_of(output@);
                proof {
                    assert(out_before + Seq::<Val<N>>::empty() == out_before);
                }
                match interpret_expression(expression, variables) {
                    Ok(Value::Boolean(true)) => {
                        if left == 0 {
                            return Err(RuntimeError::StepLimit);
                        }
                        let ghost after_condition = variables@;
                        let r = interpret_statement(body, variables, output, fuel);
                        proof {
                            let b = run(**body, after_condition, fuel as nat);
                            let rest = run_loop(*expression, **body, b.0, fuel as nat, (left - 1) as nat);
                            assert(out_before + (b.1 + rest.1) == views_of(output@) + rest.1);
                            assert(out_before + b.1 == views_of(output@));
                        }
                        match r {
                            Ok(()) => {},
                            Err(f) => return Err(f),
                        }
                        left = left - 1;
                    },
                    Ok(Value::Boolean(false)) => return Ok(()),
                    Ok(_) => return Err(RuntimeError::TypeMismatch),
                    Err(f) => return Err(f),
                }
            }
        },
    }
}

/// Executes `statements` in order against the caller's global table,
/// appending what they print to `output`, and stops at the first fault. Each
/// while-loop may run at most `fuel` iterations each time it is entered. The
/// global table keeps what the statements did to it, also where one faulted.
pub fn interpret<N: Number>(
    statements: &Vec<Statement<N>>,
    global_variables: &mut Table<N>,
    output: &mut Vec<Value<N>>,
    fuel: u64,
) -> (r: Result<(), RuntimeError>)
    requires
        old(global_variables).wf(),
    ensures
        final(global_variables).wf(),
        final(global_variables)@ == run_all(
            statements@,
            Env { globals: old(global_variables)@, locals: Seq::empty() },
            fuel as nat,
        ).0.globals,
        views_of(final(output)@) == views_of(old(output)@) + run_all(
            statements@,
            Env { globals: old(global_variables)@, locals: Seq::empty() },
            fuel as nat,
        ).1,
        r == run_all(
            statements@,
            Env { globals: old(global_variables)@, locals: Seq::empty() },
            fuel as nat,
        ).2,
{
    let mut globals = Table::new();
    std::mem::swap(&mut globals, global_variables);
    let mut variables = Variables::new(globals);
    let ghost start = variables@;
    let ghost out0 = views_of(output@);
    let mut i: usize = 0;
    while i < statements.len()
        invariant
            start == (Env { globals: old(global_variables)@, locals: Seq::empty() }),
            out0 == views_of(old(output)@),
            variables.wf(),
            i <= statements.len(),
            run_all(statements@.take(i as int), start, fuel as nat).0 == variables@,
            out0 + run_all(statements@.take(i as int), start, fuel as nat).1 == views_of(output@),
            run_all(statements@.take(i as int), start, fuel as nat).2 == Ok::<(), RuntimeError>(()),
        decreases statements.len() - i,
    {
        let ghost out_before = views_of(output@);
        proof {
            assert(statements@.take(i as int + 1).drop_last() == statements@.take(i as int));
            assert(statements@.take(i as int + 1).last() == statements@[i as int]);
        }
        let r = interpret_statement(&statements[i], &mut variables, output, fuel);
        proof {
            let prev = run_all(statements@.take(i as int), start, fuel as nat);
            assert(out0 + (prev.1 + run(statements@[i as int], prev.0, fuel as nat).1) == out_before
                + run(statements@[i as int], prev.0, fuel as nat).1);
        }
        match r {
            Ok(u) => {
                proof {
                    assert(u == ());
                }
            },
            Err(f) => {
                proof {
                    lemma_run_all_fault(statements@, start, fuel as nat, i + 1);
                }
                *global_variables = variables.into_globals();
                return Err(f);
            },
        }
        i = i + 1;
    }
    proof {
        assert(statements@.take(statements.len() as int) == statements@);
    }
    *global_variables = variables.into_globals();
    Ok(())
}

} // verus!
