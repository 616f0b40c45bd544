//! Properties of the evaluator, stated over the spec semantics and proved.
use vstd::prelude::*;
use crate::ast::{BinaryOperation, Expression, Statement};
use crate::number::Number;
use crate::scope::{lemma_assign_len, Env};
use crate::semantics::{
    access_path, access_root, assign_to, eval, eval_list, replace_at, run, run_all, run_loop,
    RuntimeError,
};
use crate::value::{Val, Value};

verus! {

proof fn lemma_assign_undefined<N>(e: Env<N>, x: Seq<char>, v: Val<N>)
    requires
        e.lookup(x) is None,
    ensures
        e.assign(x, v) is None,
    decreases e.locals.len(),
{
    if e.locals.len() > 0 {
        lemma_assign_undefined(e.outer(), x, v);
    }
}

/// Shadowing: in a block entered over any scope stack, a declaration of `x`
/// is what reads of `x` see and what assignments to `x` change; when the block
/// is left, the stack is as it was, so a binding of `x` outside the block keeps
/// its value, and a name declared only inside the block is unbound again.
pub proof fn law_block_binding_is_local<N>(e: Env<N>, x: Seq<char>, v: Val<N>, w: Val<N>)
    ensures
        e.enter().declare(x, v).lookup(x) == Some(v),
        e.enter().declare(x, v).assign(x, w) == Some(e.enter().declare(x, w)),
        e.enter().declare(x, w).leave() == e,
        e.enter().declare(x, w).leave().lookup(x) == e.lookup(x),
{
    let inner = e.enter().declare(x, v);
    assert(inner.locals.last() == Map::<Seq<char>, Val<N>>::empty().insert(x, v));
    assert(inner.locals.last().insert(x, w) =~= Map::<Seq<char>, Val<N>>::empty().insert(x, w));
    assert(inner.locals.update(inner.locals.len() - 1, inner.locals.last().insert(x, w))
        =~= e.enter().declare(x, w).locals);
    assert(e.enter().declare(x, w).locals.drop_last() =~= e.locals);
}

/// Assigning to a name that no table binds faults as an undefined variable
/// and stores nothing, however deep the scope stack is. (Where the right-hand
/// side itself faults, that fault comes first.)
pub proof fn law_assign_undefined_faults<N: Number>(e: Env<N>, x: String, value: Expression<N>)
    requires
        e.lookup(x@) is None,
        eval(value, e).1 is Ok,
    ensures
        eval(
            Expression::Binary {
                operation: BinaryOperation::Assignment,
                left_expression: Box::new(Expression::Variable(x)),
                right_expression: Box::new(value),
            },
            e,
        ) == (eval(value, e).0, Err::<Val<N>, RuntimeError>(RuntimeError::UndefinedVariable)),
{
    let (env1, r) = eval(value, e);
    lemma_eval_names(value, e);
    lemma_same_names_lookup(e, env1, x@);
    lemma_assign_undefined(env1, x@, r->Ok_0);
    assert(assign_to(Expression::Variable(x), r->Ok_0, env1) == (env1, Err::<Val<N>, RuntimeError>(
        RuntimeError::UndefinedVariable,
    )));
}

/// The element that `path[k..]` leads to in `v`.
pub open spec fn read_at<N>(v: Val<N>, path: Seq<usize>, k: int) -> Result<Val<N>, RuntimeError>
    decreases path.len() - k,
{
    if k >= path.len() {
        Ok(v)
    } else {
        match v {
            Val::Tuple(items) => if path[k] < items.len() {
                read_at(items[path[k] as int], path, k + 1)
            } else {
                Err(RuntimeError::IndexOutOfRange)
            },
            _ => Err(RuntimeError::TypeMismatch),
        }
    }
}

/// Nested tuple update round-trips: after the element that a path leads to is
/// replaced by `v`, reading that path gives `v`, and an element beside the
/// path at its first step is untouched.
pub proof fn law_tuple_update_reads_back<N>(whole: Val<N>, path: Seq<usize>, k: int, v: Val<N>)
    requires
        0 <= k,
        replace_at(whole, path, k, v) is Ok,
    ensures
        read_at(replace_at(whole, path, k, v)->Ok_0, path, k) == Ok::<Val<N>, RuntimeError>(v),
        k < path.len() ==> (forall|j: int|
            0 <= j < whole->Tuple_0.len() && j != path[k] ==> #[trigger] replace_at(
                whole,
                path,
                k,
                v,
            )->Ok_0->Tuple_0[j] == whole->Tuple_0[j]),
    decreases path.len() - k,
{
    if k < path.len() {
        let items = whole->Tuple_0;
        law_tuple_update_reads_back(items[path[k] as int], path, k + 1, v);
    }
}

proof fn lemma_read_at_push<N>(w: Val<N>, path: Seq<usize>, k: int, i: usize)
    requires
        0 <= k <= path.len(),
    ensures
        read_at(w, path.push(i), k) == match read_at(w, path, k) {
            Ok(Val::Tuple(items)) => if i < items.len() {
                Ok(items[i as int])
            } else {
                Err(RuntimeError::IndexOutOfRange)
            },
            Ok(_) => Err(RuntimeError::TypeMismatch),
            Err(f) => Err(f),
        },
    decreases path.len() - k,
{
    if k < path.len() {
        assert(path.push(i)[k] == path[k]);
        if let Val::Tuple(items) = w {
            if path[k] < items.len() {
                lemma_read_at_push(items[path[k] as int], path, k + 1, i);
            }
        }
    } else {
        assert(path.push(i)[k] == i);
        if let Val::Tuple(items) = w {
            if i < items.len() {
                assert(read_at(items[i as int], path.push(i), k + 1) == Ok::<Val<N>, RuntimeError>(
                    items[i as int],
                ));
            }
        }
    }
}

proof fn lemma_eval_chain<N: Number>(target: Expression<N>, env: Env<N>, name: String, w: Val<N>)
    requires
        access_root(target) == Expression::<N>::Variable(name),
        env.lookup(name@) == Some(w),
    ensures
        eval(target, env) == (env, read_at(w, access_path(target), 0)),
    decreases target,
{
    if let Expression::TupleAccess { expression, index } = target {
        lemma_eval_chain(*expression, env, name, w);
        lemma_read_at_push(w, access_path(*expression), 0, index);
    }
}

/// Nested tuple assignment round-trips: assigning `v` through a chain of tuple
/// accesses rooted at a variable yields `v`, stores the variable's value with
/// that element replaced (elements beside the path at its first step keep
/// their values), and evaluating the same chain afterwards gives `v`.
pub proof fn law_nested_tuple_assignment<N: Number>(
    target: Expression<N>,
    name: String,
    value: Value<N>,
    e: Env<N>,
)
    requires
        target is TupleAccess,
        access_root(target) == Expression::<N>::Variable(name),
        e.lookup(name@) is Some,
        replace_at(e.lookup(name@)->Some_0, access_path(target), 0, value@) is Ok,
    ensures
        ({
            let whole = e.lookup(name@)->Some_0;
            let path = access_path(target);
            let updated = replace_at(whole, path, 0, value@)->Ok_0;
            let (after, r) = eval(
                Expression::Binary {
                    operation: BinaryOperation::Assignment,
                    left_expression: Box::new(target),
                    right_expression: Box::new(Expression::Literal(value)),
                },
                e,
            );
            &&& r == Ok::<Val<N>, RuntimeError>(value@)
            &&& after.lookup(name@) == Some(updated)
            &&& forall|j: int|
                0 <= j < whole->Tuple_0.len() && j != path[0] ==> #[trigger] updated->Tuple_0[j]
                    == whole->Tuple_0[j]
            &&& eval(target, after) == (after, Ok::<Val<N>, RuntimeError>(value@))
        }),
{
    let whole = e.lookup(name@)->Some_0;
    let path = access_path(target);
    let updated = replace_at(whole, path, 0, value@)->Ok_0;
    assert(path.len() > 0);
    assert(eval(Expression::Literal(value), e) == (e, Ok::<Val<N>, RuntimeError>(value@)));
    lemma_assign_found(e, name@, updated);
    let after = e.assign(name@, updated)->Some_0;
    assert(assign_to(target, value@, e) == (after, Ok::<Val<N>, RuntimeError>(value@)));
    law_tuple_update_reads_back(whole, path, 0, value@);
    lemma_eval_chain(target, after, name, updated);
}

/// `or` and `and` short-circuit only on the exact boolean: `or` hands back its
/// left value unevaluated further when that value is `true`, and otherwise
/// evaluates and hands back its right operand, whatever kind the left value
/// is; `and` does the same with `false`.
pub proof fn law_logic_falls_through<N: Number>(left: Expression<N>, right: Expression<N>, e: Env<N>)
    requires
        eval(left, e).1 is Ok,
    ensures
        ({
            let (env1, r) = eval(left, e);
            let v = r->Ok_0;
            &&& eval(
                Expression::Binary {
                    operation: BinaryOperation::Or,
                    left_expression: Box::new(left),
                    right_expression: Box::new(right),
                },
                e,
            ) == if v == Val::<N>::Boolean(true) {
                (env1, Ok::<Val<N>, RuntimeError>(v))
            } else {
                eval(right, env1)
            }
            &&& eval(
                Expression::Binary {
                    operation: BinaryOperation::And,
                    left_expression: Box::new(left),
                    right_expression: Box::new(right),
                },
                e,
            ) == if v == Val::<N>::Boolean(false) {
                (env1, Ok::<Val<N>, RuntimeError>(v))
            } else {
                eval(right, env1)
            }
        }),
{
}

/// A conditional runs exactly one branch: the then-branch when the condition
/// is `true`, else the else-branch if there is one; no branch when the
/// condition is `false` and there is none.
pub proof fn law_if_runs_one_branch<N: Number>(
    condition: Expression<N>,
    then_statement: Statement<N>,
    else_statement: Option<Box<Statement<N>>>,
    e: Env<N>,
    fuel: nat,
    b: bool,
)
    requires
        eval(condition, e).1 == Ok::<Val<N>, RuntimeError>(Val::Boolean(b)),
    ensures
        run(
            Statement::If { expression: condition, then_statement: Box::new(then_statement), else_statement },
            e,
            fuel,
        ) == if b {
            run(then_statement, eval(condition, e).0, fuel)
        } else {
            match else_statement {
                Some(other) => run(*other, eval(condition, e).0, fuel),
                None => (eval(condition, e).0, Seq::empty(), Ok(())),
            }
        },
{
}

/// Both stacks have the same depth and every table binds the same names.
pub open spec fn same_names<N>(a: Env<N>, b: Env<N>) -> bool {
    &&& a.locals.len() == b.locals.len()
    &&& a.globals.dom() == b.globals.dom()
    &&& forall|i: int| 0 <= i < a.locals.len() ==> #[trigger] a.locals[i].dom() == b.locals[i].dom()
}

/// Both stacks have the same depth and every table below the current one
/// binds the same names; the current table may have gained names.
pub open spec fn same_outer_names<N>(a: Env<N>, b: Env<N>) -> bool {
    &&& a.locals.len() == b.locals.len()
    &&& a.locals.len() > 0 ==> a.globals.dom() == b.globals.dom()
    &&& forall|i: int| 0 <= i < a.locals.len() - 1 ==> #[trigger] a.locals[i].dom() == b.locals[i].dom()
}

proof fn lemma_assign_names<N>(e: Env<N>, x: Seq<char>, v: Val<N>)
    ensures
        e.assign(x, v) matches Some(r) ==> same_names(e, r),
    decreases e.locals.len(),
{
    if e.locals.len() == 0 {
        if e.globals.contains_key(x) {
            assert(e.globals.insert(x, v).dom() =~= e.globals.dom());
        }
    } else if e.locals.last().contains_key(x) {
        assert(e.locals.last().insert(x, v).dom() =~= e.locals.last().dom());
    } else {
        lemma_assign_names(e.outer(), x, v);
        if let Some(r) = e.outer().assign(x, v) {
            assert forall|i: int| 0 <= i < e.locals.len() implies #[trigger] e.locals[i].dom()
                == r.locals.push(e.locals.last())[i].dom() by {
                if i < e.locals.len() - 1 {
                    assert(e.outer().locals[i] == e.locals[i]);
                }
            }
        }
    }
}

proof fn lemma_same_names_lookup<N>(a: Env<N>, b: Env<N>, x: Seq<char>)
    requires
        same_names(a, b),
    ensures
        a.lookup(x) is None <==> b.lookup(x) is None,
    decreases a.locals.len(),
{
    if a.locals.len() > 0 {
        assert(a.locals.last().dom() == b.locals.last().dom());
        assert forall|i: int| 0 <= i < a.outer().locals.len() implies #[trigger] a.outer().locals[i].dom()
            == b.outer().locals[i].dom() by {
            assert(a.locals[i].dom() == b.locals[i].dom());
        }
        lemma_same_names_lookup(a.outer(), b.outer(), x);
        assert(a.locals.last().contains_key(x) == a.locals.last().dom().contains(x));
        assert(b.locals.last().contains_key(x) == b.locals.last().dom().contains(x));
    } else {
        assert(a.globals.contains_key(x) == a.globals.dom().contains(x));
        assert(b.globals.contains_key(x) == b.globals.dom().contains(x));
    }
}

proof fn lemma_eval_names<N: Number>(e: Expression<N>, env: Env<N>)
    ensures
        same_names(env, eval(e, env).0),
    decreases e, 0nat,
{
    match e {
        Expression::Unary { operation: _, expression } => {
            lemma_eval_names(*expression, env);
        },
        Expression::Binary { operation, left_expression, right_expression } => {
            match operation {
                BinaryOperation::Assignment => {
                    lemma_eval_names(*right_expression, env);
                    let (env1, r) = eval(*right_expression, env);
                    if let Ok(v) = r {
                        lemma_assign_to_names(*left_expression, v, env1);
                    }
                },
                _ => {
                    lemma_eval_names(*left_expression, env);
                    let env1 = eval(*left_expression, env).0;
                    lemma_eval_names(*right_expression, env1);
                },
            }
        },
        Expression::Grouping(inner) => {
            lemma_eval_names(*inner, env);
        },
        Expression::Tuple(items) => {
            lemma_eval_list_names(items@, env);
        },
        Expression::TupleAccess { expression, index: _ } => {
            lemma_eval_names(*expression, env);
        },
        _ => {},
    }
}

proof fn lemma_eval_list_names<N: Number>(items: Seq<Expression<N>>, env: Env<N>)
    ensures
        same_names(env, eval_list(items, env).0),
    decreases items, 0nat,
{
    if items.len() > 0 {
        lemma_eval_list_names(items.drop_last(), env);
        let env1 = eval_list(items.drop_last(), env).0;
        lemma_eval_names(items.last(), env1);
    }
}

proof fn lemma_assign_to_names<N: Number>(target: Expression<N>, v: Val<N>, env: Env<N>)
    ensures
        same_names(env, assign_to(target, v, env).0),
    decreases target, 1nat,
{
    match target {
        Expression::Variable(name) => {
            lemma_assign_names(env, name@, v);
        },
        Expression::TupleAccess { expression, index: _ } => {
            match access_root(target) {
                Expression::Variable(name) => {
                    if let Some(whole) = env.lookup(name@) {
                        if let Ok(updated) = replace_at(whole, access_path(target), 0, v) {
                            lemma_assign_names(env, name@, updated);
                        }
                    }
                },
                _ => {
                    lemma_eval_names(*expression, env);
                },
            }
        },
        _ => {
            lemma_eval_names(target, env);
        },
    }
}

proof fn lemma_run_names<N: Number>(s: Statement<N>, env: Env<N>, fuel: nat)
    ensures
        same_outer_names(env, run(s, env, fuel).0),
    decreases s, 0nat,
{
    match s {
        Statement::Expression(e) => {
            lemma_eval_names(e, env);
        },
        Statement::VariableDeclaration { variable, value } => {
            lemma_eval_names(value, env);
            let env1 = eval(value, env).0;
            let env2 = env1.declare(variable@, eval(value, env).1->Ok_0);
            assert(same_outer_names(env1, env2));
        },
        Statement::Block(statements) => {
            lemma_run_all_names(statements@, env.enter(), fuel);
            let env1 = run_all(statements@, env.enter(), fuel).0;
            assert forall|i: int| 0 <= i < env.locals.len() implies #[trigger] env.locals[i].dom()
                == env1.leave().locals[i].dom() by {
                assert(env.enter().locals[i] == env.locals[i]);
            }
        },
        Statement::If { expression, then_statement, else_statement } => {
            lemma_eval_names(expression, env);
            let env1 = eval(expression, env).0;
            lemma_run_names(*then_statement, env1, fuel);
            if let Some(other) = else_statement {
                lemma_run_names(*other, env1, fuel);
            }
        },
        Statement::While { expression, statement } => {
            lemma_run_loop_names(expression, *statement, env, fuel, fuel);
        },
    }
}

proof fn lemma_run_all_names<N: Number>(statements: Seq<Statement<N>>, env: Env<N>, fuel: nat)
    ensures
        same_outer_names(env, run_all(statements, env, fuel).0),
    decreases statements, 0nat,
{
    if statements.len() > 0 {
        lemma_run_all_names(statements.drop_last(), env, fuel);
        let env1 = run_all(statements.drop_last(), env, fuel).0;
        lemma_run_names(statements.last(), env1, fuel);
    }
}

proof fn lemma_run_loop_names<N: Number>(
    condition: Expression<N>,
    body: Statement<N>,
    env: Env<N>,
    fuel: nat,
    left: nat,
)
    ensures
        same_outer_names(env, run_loop(condition, body, env, fuel, left).0),
    decreases body, left,
{
    lemma_eval_names(condition, env);
    let env1 = eval(condition, env).0;
    if left > 0 {
        lemma_run_names(body, env1, fuel);
        let env2 = run(body, env1, fuel).0;
        lemma_run_loop_names(condition, body, env2, fuel, (left - 1) as nat);
    }
}

/// A block's bindings end with it: a name that no table bound before a block
/// runs is unbound after it, so reading it then faults as an undefined
/// variable; and the stack has its former depth.
pub proof fn law_block_bindings_end_with_block<N: Number>(
    statements: Vec<Statement<N>>,
    e: Env<N>,
    fuel: nat,
    x: String,
)
    requires
        e.lookup(x@) is None,
    ensures
        run(Statement::Block(statements), e, fuel).0.lookup(x@) is None,
        run(Statement::Block(statements), e, fuel).0.locals.len() == e.locals.len(),
        eval(Expression::Variable(x), run(Statement::Block(statements), e, fuel).0).1
            == Err::<Val<N>, RuntimeError>(RuntimeError::UndefinedVariable),
{
    lemma_run_names(Statement::Block(statements), e, fuel);
    let after = run(Statement::Block(statements), e, fuel).0;
    lemma_run_all_names(statements@, e.enter(), fuel);
    let inner = run_all(statements@, e.enter(), fuel).0;
    assert(same_names(e, after)) by {
        assert forall|i: int| 0 <= i < e.locals.len() implies #[trigger] e.locals[i].dom()
            == after.locals[i].dom() by {
            assert(e.enter().locals[i] == e.locals[i]);
        }
    }
    lemma_same_names_lookup(e, after, x@);
}

proof fn lemma_assign_found<N>(e: Env<N>, x: Seq<char>, v: Val<N>)
    requires
        e.lookup(x) is Some,
    ensures
        e.assign(x, v) is Some,
        e.assign(x, v)->Some_0.lookup(x) == Some(v),
    decreases e.locals.len(),
{
    if e.locals.len() > 0 && !e.locals.last().contains_key(x) {
        lemma_assign_found(e.outer(), x, v);
        let r = e.outer().assign(x, v)->Some_0;
        let whole = Env { globals: r.globals, locals: r.locals.push(e.locals.last()) };
        assert(whole.locals.last() == e.locals.last());
        assert(whole.outer().locals =~= r.locals);
    }
}

/// The condition `i < n` of a counting loop.
pub open spec fn count_condition(i: String, n: i64) -> Expression<i64> {
    Expression::Binary {
        operation: BinaryOperation::Less,
        left_expression: Box::new(Expression::Variable(i)),
        right_expression: Box::new(Expression::Literal(Value::Number(n))),
    }
}

/// The body `i = i + 1` of a counting loop, which prints the new value.
pub open spec fn count_step(i: String) -> Statement<i64> {
    Statement::Expression(
        Expression::Binary {
            operation: BinaryOperation::Assignment,
            left_expression: Box::new(Expression::Variable(i)),
            right_expression: Box::new(
                Expression::Binary {
                    operation: BinaryOperation::Add,
                    left_expression: Box::new(Expression::Variable(i)),
                    right_expression: Box::new(Expression::Literal(Value::Number(1))),
                },
            ),
        },
    )
}

/// A counting loop `while i < n { i = i + 1 }`, started with `i` bound to
/// `k <= n` and allowed at least `n - k` iterations, runs exactly `n - k`
/// iterations, printing `k + 1`, ..., `n`, completes, and leaves `i` at `n`.
pub proof fn law_counting_loop(i: String, k: i64, n: i64, e: Env<i64>, fuel: nat, left: nat)
    requires
        e.lookup(i@) == Some(Val::<i64>::Number(k)),
        k <= n,
        left >= n - k,
    ensures
        run_loop(count_condition(i, n), count_step(i), e, fuel, left).2 == Ok::<(), RuntimeError>(()),
        run_loop(count_condition(i, n), count_step(i), e, fuel, left).0.lookup(i@) == Some(
            Val::<i64>::Number(n),
        ),
        run_loop(count_condition(i, n), count_step(i), e, fuel, left).1 == Seq::new(
            (n - k) as nat,
            |j: int| Val::<i64>::Number((k + 1 + j) as i64),
        ),
    decreases n - k,
{
    let cond = count_condition(i, n);
    let body = count_step(i);
    let var = Expression::<i64>::Variable(i);
    assert(eval(var, e) == (e, Ok::<Val<i64>, RuntimeError>(Val::Number(k))));
    assert(eval(Expression::Literal(Value::<i64>::Number(n)), e) == (e, Ok::<Val<i64>, RuntimeError>(
        Val::Number(n),
    )));
    assert(eval(cond, e) == (e, Ok::<Val<i64>, RuntimeError>(Val::Boolean(k < n))));
    if k < n {
        let sum = Expression::<i64>::Binary {
            operation: BinaryOperation::Add,
            left_expression: Box::new(var),
            right_expression: Box::new(Expression::Literal(Value::Number(1))),
        };
        assert(eval(Expression::Literal(Value::<i64>::Number(1)), e) == (e, Ok::<
            Val<i64>,
            RuntimeError,
        >(Val::Number(1))));
        assert(eval(sum, e) == (e, Ok::<Val<i64>, RuntimeError>(Val::Number((k + 1) as i64))));
        lemma_assign_found(e, i@, Val::Number((k + 1) as i64));
        let e2 = e.assign(i@, Val::Number((k + 1) as i64))->Some_0;
        assert(assign_to(var, Val::Number((k + 1) as i64), e) == (e2, Ok::<Val<i64>, RuntimeError>(
            Val::Number((k + 1) as i64),
        )));
        assert(run(body, e, fuel) == (e2, seq![Val::<i64>::Number((k + 1) as i64)], Ok::<
            (),
            RuntimeError,
        >(())));
        law_counting_loop(i, (k + 1) as i64, n, e2, fuel, (left - 1) as nat);
        let rest = run_loop(cond, body, e2, fuel, (left - 1) as nat);
        assert(seq![Val::<i64>::Number((k + 1) as i64)] + rest.1 =~= Seq::new(
            (n - k) as nat,
            |j: int| Val::<i64>::Number((k + 1 + j) as i64),
        ));
    } else {
        assert(Seq::<Val<i64>>::empty() =~= Seq::new(
            (n - k) as nat,
            |j: int| Val::<i64>::Number((k + 1 + j) as i64),
        ));
    }
}

/// Two tables agree on `x`: both bind it to the same value, or neither binds it.
pub open spec fn same_entry<N>(m1: Map<Seq<char>, Val<N>>, m2: Map<Seq<char>, Val<N>>, x: Seq<char>) -> bool {
    &&& m1.contains_key(x) == m2.contains_key(x)
    &&& m1.contains_key(x) ==> m1[x] == m2[x]
}

/// Some table at depth `d` or deeper binds `x`.
pub open spec fn binds_from<N>(a: Env<N>, x: Seq<char>, d: int) -> bool {
    exists|j: int| d <= j < a.locals.len() && #[trigger] a.locals[j].contains_key(x)
}

/// Both stacks have the same depth, and the global table and every table
/// below depth `d` agree on `x`.
pub open spec fn same_below<N>(a: Env<N>, b: Env<N>, x: Seq<char>, d: int) -> bool {
    &&& a.locals.len() == b.locals.len()
    &&& same_entry(a.globals, b.globals, x)
    &&& forall|i: int| 0 <= i < d && i < a.locals.len() ==> same_entry(a.locals[i], #[trigger] b.locals[i], x)
}

proof fn lemma_assign_below<N>(a: Env<N>, y: Seq<char>, v: Val<N>, x: Seq<char>, d: int)
    requires
        0 <= d,
        y != x || binds_from(a, x, d),
    ensures
        a.assign(y, v) matches Some(r) ==> same_below(a, r, x, d),
    decreases a.locals.len(),
{
    if a.locals.len() == 0 {
    } else if a.locals.last().contains_key(y) {
        if let Some(r) = a.assign(y, v) {
            assert forall|i: int| 0 <= i < d && i < a.locals.len() implies #[trigger] same_entry(
                a.locals[i],
                r.locals[i],
                x,
            ) by {
                if i == a.locals.len() - 1 {
                    if y == x {
                        let j = choose|j: int| d <= j < a.locals.len() && #[trigger] a.locals[j].contains_key(x);
                        assert(false);
                    }
                }
            }
        }
    } else {
        if y == x {
            let j = choose|j: int| d <= j < a.locals.len() && #[trigger] a.locals[j].contains_key(x);
            assert(a.outer().locals[j] == a.locals[j]);
        }
        lemma_assign_below(a.outer(), y, v, x, d);
        lemma_assign_len(a.outer(), y, v);
        if let Some(r0) = a.outer().assign(y, v) {
            let r = Env { globals: r0.globals, locals: r0.locals.push(a.locals.last()) };
            assert forall|i: int| 0 <= i < d && i < a.locals.len() implies #[trigger] same_entry(
                a.locals[i],
                r.locals[i],
                x,
            ) by {
                if i < a.locals.len() - 1 {
                    assert(a.outer().locals[i] == a.locals[i]);
                    assert(same_entry(a.outer().locals[i], r0.locals[i], x));
                }
            }
        }
    }
}

proof fn lemma_binds_from_kept<N>(a: Env<N>, b: Env<N>, x: Seq<char>, d: int)
    requires
        binds_from(a, x, d),
        a.locals.len() == b.locals.len(),
        forall|i: int| d <= i < a.locals.len() ==> #[trigger] a.locals[i].dom() == b.locals[i].dom(),
    ensures
        binds_from(b, x, d),
{
    let j = choose|j: int| d <= j < a.locals.len() && #[trigger] a.locals[j].contains_key(x);
    assert(a.locals[j].dom().contains(x));
    assert(b.locals[j].contains_key(x));
}

proof fn lemma_eval_below<N: Number>(e: Expression<N>, env: Env<N>, x: Seq<char>, d: int)
    requires
        0 <= d,
        binds_from(env, x, d),
    ensures
        same_below(env, eval(e, env).0, x, d),
        binds_from(eval(e, env).0, x, d),
    decreases e, 0nat,
{
    lemma_eval_names(e, env);
    lemma_binds_from_kept(env, eval(e, env).0, x, d);
    match e {
        Expression::Unary { operation: _, expression } => {
            lemma_eval_below(*expression, env, x, d);
        },
        Expression::Binary { operation, left_expression, right_expression } => {
            match operation {
                BinaryOperation::Assignment => {
                    lemma_eval_below(*right_expression, env, x, d);
                    let (env1, r) = eval(*right_expression, env);
                    if let Ok(v) = r {
                        lemma_assign_to_below(*left_expression, v, env1, x, d);
                    }
                },
                _ => {
                    lemma_eval_below(*left_expression, env, x, d);
                    let env1 = eval(*left_expression, env).0;
                    lemma_eval_below(*right_expression, env1, x, d);
                },
            }
        },
        Expression::Grouping(inner) => {
            lemma_eval_below(*inner, env, x, d);
        },
        Expression::Tuple(items) => {
            lemma_eval_list_below(items@, env, x, d);
        },
        Expression::TupleAccess { expression, index: _ } => {
            lemma_eval_below(*expression, env, x, d);
        },
        _ => {},
    }
}

proof fn lemma_eval_list_below<N: Number>(items: Seq<Expression<N>>, env: Env<N>, x: Seq<char>, d: int)
    requires
        0 <= d,
        binds_from(env, x, d),
    ensures
        same_below(env, eval_list(items, env).0, x, d),
        binds_from(eval_list(items, env).0, x, d),
    decreases items, 0nat,
{
    if items.len() > 0 {
        lemma_eval_list_below(items.drop_last(), env, x, d);
        let env1 = eval_list(items.drop_last(), env).0;
        lemma_eval_below(items.last(), env1, x, d);
    }
}

proof fn lemma_assign_to_below<N: Number>(target: Expression<N>, v: Val<N>, env: Env<N>, x: Seq<char>, d: int)
    requires
        0 <= d,
        binds_from(env, x, d),
    ensures
        same_below(env, assign_to(target, v, env).0, x, d),
        binds_from(assign_to(target, v, env).0, x, d),
    decreases target, 1nat,
{
    lemma_assign_to_names(target, v, env);
    lemma_binds_from_kept(env, assign_to(target, v, env).0, x, d);
    match target {
        Expression::Variable(name) => {
            lemma_assign_below(env, name@, v, x, d);
        },
        Expression::TupleAccess { expression, index: _ } => {
            match access_root(target) {
                Expression::Variable(name) => {
                    if let Some(whole) = env.lookup(name@) {
                        if let Ok(updated) = replace_at(whole, access_path(target), 0, v) {
                            lemma_assign_below(env, name@, updated, x, d);
                        }
                    }
                },
                _ => {
                    lemma_eval_below(*expression, env, x, d);
                },
            }
        },
        _ => {
            lemma_eval_below(target, env, x, d);
        },
    }
}

proof fn lemma_run_below<N: Number>(s: Statement<N>, env: Env<N>, fuel: nat, x: Seq<char>, d: int)
    requires
        0 <= d,
        binds_from(env, x, d),
    ensures
        same_below(env, run(s, env, fuel).0, x, d),
        binds_from(run(s, env, fuel).0, x, d),
    decreases s, 0nat,
{
    match s {
        Statement::Expression(e) => {
            lemma_eval_below(e, env, x, d);
        },
        Statement::VariableDeclaration { variable, value } => {
            lemma_eval_below(value, env, x, d);
            let env1 = eval(value, env).0;
            let j = choose|j: int| d <= j < env1.locals.len() && #[trigger] env1.locals[j].contains_key(x);
            if let Ok(v) = eval(value, env).1 {
                let env2 = env1.declare(variable@, v);
                assert(env2.locals[j].contains_key(x));
                assert forall|i: int| 0 <= i < d && i < env1.locals.len() implies #[trigger] same_entry(
                    env1.locals[i],
                    env2.locals[i],
                    x,
                ) by {
                    assert(i < env1.locals.len() - 1);
                }
            }
        },
        Statement::Block(statements) => {
            let inner = env.enter();
            let j = choose|j: int| d <= j < env.locals.len() && #[trigger] env.locals[j].contains_key(x);
            assert(inner.locals[j] == env.locals[j]);
            lemma_run_all_below(statements@, inner, fuel, x, d);
            lemma_run_all_names(statements@, inner, fuel);
            let env1 = run_all(statements@, inner, fuel).0;
            assert(env1.leave().locals[j] == env1.locals[j]);
            assert(env1.locals[j].dom() == inner.locals[j].dom());
            assert(env1.leave().locals[j].contains_key(x));
            assert forall|i: int| 0 <= i < d && i < env.locals.len() implies #[trigger] same_entry(
                env.locals[i],
                env1.leave().locals[i],
                x,
            ) by {
                assert(inner.locals[i] == env.locals[i]);
                assert(same_entry(inner.locals[i], env1.locals[i], x));
            }
        },
        Statement::If { expression, then_statement, else_statement } => {
            lemma_eval_below(expression, env, x, d);
            let env1 = eval(expression, env).0;
            lemma_run_below(*then_statement, env1, fuel, x, d);
            if let Some(other) = else_statement {
                lemma_run_below(*other, env1, fuel, x, d);
            }
        },
        Statement::While { expression, statement } => {
            lemma_run_loop_below(expression, *statement, env, fuel, fuel, x, d);
        },
    }
}

proof fn lemma_run_all_below<N: Number>(statements: Seq<Statement<N>>, env: Env<N>, fuel: nat, x: Seq<char>, d: int)
    requires
        0 <= d,
        binds_from(env, x, d),
    ensures
        same_below(env, run_all(statements, env, fuel).0, x, d),
        binds_from(run_all(statements, env, fuel).0, x, d),
    decreases statements, 0nat,
{
    if statements.len() > 0 {
        lemma_run_all_below(statements.drop_last(), env, fuel, x, d);
        let env1 = run_all(statements.drop_last(), env, fuel).0;
        lemma_run_below(statements.last(), env1, fuel, x, d);
    }
}

proof fn lemma_run_loop_below<N: Number>(
    condition: Expression<N>,
    body: Statement<N>,
    env: Env<N>,
    fuel: nat,
    left: nat,
    x: Seq<char>,
    d: int,
)
    requires
        0 <= d,
        binds_from(env, x, d),
    ensures
        same_below(env, run_loop(condition, body, env, fuel, left).0, x, d),
        binds_from(run_loop(condition, body, env, fuel, left).0, x, d),
    decreases body, left,
{
    lemma_eval_below(condition, env, x, d);
    let env1 = eval(condition, env).0;
    if left > 0 {
        lemma_run_below(body, env1, fuel, x, d);
        let env2 = run(body, env1, fuel).0;
        lemma_run_loop_below(condition, body, env2, fuel, (left - 1) as nat, x, d);
    }
}

proof fn lemma_same_entries_lookup<N>(a: Env<N>, b: Env<N>, x: Seq<char>)
    requires
        same_below(a, b, x, a.locals.len() as int),
    ensures
        a.lookup(x) == b.lookup(x),
    decreases a.locals.len(),
{
    if a.locals.len() > 0 {
        assert(same_entry(a.locals[a.locals.len() - 1], b.locals[b.locals.len() - 1], x));
        assert forall|i: int| 0 <= i < a.outer().locals.len() implies #[trigger] same_entry(
            a.outer().locals[i],
            b.outer().locals[i],
            x,
        ) by {
            assert(same_entry(a.locals[i], b.locals[i], x));
        }
        lemma_same_entries_lookup(a.outer(), b.outer(), x);
    }
}

proof fn lemma_block_prefix<N: Number>(
    statements: Seq<Statement<N>>,
    x: String,
    init: Value<N>,
    e: Env<N>,
    fuel: nat,
    m: int,
)
    requires
        1 <= m <= statements.len(),
        statements[0] == (Statement::VariableDeclaration { variable: x, value: Expression::Literal(init) }),
    ensures
        same_below(e.enter(), run_all(statements.take(m), e.enter(), fuel).0, x@, e.locals.len() as int),
        binds_from(run_all(statements.take(m), e.enter(), fuel).0, x@, e.locals.len() as int),
    decreases m,
{
    let d = e.locals.len() as int;
    let start = e.enter();
    if m == 1 {
        let first = statements.take(1);
        assert(first.drop_last() =~= Seq::<Statement<N>>::empty());
        assert(first.last() == statements[0]);
        assert(run_all(first.drop_last(), start, fuel) == (start, Seq::<Val<N>>::empty(), Ok::<(), RuntimeError>(())));
        assert(run(statements[0], start, fuel).0 == start.declare(x@, init@));
        assert(eval(Expression::Literal(init), start) == (start, Ok::<Val<N>, RuntimeError>(init@)));
        let after = start.declare(x@, init@);
        assert(run_all(first, start, fuel).0 == after);
        assert(after.locals[d].contains_key(x@));
        assert forall|i: int| 0 <= i < d && i < start.locals.len() implies #[trigger] same_entry(
            start.locals[i],
            after.locals[i],
            x@,
        ) by {}
    } else {
        lemma_block_prefix(statements, x, init, e, fuel, m - 1);
        let prefix = statements.take(m);
        assert(prefix.drop_last() == statements.take(m - 1));
        assert(prefix.last() == statements[m - 1]);
        let env1 = run_all(statements.take(m - 1), start, fuel).0;
        lemma_run_below(statements[m - 1], env1, fuel, x@, d);
    }
}

/// Shadowing: a block that begins by declaring `x` leaves every binding of
/// `x` outside it as it was, whatever the rest of the block reads, assigns or
/// declares: after the block, `x` has the value it had before, or is unbound
/// if it was.
pub proof fn law_shadowing_block<N: Number>(
    statements: Vec<Statement<N>>,
    x: String,
    init: Value<N>,
    e: Env<N>,
    fuel: nat,
)
    requires
        statements@.len() >= 1,
        statements@[0] == (Statement::VariableDeclaration { variable: x, value: Expression::Literal(init) }),
    ensures
        run(Statement::Block(statements), e, fuel).0.lookup(x@) == e.lookup(x@),
{
    let d = e.locals.len() as int;
    lemma_block_prefix(statements@, x, init, e, fuel, statements@.len() as int);
    assert(statements@.take(statements@.len() as int) == statements@);
    let env1 = run_all(statements@, e.enter(), fuel).0;
    let after = env1.leave();
    assert forall|i: int| 0 <= i < d && i < e.locals.len() implies #[trigger] same_entry(
        e.locals[i],
        after.locals[i],
        x@,
    ) by {
        assert(e.enter().locals[i] == e.locals[i]);
        assert(same_entry(e.enter().locals[i], env1.locals[i], x@));
    }
    lemma_same_entries_lookup(e, after, x@);
}

} // verus!
