use treewalk::ast::{BinaryOperation, Expression, Statement, UnaryOperation};
use treewalk::interpreter::interpret;
use treewalk::render::render;
use treewalk::scope::Table;
use treewalk::semantics::RuntimeError;
use treewalk::value::Value;

type E = Expression<i64>;
type S = Statement<i64>;
type V = Value<i64>;

const FUEL: u64 = 1000;

fn check<T: std::fmt::Debug>(actual: T, expected: T) {
    assert_eq!(format!("{:?}", actual), format!("{:?}", expected));
}

fn num(n: i64) -> E {
    Expression::Literal(Value::Number(n))
}

fn text(s: &str) -> E {
    Expression::Literal(Value::String(s.to_string()))
}

fn boolean(b: bool) -> E {
    Expression::Literal(Value::Boolean(b))
}

fn var(name: &str) -> E {
    Expression::Variable(name.to_string())
}

fn bin(operation: BinaryOperation, l: E, r: E) -> E {
    Expression::Binary { operation, left_expression: Box::new(l), right_expression: Box::new(r) }
}

fn assign(target: E, value: E) -> E {
    bin(BinaryOperation::Assignment, target, value)
}

fn access(base: E, index: usize) -> E {
    Expression::TupleAccess { expression: Box::new(base), index }
}

fn tuple(items: Vec<E>) -> E {
    Expression::Tuple(items)
}

fn print(e: E) -> S {
    Statement::Expression(e)
}

fn declare(name: &str, e: E) -> S {
    Statement::VariableDeclaration { variable: name.to_string(), value: e }
}

fn block(statements: Vec<S>) -> S {
    Statement::Block(statements)
}

fn vn(n: i64) -> V {
    Value::Number(n)
}

fn vs(s: &str) -> V {
    Value::String(s.to_string())
}

fn vb(b: bool) -> V {
    Value::Boolean(b)
}

fn run_with(statements: Vec<S>, globals: &mut Table<i64>, fuel: u64) -> (Result<(), RuntimeError>, Vec<V>) {
    let mut out = Vec::new();
    let r = interpret(&statements, globals, &mut out, fuel);
    (r, out)
}

fn run(statements: Vec<S>) -> (Result<(), RuntimeError>, Vec<V>) {
    let mut globals = Table::new();
    run_with(statements, &mut globals, FUEL)
}

fn eval_one(e: E) -> Result<V, RuntimeError> {
    let (r, mut out) = run(vec![print(e)]);
    r.map(|_| out.pop().unwrap())
}

#[test]
fn number_addition() {
    check(eval_one(bin(BinaryOperation::Add, num(1), num(1))), Ok(vn(2)));
}

#[test]
fn arithmetic_operators() {
    check(eval_one(bin(BinaryOperation::Subtract, num(7), num(10))), Ok(vn(-3)));
    check(eval_one(bin(BinaryOperation::Multiply, num(6), num(7))), Ok(vn(42)));
    check(eval_one(bin(BinaryOperation::Divide, num(7), num(2))), Ok(vn(3)));
    check(eval_one(bin(BinaryOperation::Divide, num(-7), num(2))), Ok(vn(-3)));
    let negated = Expression::Unary { operation: UnaryOperation::Minus, expression: Box::new(num(5)) };
    check(eval_one(negated), Ok(vn(-5)));
}

#[test]
fn string_concatenation() {
    check(eval_one(bin(BinaryOperation::Add, text("a"), text("b"))), Ok(vs("ab")));
}

#[test]
fn integer_domain_refuses_division_by_zero_and_overflow() {
    check(eval_one(bin(BinaryOperation::Divide, num(1), num(0))), Err(RuntimeError::Arithmetic));
    check(eval_one(bin(BinaryOperation::Add, num(i64::MAX), num(1))), Err(RuntimeError::Arithmetic));
    let negated = Expression::Unary { operation: UnaryOperation::Minus, expression: Box::new(num(i64::MIN)) };
    check(eval_one(negated), Err(RuntimeError::Arithmetic));
}

#[test]
fn comparisons() {
    check(eval_one(bin(BinaryOperation::Greater, num(2), num(1))), Ok(vb(true)));
    check(eval_one(bin(BinaryOperation::GreaterEqual, num(1), num(1))), Ok(vb(true)));
    check(eval_one(bin(BinaryOperation::Less, num(1), num(1))), Ok(vb(false)));
    check(eval_one(bin(BinaryOperation::LessEqual, num(1), num(1))), Ok(vb(true)));
    check(eval_one(bin(BinaryOperation::NotEqual, num(1), num(2))), Ok(vb(true)));
    check(eval_one(bin(BinaryOperation::Equal, boolean(true), boolean(true))), Ok(vb(true)));
    check(eval_one(bin(BinaryOperation::Equal, text("a"), text("b"))), Ok(vb(false)));
    check(eval_one(bin(BinaryOperation::Less, text("a"), text("b"))), Ok(vb(true)));
    check(eval_one(bin(BinaryOperation::Less, text("ab"), text("a"))), Ok(vb(false)));
    check(eval_one(bin(BinaryOperation::Less, text("a"), text("ab"))), Ok(vb(true)));
    check(eval_one(bin(BinaryOperation::GreaterEqual, text("b"), text("b"))), Ok(vb(true)));
    check(eval_one(bin(BinaryOperation::Greater, text("b"), text("ab"))), Ok(vb(true)));
}

#[test]
fn type_faults() {
    check(eval_one(bin(BinaryOperation::Add, num(1), boolean(true))), Err(RuntimeError::TypeMismatch));
    check(eval_one(bin(BinaryOperation::Subtract, text("a"), text("b"))), Err(RuntimeError::TypeMismatch));
    check(eval_one(bin(BinaryOperation::Less, boolean(true), boolean(false))), Err(RuntimeError::TypeMismatch));
    check(eval_one(bin(BinaryOperation::Equal, num(1), text("1"))), Err(RuntimeError::TypeMismatch));
    let not_number = Expression::Unary { operation: UnaryOperation::Not, expression: Box::new(num(1)) };
    check(eval_one(not_number), Err(RuntimeError::TypeMismatch));
    let minus_text = Expression::Unary { operation: UnaryOperation::Minus, expression: Box::new(text("a")) };
    check(eval_one(minus_text), Err(RuntimeError::TypeMismatch));
    check(eval_one(access(num(1), 0)), Err(RuntimeError::TypeMismatch));
}

#[test]
fn tuple_index_out_of_range() {
    check(eval_one(access(tuple(vec![num(1), num(2)]), 2)), Err(RuntimeError::IndexOutOfRange));
}

#[test]
fn tuple_construction_and_access() {
    let t = tuple(vec![num(1), text("a"), boolean(false)]);
    check(eval_one(tuple(vec![num(1), text("a"), boolean(false)])), Ok(Value::Tuple(vec![vn(1), vs("a"), vb(false)])));
    check(eval_one(access(t, 1)), Ok(vs("a")));
}

#[test]
fn block_declaration_is_invisible_after_block() {
    let (r, out) = run(vec![block(vec![declare("x", num(1)), print(assign(var("x"), num(2))), print(var("x"))]), print(var("x"))]);
    check(r, Err(RuntimeError::UndefinedVariable));
    check(out, vec![vn(2), vn(2)]);
}

#[test]
fn shadowing_leaves_outer_binding_unchanged() {
    let mut globals = Table::new();
    let (r, out) = run_with(
        vec![
            declare("x", num(1)),
            block(vec![declare("x", num(2)), print(assign(var("x"), num(3))), print(var("x"))]),
            print(var("x")),
        ],
        &mut globals,
        FUEL,
    );
    check(r, Ok(()));
    check(out, vec![vn(3), vn(3), vn(1)]);
    check(globals.get(&"x".to_string()), Some(vn(1)));
}

#[test]
fn assignment_in_block_reaches_outer_binding() {
    let mut globals = Table::new();
    let (r, _) = run_with(vec![declare("x", num(1)), block(vec![block(vec![print(assign(var("x"), num(5)))])])], &mut globals, FUEL);
    check(r, Ok(()));
    check(globals.get(&"x".to_string()), Some(vn(5)));
}

#[test]
fn assignment_to_undeclared_name_faults_at_any_depth() {
    check(run(vec![print(assign(var("y"), num(1)))]).0, Err(RuntimeError::UndefinedVariable));
    check(run(vec![block(vec![block(vec![print(assign(var("y"), num(1)))])])]).0, Err(RuntimeError::UndefinedVariable));
    check(run(vec![print(var("y"))]).0, Err(RuntimeError::UndefinedVariable));
}

#[test]
fn nested_tuple_mutation_round_trips() {
    let mut globals = Table::new();
    let (r, out) = run_with(
        vec![
            declare("t", tuple(vec![num(1), tuple(vec![num(2), num(3)])])),
            print(assign(access(access(var("t"), 1), 1), num(99))),
            print(var("t")),
        ],
        &mut globals,
        FUEL,
    );
    check(r, Ok(()));
    let expected = Value::Tuple(vec![vn(1), Value::Tuple(vec![vn(2), vn(99)])]);
    check(out, vec![vn(99), Value::Tuple(vec![vn(1), Value::Tuple(vec![vn(2), vn(99)])])]);
    check(globals.get(&"t".to_string()), Some(expected));
}

#[test]
fn tuple_mutation_faults() {
    let (r, _) = run(vec![declare("t", tuple(vec![num(1)])), print(assign(access(var("t"), 3), num(0)))]);
    check(r, Err(RuntimeError::IndexOutOfRange));
    let (r, _) = run(vec![declare("t", num(1)), print(assign(access(var("t"), 0), num(0)))]);
    check(r, Err(RuntimeError::TypeMismatch));
    let (r, _) = run(vec![print(assign(access(var("t"), 0), num(0)))]);
    check(r, Err(RuntimeError::UndefinedVariable));
}

#[test]
fn assignment_through_non_lvalue_is_dropped() {
    let mut globals = Table::new();
    let (r, out) = run_with(
        vec![
            declare("a", num(1)),
            print(assign(access(tuple(vec![assign(var("a"), num(7)), num(2)]), 0), num(5))),
            print(assign(num(3), num(4))),
            print(var("a")),
        ],
        &mut globals,
        FUEL,
    );
    check(r, Ok(()));
    check(out, vec![vn(5), vn(4), vn(7)]);
}

#[test]
fn assignment_yields_assigned_value() {
    let (r, out) = run(vec![
        declare("a", num(0)),
        declare("b", num(0)),
        print(assign(var("a"), assign(var("b"), num(3)))),
        print(var("a")),
        print(var("b")),
    ]);
    check(r, Ok(()));
    check(out, vec![vn(3), vn(3), vn(3)]);
}

#[test]
fn or_falls_through_unless_left_is_true() {
    check(eval_one(bin(BinaryOperation::Or, boolean(false), text("x"))), Ok(vs("x")));
    check(eval_one(bin(BinaryOperation::Or, num(1), num(2))), Ok(vn(2)));
    check(eval_one(bin(BinaryOperation::Or, boolean(true), var("missing"))), Ok(vb(true)));
}

#[test]
fn and_falls_through_unless_left_is_false() {
    check(eval_one(bin(BinaryOperation::And, boolean(false), var("missing"))), Ok(vb(false)));
    check(eval_one(bin(BinaryOperation::And, boolean(true), text("y"))), Ok(vs("y")));
    check(eval_one(bin(BinaryOperation::And, text("x"), num(3))), Ok(vn(3)));
}

fn counting_loop(limit: i64) -> Vec<S> {
    vec![
        declare("i", num(0)),
        Statement::While {
            expression: bin(BinaryOperation::Less, var("i"), num(limit)),
            statement: Box::new(block(vec![print(assign(var("i"), bin(BinaryOperation::Add, var("i"), num(1))))])),
        },
    ]
}

#[test]
fn while_loop_runs_expected_iterations() {
    let mut globals = Table::new();
    let (r, out) = run_with(counting_loop(5), &mut globals, FUEL);
    check(r, Ok(()));
    check(out, vec![vn(1), vn(2), vn(3), vn(4), vn(5)]);
    check(globals.get(&"i".to_string()), Some(vn(5)));
}

#[test]
fn while_loop_beyond_budget_stops() {
    let mut globals = Table::new();
    let (r, out) = run_with(counting_loop(5), &mut globals, 5);
    check(r, Ok(()));
    check(out.len(), 5);
    let mut globals = Table::new();
    let (r, out) = run_with(counting_loop(5), &mut globals, 4);
    check(r, Err(RuntimeError::StepLimit));
    check(out.len(), 4);
    check(globals.get(&"i".to_string()), Some(vn(4)));
}

#[test]
fn while_condition_must_be_boolean() {
    let looped = Statement::While { expression: num(1), statement: Box::new(block(vec![])) };
    check(run(vec![looped]).0, Err(RuntimeError::TypeMismatch));
}

fn conditional(condition: E) -> S {
    Statement::If {
        expression: condition,
        then_statement: Box::new(block(vec![print(text("then"))])),
        else_statement: Some(Box::new(block(vec![print(text("else"))]))),
    }
}

#[test]
fn if_runs_exactly_one_branch() {
    check(run(vec![conditional(boolean(true))]), (Ok(()), vec![vs("then")]));
    check(run(vec![conditional(boolean(false))]), (Ok(()), vec![vs("else")]));
    let no_else = Statement::If { expression: boolean(false), then_statement: Box::new(print(num(1))), else_statement: None };
    check(run(vec![no_else]), (Ok(()), vec![]));
}

#[test]
fn if_branch_declarations_follow_chosen_branch() {
    let mut globals = Table::new();
    let chosen = Statement::If {
        expression: boolean(true),
        then_statement: Box::new(declare("a", num(1))),
        else_statement: Some(Box::new(declare("b", num(2)))),
    };
    let (r, _) = run_with(vec![chosen], &mut globals, FUEL);
    check(r, Ok(()));
    check(globals.get(&"a".to_string()), Some(vn(1)));
    check(globals.get(&"b".to_string()), None);
}

#[test]
fn if_condition_must_be_boolean() {
    check(run(vec![conditional(text("yes"))]).0, Err(RuntimeError::TypeMismatch));
}

#[test]
fn globals_persist_across_runs() {
    let mut globals = Table::new();
    let (r, _) = run_with(vec![declare("x", num(10))], &mut globals, FUEL);
    check(r, Ok(()));
    let (r, out) = run_with(vec![print(bin(BinaryOperation::Add, var("x"), num(1)))], &mut globals, FUEL);
    check(r, Ok(()));
    check(out, vec![vn(11)]);
}

#[test]
fn redeclaration_overwrites_in_same_table() {
    let mut globals = Table::new();
    let (r, out) = run_with(vec![declare("x", num(1)), declare("x", text("s")), print(var("x"))], &mut globals, FUEL);
    check(r, Ok(()));
    check(out, vec![vs("s")]);
}

#[test]
fn output_before_fault_is_kept() {
    let (r, out) = run(vec![print(num(1)), print(var("nope")), print(num(2))]);
    check(r, Err(RuntimeError::UndefinedVariable));
    check(out, vec![vn(1)]);
}

#[test]
fn table_insert_and_get() {
    let mut t: Table<i64> = Table::new();
    assert!(!t.contains(&"k".to_string()));
    t.insert(&"k".to_string(), vn(1));
    t.insert(&"k".to_string(), vn(2));
    assert!(t.contains(&"k".to_string()));
    check(t.get(&"k".to_string()), Some(vn(2)));
}

#[test]
fn render_values() {
    assert_eq!(render(&vn(0)), "0");
    assert_eq!(render(&vn(42)), "42");
    assert_eq!(render(&vn(-7)), "-7");
    assert_eq!(render(&vn(i64::MIN)), "-9223372036854775808");
    assert_eq!(render(&vn(i64::MAX)), "9223372036854775807");
    assert_eq!(render(&vs("hi there")), "hi there");
    assert_eq!(render(&vb(true)), "true");
    assert_eq!(render(&vb(false)), "false");
    assert_eq!(render(&Value::Tuple(vec![])), "()");
    assert_eq!(render(&Value::Tuple(vec![vn(1)])), "(1)");
    let nested = Value::Tuple(vec![vn(1), Value::Tuple(vec![vs("a"), vb(true)]), vn(-2)]);
    assert_eq!(render(&nested), "(1, (a, true), -2)");
}
