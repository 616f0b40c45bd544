use treewalk::ast::{BinaryOperation, Expression, Statement};
use treewalk::interpreter::interpret;
use treewalk::number::Number;
use treewalk::scope::Table;
use treewalk::semantics::RuntimeError;
use treewalk::value::Value;

#[derive(Clone, Copy, Debug)]
struct Double(f64);

impl Number for Double {
    fn spec_plus(self, rhs: Double) -> Option<Double> {
        self.plus(rhs)
    }

    fn spec_minus(self, rhs: Double) -> Option<Double> {
        self.minus(rhs)
    }

    fn spec_times(self, rhs: Double) -> Option<Double> {
        self.times(rhs)
    }

    fn spec_over(self, rhs: Double) -> Option<Double> {
        self.over(rhs)
    }

    fn spec_negate(self) -> Option<Double> {
        self.negate()
    }

    fn spec_equals(self, rhs: Double) -> bool {
        self.equals(rhs)
    }

    fn spec_less(self, rhs: Double) -> bool {
        self.less(rhs)
    }

    fn spec_less_eq(self, rhs: Double) -> bool {
        self.less_eq(rhs)
    }

    fn plus(self, rhs: Double) -> Option<Double> {
        Some(Double(self.0 + rhs.0))
    }

    fn minus(self, rhs: Double) -> Option<Double> {
        Some(Double(self.0 - rhs.0))
    }

    fn times(self, rhs: Double) -> Option<Double> {
        Some(Double(self.0 * rhs.0))
    }

    fn over(self, rhs: Double) -> Option<Double> {
        Some(Double(self.0 / rhs.0))
    }

    fn negate(self) -> Option<Double> {
        Some(Double(-self.0))
    }

    fn equals(self, rhs: Double) -> bool {
        self.0 == rhs.0
    }

    fn less(self, rhs: Double) -> bool {
        self.0 < rhs.0
    }

    fn less_eq(self, rhs: Double) -> bool {
        self.0 <= rhs.0
    }
}

fn num(n: f64) -> Expression<Double> {
    Expression::Literal(Value::Number(Double(n)))
}

fn bin(operation: BinaryOperation, l: Expression<Double>, r: Expression<Double>) -> Expression<Double> {
    Expression::Binary { operation, left_expression: Box::new(l), right_expression: Box::new(r) }
}

fn eval_double(e: Expression<Double>) -> Result<Value<Double>, RuntimeError> {
    let mut globals = Table::new();
    let mut out = Vec::new();
    let r = interpret(&vec![Statement::Expression(e)], &mut globals, &mut out, 10);
    r.map(|_| out.pop().unwrap())
}

fn number_of(r: Result<Value<Double>, RuntimeError>) -> f64 {
    match r {
        Ok(Value::Number(Double(n))) => n,
        other => panic!("not a number: {:?}", other),
    }
}

fn boolean_of(r: Result<Value<Double>, RuntimeError>) -> bool {
    match r {
        Ok(Value::Boolean(b)) => b,
        other => panic!("not a boolean: {:?}", other),
    }
}

#[test]
fn doubles_add() {
    assert_eq!(number_of(eval_double(bin(BinaryOperation::Add, num(1.0), num(1.0)))), 2.0);
    assert_eq!(number_of(eval_double(bin(BinaryOperation::Add, num(0.1), num(0.2)))), 0.1 + 0.2);
}

#[test]
fn doubles_divide_by_zero_is_infinite() {
    assert_eq!(number_of(eval_double(bin(BinaryOperation::Divide, num(1.0), num(0.0)))), f64::INFINITY);
    assert_eq!(number_of(eval_double(bin(BinaryOperation::Divide, num(-1.0), num(0.0)))), f64::NEG_INFINITY);
    assert!(number_of(eval_double(bin(BinaryOperation::Divide, num(0.0), num(0.0)))).is_nan());
}

#[test]
fn doubles_nan_comparisons() {
    let nan = || bin(BinaryOperation::Divide, num(0.0), num(0.0));
    assert!(!boolean_of(eval_double(bin(BinaryOperation::Equal, nan(), nan()))));
    assert!(boolean_of(eval_double(bin(BinaryOperation::NotEqual, nan(), nan()))));
    assert!(!boolean_of(eval_double(bin(BinaryOperation::Less, nan(), num(1.0)))));
    assert!(!boolean_of(eval_double(bin(BinaryOperation::GreaterEqual, nan(), num(1.0)))));
    assert!(boolean_of(eval_double(bin(BinaryOperation::Greater, num(2.5), num(1.0)))));
}

