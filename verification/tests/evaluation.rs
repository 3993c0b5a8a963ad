use calc::parser::parse_line;
use calc::repr::{Expr, Operation, Operator, Step};

fn num(t: &str) -> Expr {
    Expr::Num(t.to_string())
}

fn node(op: Operator, params: Vec<Expr>) -> Expr {
    Expr::Op(Operation::new(op, params))
}

/// Runs an evaluation plan: literals are pushed, an operator replaces
/// the two topmost entries by its result (the lower entry on the left).
fn run_plan(steps: Vec<Step>) -> f64 {
    let mut stack: Vec<f64> = Vec::new();
    for step in steps {
        match step {
            Step::Push(text) => stack.push(text.parse::<f64>().unwrap()),
            Step::Apply(op) => {
                let b = stack.pop().unwrap();
                let a = stack.pop().unwrap();
                let v = match op {
                    Operator::Add => a + b,
                    Operator::Sub => a - b,
                    Operator::Mul => a * b,
                    Operator::Div => a / b,
                };
                stack.push(v);
            }
        }
    }
    assert_eq!(stack.len(), 1);
    stack.pop().unwrap()
}

fn eval(e: &Expr) -> f64 {
    run_plan(e.eval_steps())
}

fn assert_near(actual: f64, expected: f64) {
    assert!(
        (actual - expected).abs() < 1e-9,
        "expected {expected}, got {actual}"
    );
}

#[test]
fn add_basic() {
    assert_near(
        run_plan(Operation::new(Operator::Add, vec![num("2.3"), num("4.1")]).eval_steps()),
        6.4,
    );
}

#[test]
fn sub_basic() {
    assert_near(
        run_plan(Operation::new(Operator::Sub, vec![num("2.3"), num("4.1")]).eval_steps()),
        -1.8,
    );
}

#[test]
fn mul_basic() {
    assert_near(
        run_plan(Operation::new(Operator::Mul, vec![num("2.3"), num("4.1")]).eval_steps()),
        9.43,
    );
}

#[test]
fn div_basic() {
    assert_near(
        run_plan(Operation::new(Operator::Div, vec![num("2.3"), num("4.1")]).eval_steps()),
        0.560975609756098,
    );
}

#[test]
fn div_zero() {
    // division by zero is a valid float result, not an error
    assert_eq!(
        run_plan(Operation::new(Operator::Div, vec![num("2.3"), num("0")]).eval_steps()),
        f64::INFINITY,
    );
    assert_eq!(
        run_plan(Operation::new(Operator::Div, vec![num("2.3"), num("-0")]).eval_steps()),
        f64::NEG_INFINITY,
    );
}

#[test]
fn plan_shape() {
    let e = node(
        Operator::Add,
        vec![node(Operator::Mul, vec![num("1"), num("2")]), num("3")],
    );
    assert_eq!(
        e.eval_steps(),
        vec![
            Step::Push("1".to_string()),
            Step::Push("2".to_string()),
            Step::Apply(Operator::Mul),
            Step::Push("3".to_string()),
            Step::Apply(Operator::Add),
        ]
    );
}

#[test]
fn wide_node_folds_left() {
    // ((10 - 1) - 2) - 3 = 4
    let op = Operation::new(
        Operator::Sub,
        vec![num("10"), num("1"), num("2"), num("3")],
    );
    assert_eq!(run_plan(op.eval_steps()), 4.0);
}

#[test]
fn literal_round_trip() {
    for text in ["1", "-1.5", "12.25", "0", "-0.5", "100.125"] {
        let e = parse_line(text).unwrap();
        assert_eq!(eval(&e), text.parse::<f64>().unwrap());
    }
}

#[test]
fn left_associativity() {
    let e = parse_line("1-2-3").unwrap();
    assert_eq!(eval(&e), -4.0);
}

#[test]
fn precedence_mul_before_add() {
    assert_eq!(eval(&parse_line("1+2*3").unwrap()), 7.0);
    assert_eq!(eval(&parse_line("1*2+3").unwrap()), 5.0);
}

#[test]
fn parentheses_override_precedence() {
    assert_eq!(eval(&parse_line("(1+2)*3").unwrap()), 9.0);
}

#[test]
fn division_by_zero_is_infinite() {
    assert_eq!(eval(&parse_line("1/0").unwrap()), f64::INFINITY);
    assert_eq!(eval(&parse_line("1/-0").unwrap()), f64::NEG_INFINITY);
    assert!(eval(&parse_line("0/0").unwrap()).is_nan());
}

#[test]
fn re_evaluation_is_idempotent() {
    let e = parse_line("2*3+4/8").unwrap();
    let first = eval(&e);
    let second = eval(&e);
    assert_eq!(first, second);
    assert_eq!(e.eval_steps(), e.eval_steps());
}

#[test]
fn nested_parentheses_evaluate() {
    assert_eq!(eval(&parse_line("((1))").unwrap()), 1.0);
}
