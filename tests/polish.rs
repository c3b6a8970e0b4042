use rust_polish_notation::{
    build_polish_notation, evaluate, run, Config, Error, EvalError, Operation, ParseError, Symbol,
};

fn literal(text: &Vec<u8>) -> f64 {
    std::str::from_utf8(text).unwrap().parse().unwrap()
}

fn arith(op: Operation, left: f64, right: f64) -> f64 {
    match op {
        Operation::Add => left + right,
        Operation::Substract => left - right,
        Operation::Multiply => left * right,
        Operation::Divide => left / right,
        Operation::Power => left.powf(right),
    }
}

fn near_zero(v: &f64) -> bool {
    v.abs() < 1e-10
}

fn num(text: &str) -> Symbol {
    Symbol::Number(text.as_bytes().to_vec())
}

fn eval(rpn: Vec<Symbol>) -> Result<f64, EvalError> {
    evaluate(rpn, literal, arith, near_zero)
}

fn calc(expression: &str) -> Result<f64, Error> {
    let config = Config { expression: expression.to_string() };
    run(config, literal, arith, near_zero)
}

fn wikipedia_rpn() -> Vec<Symbol> {
    vec![
        num("12"),
        num("2"),
        num("3"),
        num("4"),
        Symbol::Op(Operation::Multiply),
        num("10"),
        num("5"),
        Symbol::Op(Operation::Divide),
        Symbol::Op(Operation::Add),
        Symbol::Op(Operation::Multiply),
        Symbol::Op(Operation::Add),
    ]
}

#[test]
fn zero() {
    let stack = vec![num("5"), num("10"), Symbol::Op(Operation::Add)];
    assert_eq!(15f64, eval(stack).unwrap());
}

#[test]
fn zero_rpn() {
    let expression = "5+10";
    let stack = vec![num("5"), num("10"), Symbol::Op(Operation::Add)];
    let res = build_polish_notation(expression).unwrap();
    assert_eq!(stack, res);
    assert_eq!(literal(&b"5".to_vec()), 5f64);
    assert_eq!(literal(&b"10".to_vec()), 10f64);
}

#[test]
fn wikipidia_test() {
    assert_eq!(40f64, eval(wikipedia_rpn()).unwrap());
}

#[test]
fn wikipidia_test_build_rpn() {
    let expression = "12 + 2 * ( ( 3 * 4 ) + ( 10 / 5 ) )".to_string();
    let res = build_polish_notation(&expression).unwrap();
    assert_eq!(wikipedia_rpn(), res);
    assert_eq!(40f64, eval(res).unwrap());
}

#[test]
fn division_by_zero() {
    let rpn = vec![num("1"), num("0"), Symbol::Op(Operation::Divide)];
    assert_eq!(eval(rpn), Err(EvalError::DivisionByZero));
    assert_eq!(calc("1 / 0"), Err(Error::Eval(EvalError::DivisionByZero)));
}

#[test]
fn division_by_tiny_divisor() {
    assert_eq!(calc("1 / 0.00000000001"), Err(Error::Eval(EvalError::DivisionByZero)));
    assert_eq!(calc("1 / 0.0001"), Ok(10000.0));
}

#[test]
fn unbalanced_open_bracket() {
    assert_eq!(build_polish_notation("(1+2"), Err(ParseError::UnbalancedBrackets));
}

#[test]
fn unbalanced_close_bracket() {
    assert_eq!(build_polish_notation("1+2)"), Err(ParseError::UnbalancedBrackets));
}

#[test]
fn malformed_literal() {
    assert_eq!(build_polish_notation("1.2.3"), Err(ParseError::InvalidNumberLiteral));
    assert_eq!(build_polish_notation("12a"), Err(ParseError::InvalidNumberLiteral));
}

#[test]
fn invalid_symbol() {
    assert_eq!(build_polish_notation("1 + x"), Err(ParseError::InvalidSymbol));
    assert_eq!(calc("2 % 3"), Err(Error::Parse(ParseError::InvalidSymbol)));
}

#[test]
fn power_is_right_associative() {
    let res = build_polish_notation("2^3^2").unwrap();
    let expected = vec![
        num("2"),
        num("3"),
        num("2"),
        Symbol::Op(Operation::Power),
        Symbol::Op(Operation::Power),
    ];
    assert_eq!(res, expected);
    assert_eq!(eval(res).unwrap(), 512.0);
}

#[test]
fn power_binds_tighter() {
    assert_eq!(calc("2 * 3 ^ 2"), Ok(18.0));
    assert_eq!(calc("2 ^ 3 + 1"), Ok(9.0));
}

#[test]
fn decimal_literals() {
    let res = build_polish_notation("1.5*2.").unwrap();
    assert_eq!(res, vec![num("1.5"), num("2."), Symbol::Op(Operation::Multiply)]);
    assert_eq!(eval(res).unwrap(), 3.0);
}

#[test]
fn subtraction_and_division_take_the_top_as_right_operand() {
    assert_eq!(calc("10 - 4"), Ok(6.0));
    assert_eq!(calc("10 / 4"), Ok(2.5));
}

#[test]
fn empty_expression() {
    assert_eq!(build_polish_notation(""), Ok(vec![]));
    assert_eq!(eval(vec![]), Err(EvalError::EmptyOrInvalidResult));
    assert_eq!(calc("   "), Err(Error::Eval(EvalError::EmptyOrInvalidResult)));
}

#[test]
fn two_values_left() {
    assert_eq!(calc("1 2"), Err(Error::Eval(EvalError::EmptyOrInvalidResult)));
}

#[test]
fn leading_minus_starves_the_evaluator() {
    assert_eq!(calc("-5+3"), Err(Error::Eval(EvalError::InvalidRpnExpression)));
    assert_eq!(eval(vec![Symbol::Op(Operation::Add)]), Err(EvalError::InvalidRpnExpression));
}

#[test]
fn same_expression_same_result() {
    let e = "12 + 2 * ( ( 3 * 4 ) + ( 10 / 5 ) )";
    assert_eq!(calc(e), calc(e));
    assert_eq!(build_polish_notation(e), build_polish_notation(e));
    assert_eq!(calc(e), Ok(40.0));
}

#[test]
fn converted_sequences_hold_no_brackets() {
    let res = build_polish_notation("((1 + 2) * (3))").unwrap();
    assert!(res.iter().all(|s| matches!(s, Symbol::Number(_) | Symbol::Op(_))));
    assert_eq!(eval(res).unwrap(), 9.0);
}

#[test]
fn build_takes_the_second_argument() {
    let args = vec!["prog".to_string(), "1+1".to_string()];
    let config = Config::build(args).unwrap();
    assert_eq!(config.expression, "1+1");
    assert_eq!(
        Config::build(vec!["prog".to_string()]).err(),
        Some("Didn't get an expression field")
    );
    assert!(Config::build(vec![]).is_err());
}

#[test]
fn error_messages() {
    assert_eq!(Error::Eval(EvalError::DivisionByZero).message(), "division by zero");
    assert_eq!(
        Error::Parse(ParseError::UnbalancedBrackets).message(),
        "malformed expression: unbalanced brackets"
    );
}
