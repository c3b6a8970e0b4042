//! Infix arithmetic expressions: conversion to Reverse Polish Notation
//! with a shunting-yard scan, and evaluation of the postfix sequence.
use vstd::prelude::*;
use vstd::utf8::encode_utf8;

use crate::infix::postfix_of;
use crate::rpn::evaluation_outcome;

pub mod infix;
pub mod rpn;
pub mod laws;

pub use infix::build_polish_notation;
pub use rpn::evaluate;

verus! {

/// The binary operations an expression may use.
#[derive(Clone, Copy, Debug, PartialEq, Eq, Structural)]
pub enum Operation {
    Add,
    Substract,
    Divide,
    Multiply,
    Power,
}

/// One lexical unit of an expression, or one entry of a postfix sequence.
///
/// A number is kept as the text of its literal: one or more ASCII digits,
/// at most one `.` among them, starting with a digit.
#[derive(Clone, Debug, PartialEq)]
pub enum Symbol {
    Number(Vec<u8>),
    Op(Operation),
    OpenBracket,
    CloseBracket,
}

/// The mathematical value of a `Symbol`.
pub ghost enum SymbolModel {
    Number(Seq<u8>),
    Op(Operation),
    OpenBracket,
    CloseBracket,
}

impl View for Symbol {
    type V = SymbolModel;

    open spec fn view(&self) -> SymbolModel {
        match self {
            Symbol::Number(text) => SymbolModel::Number(text@),
            Symbol::Op(op) => SymbolModel::Op(*op),
            Symbol::OpenBracket => SymbolModel::OpenBracket,
            Symbol::CloseBracket => SymbolModel::CloseBracket,
        }
    }
}

/// The models of a sequence of symbols, in order.
pub open spec fn models(s: Seq<Symbol>) -> Seq<SymbolModel> {
    s.map_values(|x: Symbol| x@)
}

/// The models of a sequence grow by the model of what is pushed.
pub proof fn lemma_models_push(s: Seq<Symbol>, x: Symbol)
    ensures
        models(s.push(x)) == models(s).push(x@),
{
    assert(models(s.push(x)) =~= models(s).push(x@));
}

/// Taking the last symbol off takes its model off.
pub proof fn lemma_models_drop_last(s: Seq<Symbol>)
    requires
        s.len() > 0,
    ensures
        models(s.drop_last()) == models(s).drop_last(),
        models(s).last() == s.last()@,
{
    assert(models(s.drop_last()) =~= models(s).drop_last());
}

/// Why an expression could not be converted to postfix order.
#[derive(Clone, Copy, Debug, PartialEq, Eq, Structural)]
pub enum ParseError {
    /// A digit run holds a second `.` or a character that cannot follow it.
    InvalidNumberLiteral,
    /// A character that is no digit, operator, bracket or whitespace.
    InvalidSymbol,
    /// A `)` without its `(`, or a `(` left open at the end.
    UnbalancedBrackets,
}

/// Why a postfix sequence could not be evaluated.
#[derive(Clone, Copy, Debug, PartialEq, Eq, Structural)]
pub enum EvalError {
    /// An operation found fewer than two values to work on.
    InvalidRpnExpression,
    /// A divisor was zero, or too close to it.
    DivisionByZero,
    /// The scan ended with no value, or with more than one.
    EmptyOrInvalidResult,
}

/// Why an expression has no value.
#[derive(Clone, Copy, Debug, PartialEq, Eq, Structural)]
pub enum Error {
    Parse(ParseError),
    Eval(EvalError),
}

impl Error {
    /// A sentence that says what went wrong.
    pub fn message(&self) -> (r: &'static str)
        ensures
            r@ == error_message(*self),
    {
        match self {
            Error::Parse(ParseError::InvalidNumberLiteral) => {
                proof {
                    reveal_strlit("invalid number literal");
                }
                "invalid number literal"
            },
            Error::Parse(ParseError::InvalidSymbol) => {
                proof {
                    reveal_strlit("invalid symbol");
                }
                "invalid symbol"
            },
            Error::Parse(ParseError::UnbalancedBrackets) => {
                proof {
                    reveal_strlit("malformed expression: unbalanced brackets");
                }
                "malformed expression: unbalanced brackets"
            },
            Error::Eval(EvalError::InvalidRpnExpression) => {
                proof {
                    reveal_strlit("invalid RPN expression");
                }
                "invalid RPN expression"
            },
            Error::Eval(EvalError::DivisionByZero) => {
                proof {
                    reveal_strlit("division by zero");
                }
                "division by zero"
            },
            Error::Eval(EvalError::EmptyOrInvalidResult) => {
                proof {
                    reveal_strlit("empty or invalid expression");
                }
                "empty or invalid expression"
            },
        }
    }
}

/// The message that each error is reported with.
pub open spec fn error_message(e: Error) -> Seq<char> {
    match e {
        Error::Parse(ParseError::InvalidNumberLiteral) => "invalid number literal"@,
        Error::Parse(ParseError::InvalidSymbol) => "invalid symbol"@,
        Error::Parse(ParseError::UnbalancedBrackets) => "malformed expression: unbalanced brackets"@,
        Error::Eval(EvalError::InvalidRpnExpression) => "invalid RPN expression"@,
        Error::Eval(EvalError::DivisionByZero) => "division by zero"@,
        Error::Eval(EvalError::EmptyOrInvalidResult) => "empty or invalid expression"@,
    }
}

/// What `run` may return for an expression given by its bytes: the
/// conversion's error, or what evaluating its postfix sequence may return.
pub open spec fn run_outcome<V, N, A, Z>(
    b: Seq<u8>,
    number: N,
    apply: A,
    is_zero: Z,
    r: Result<V, Error>,
) -> bool where N: Fn(&Vec<u8>) -> V, A: Fn(Operation, V, V) -> V, Z: Fn(&V) -> bool {
    match postfix_of(b) {
        Err(e) => r == Err::<V, Error>(Error::Parse(e)),
        Ok(rpn) => match r {
            Ok(v) => evaluation_outcome(rpn, number, apply, is_zero, Ok::<V, EvalError>(v)),
            Err(Error::Eval(e)) => evaluation_outcome(rpn, number, apply, is_zero, Err::<V, EvalError>(e)),
            Err(Error::Parse(_)) => false,
        },
    }
}

/// The command line of the calculator, reduced to its one argument.
pub struct Config {
    pub expression: String,
}

impl Config {
    /// Takes the expression from the arguments of a program: the first one
    /// is the program's name, the second the expression.
    pub fn build(args: Vec<String>) -> (r: Result<Config, &'static str>)
        ensures
            r is Err <==> args.len() < 2,
            r matches Ok(c) ==> c.expression@ == args[1]@,
            r matches Err(m) ==> m@ == "Didn't get an expression field"@,
    {
        if args.len() < 2 {
            proof {
                reveal_strlit("Didn't get an expression field");
            }
            return Err("Didn't get an expression field");
        }
        let expression = args[1].clone();
        Ok(Config { expression })
    }
}

/// Converts the expression of `config` to postfix order and evaluates it,
/// with the arithmetic that `number`, `apply` and `is_zero` give (see
/// `evaluate`).
pub fn run<V, N, A, Z>(config: Config, number: N, apply: A, is_zero: Z) -> (r: Result<V, Error>) where
    N: Fn(&Vec<u8>) -> V,
    A: Fn(Operation, V, V) -> V,
    Z: Fn(&V) -> bool,

    requires
        forall|t: &Vec<u8>| number.requires((t,)),
        forall|o: Operation, left: V, right: V| apply.requires((o, left, right)),
        forall|v: &V| is_zero.requires((v,)),
    ensures
        run_outcome(encode_utf8(config.expression@), number, apply, is_zero, r),
{
    let tokens = match build_polish_notation(config.expression.as_str()) {
        Ok(tokens) => tokens,
        Err(e) => {
            return Err(Error::Parse(e));
        },
    };
    match evaluate(tokens, number, apply, is_zero) {
        Ok(v) => Ok(v),
        Err(e) => Err(Error::Eval(e)),
    }
}

} // verus!
