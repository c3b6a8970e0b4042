//! Conversion of an infix expression to postfix order.
use vstd::prelude::*;
use vstd::string::StringSliceAdditionalSpecFns;

use crate::{lemma_models_drop_last, lemma_models_push, models, Operation, ParseError, Symbol, SymbolModel};

verus! {

/// ASCII codes of the characters an expression is made of.
pub const DIGIT_ZERO: u8 = 48;
pub const DIGIT_NINE: u8 = 57;
pub const SPACE: u8 = 32;
pub const TAB: u8 = 9;
pub const LINE_FEED: u8 = 10;
pub const CARRIAGE_RETURN: u8 = 13;
pub const PLUS: u8 = 43;
pub const MINUS: u8 = 45;
pub const STAR: u8 = 42;
pub const SLASH: u8 = 47;
pub const CARET: u8 = 94;
pub const DOT: u8 = 46;
pub const OPEN: u8 = 40;
pub const CLOSE: u8 = 41;

pub open spec fn is_digit(c: u8) -> bool {
    DIGIT_ZERO <= c && c <= DIGIT_NINE
}

pub open spec fn is_space(c: u8) -> bool {
    c == SPACE || c == TAB || c == LINE_FEED || c == CARRIAGE_RETURN
}

/// The operation that a character stands for, if any.
pub open spec fn operation_of(c: u8) -> Option<Operation> {
    if c == PLUS {
        Some(Operation::Add)
    } else if c == MINUS {
        Some(Operation::Substract)
    } else if c == STAR {
        Some(Operation::Multiply)
    } else if c == SLASH {
        Some(Operation::Divide)
    } else if c == CARET {
        Some(Operation::Power)
    } else {
        None
    }
}

/// The characters at which a number literal ends.
pub open spec fn ends_literal(c: u8) -> bool {
    operation_of(c) is Some || is_space(c) || c == OPEN || c == CLOSE
}

/// Where the number literal that continues at `j` ends, `dot` telling
/// whether it has had its `.` already.
pub open spec fn literal_end(b: Seq<u8>, j: int, dot: bool) -> Result<int, ParseError>
    decreases b.len() - j,
{
    if j >= b.len() {
        Ok(j)
    } else if is_digit(b[j]) {
        literal_end(b, j + 1, dot)
    } else if b[j] == DOT {
        if dot {
            Err(ParseError::InvalidNumberLiteral)
        } else {
            literal_end(b, j + 1, true)
        }
    } else if ends_literal(b[j]) {
        Ok(j)
    } else {
        Err(ParseError::InvalidNumberLiteral)
    }
}

/// Whether `top`, on the operator stack, goes to the output before
/// `incoming` is pushed. Power and the multiplicative operations bind
/// tighter than anything but a Power that follows them; a Power
/// never moves another one, which makes it right-associative. Add and
/// Substract never yield, so `1-2+3` groups as `1-(2+3)`.
pub open spec fn yields_to(top: SymbolModel, incoming: Operation) -> bool {
    match top {
        SymbolModel::Op(o) => (o == Operation::Power || o == Operation::Multiply || o
            == Operation::Divide) && incoming != Operation::Power,
        _ => false,
    }
}

/// Output and stack once the operators that yield to `incoming` have been
/// moved from the top of the stack to the output.
pub open spec fn pop_yielding(out: Seq<SymbolModel>, stack: Seq<SymbolModel>, incoming: Operation) -> (
    Seq<SymbolModel>,
    Seq<SymbolModel>,
)
    decreases stack.len(),
{
    if stack.len() > 0 && yields_to(stack.last(), incoming) {
        pop_yielding(out.push(stack.last()), stack.drop_last(), incoming)
    } else {
        (out, stack)
    }
}

/// Output and stack after a `)`: the stack is moved to the output down to
/// its nearest open bracket, which is dropped.
pub open spec fn pop_to_open(out: Seq<SymbolModel>, stack: Seq<SymbolModel>) -> Result<
    (Seq<SymbolModel>, Seq<SymbolModel>),
    ParseError,
>
    decreases stack.len(),
{
    if stack.len() == 0 {
        Err(ParseError::UnbalancedBrackets)
    } else if stack.last() is OpenBracket {
        Ok((out, stack.drop_last()))
    } else {
        pop_to_open(out.push(stack.last()), stack.drop_last())
    }
}

/// The output once the whole stack has been moved to it, top first.
pub open spec fn drain(out: Seq<SymbolModel>, stack: Seq<SymbolModel>) -> Result<Seq<SymbolModel>, ParseError>
    decreases stack.len(),
{
    if stack.len() == 0 {
        Ok(out)
    } else if stack.last() is OpenBracket || stack.last() is CloseBracket {
        Err(ParseError::UnbalancedBrackets)
    } else {
        drain(out.push(stack.last()), stack.drop_last())
    }
}

/// The outcome of the scan from position `i` on, with the output and the
/// operator stack built so far.
pub open spec fn scan_from(b: Seq<u8>, i: int, out: Seq<SymbolModel>, stack: Seq<SymbolModel>) -> Result<
    Seq<SymbolModel>,
    ParseError,
>
    decreases b.len() - i,
    via scan_from_decreases
{
    if i < 0 || i >= b.len() {
        drain(out, stack)
    } else if operation_of(b[i]) is Some {
        let op = operation_of(b[i])->0;
        let moved = pop_yielding(out, stack, op);
        scan_from(b, i + 1, moved.0, moved.1.push(SymbolModel::Op(op)))
    } else if is_digit(b[i]) {
        match literal_end(b, i + 1, false) {
            Ok(e) => scan_from(b, e, out.push(SymbolModel::Number(b.subrange(i, e))), stack),
            Err(err) => Err(err),
        }
    } else if b[i] == OPEN {
        scan_from(b, i + 1, out, stack.push(SymbolModel::OpenBracket))
    } else if b[i] == CLOSE {
        match pop_to_open(out, stack) {
            Ok(moved) => scan_from(b, i + 1, moved.0, moved.1),
            Err(err) => Err(err),
        }
    } else if is_space(b[i]) {
        scan_from(b, i + 1, out, stack)
    } else {
        Err(ParseError::InvalidSymbol)
    }
}

#[via_fn]
proof fn scan_from_decreases(b: Seq<u8>, i: int, out: Seq<SymbolModel>, stack: Seq<SymbolModel>) {
    if 0 <= i < b.len() && operation_of(b[i]) is None && is_digit(b[i]) {
        lemma_literal_end_bounds(b, i + 1, false);
    }
}

/// A literal ends no earlier than where it continues, and within the text.
pub proof fn lemma_literal_end_bounds(b: Seq<u8>, j: int, dot: bool)
    requires
        0 <= j <= b.len(),
    ensures
        literal_end(b, j, dot) matches Ok(e) ==> j <= e <= b.len(),
    decreases b.len() - j,
{
    if j < b.len() {
        if is_digit(b[j]) {
            lemma_literal_end_bounds(b, j + 1, dot);
        } else if b[j] == DOT && !dot {
            lemma_literal_end_bounds(b, j + 1, true);
        }
    }
}

/// A number literal: a digit, then digits with at most one `.` among them.
pub open spec fn is_literal(t: Seq<u8>) -> bool {
    &&& t.len() > 0 && is_digit(t[0])
    &&& forall|k: int| 0 <= k < t.len() ==> is_digit(#[trigger] t[k]) || t[k] == DOT
    &&& forall|k1: int, k2: int|
        0 <= k1 < k2 < t.len() && #[trigger] t[k1] == DOT ==> #[trigger] t[k2] != DOT
}

/// What a literal's scan passes over is digits and dots, with one dot at
/// most, and none once a dot was seen before it.
pub proof fn lemma_literal_end_text(b: Seq<u8>, j: int, dot: bool)
    requires
        0 <= j <= b.len(),
    ensures
        literal_end(b, j, dot) matches Ok(e) ==> {
            &&& forall|k: int| j <= k < e ==> is_digit(#[trigger] b[k]) || b[k] == DOT
            &&& forall|k1: int, k2: int|
                j <= k1 < k2 < e && #[trigger] b[k1] == DOT ==> #[trigger] b[k2] != DOT
            &&& dot ==> forall|k: int| j <= k < e ==> #[trigger] b[k] != DOT
        },
    decreases b.len() - j,
{
    if j < b.len() {
        if is_digit(b[j]) {
            lemma_literal_end_text(b, j + 1, dot);
        } else if b[j] == DOT && !dot {
            lemma_literal_end_text(b, j + 1, true);
        }
    }
}

/// The postfix sequence of an expression given by its bytes, or why there
/// is none.
pub open spec fn postfix_of(b: Seq<u8>) -> Result<Seq<SymbolModel>, ParseError> {
    scan_from(b, 0, seq![], seq![])
}

fn operation_for(c: u8) -> (r: Option<Operation>)
    ensures
        r == operation_of(c),
{
    if c == PLUS {
        Some(Operation::Add)
    } else if c == MINUS {
        Some(Operation::Substract)
    } else if c == STAR {
        Some(Operation::Multiply)
    } else if c == SLASH {
        Some(Operation::Divide)
    } else if c == CARET {
        Some(Operation::Power)
    } else {
        None
    }
}

fn is_space_byte(c: u8) -> (r: bool)
    ensures
        r == is_space(c),
{
    c == SPACE || c == TAB || c == LINE_FEED || c == CARRIAGE_RETURN
}

/// Finds the end of the number literal whose first digit stands just
/// before `start`.
fn scan_literal(b: &[u8], start: usize) -> (r: Result<usize, ParseError>)
    requires
        0 < start <= b@.len(),
    ensures
        r matches Ok(e) ==> literal_end(b@, start as int, false) == Ok::<int, ParseError>(e as int),
        r matches Err(x) ==> literal_end(b@, start as int, false) == Err::<int, ParseError>(x),
{
    let mut j: usize = start;
    let mut dot = false;
    while j < b.len()
        invariant
            start <= j <= b@.len(),
            literal_end(b@, j as int, dot) == literal_end(b@, start as int, false),
        decreases b@.len() - j,
    {
        let c = b[j];
        if DIGIT_ZERO <= c && c <= DIGIT_NINE {
            j = j + 1;
        } else if c == DOT {
            if dot {
                return Err(ParseError::InvalidNumberLiteral);
            }
            dot = true;
            j = j + 1;
        } else if operation_for(c).is_some() || is_space_byte(c) || c == OPEN || c == CLOSE {
            return Ok(j);
        } else {
            return Err(ParseError::InvalidNumberLiteral);
        }
    }
    Ok(j)
}

/// A copy of the bytes from `start` up to `end`.
fn literal_text(b: &[u8], start: usize, end: usize) -> (r: Vec<u8>)
    requires
        start <= end <= b@.len(),
    ensures
        r@ == b@.subrange(start as int, end as int),
{
    let mut text: Vec<u8> = Vec::new();
    let mut k: usize = start;
    while k < end
        invariant
            start <= k <= end <= b@.len(),
            text@ == b@.subrange(start as int, k as int),
        decreases end - k,
    {
        text.push(b[k]);
        k = k + 1;
        assert(text@ =~= b@.subrange(start as int, k as int));
    }
    text
}

/// Moves the operators that yield to `incoming` from the stack to the output.
fn move_yielding(out: &mut Vec<Symbol>, stack: &mut Vec<Symbol>, incoming: Operation)
    ensures
        (models(final(out)@), models(final(stack)@)) == pop_yielding(
            models(old(out)@),
            models(old(stack)@),
            incoming,
        ),
{
    let ghost goal = pop_yielding(models(out@), models(stack@), incoming);
    while stack.len() > 0
        invariant
            pop_yielding(models(out@), models(stack@), incoming) == goal,
            goal == pop_yielding(models(old(out)@), models(old(stack)@), incoming),
        decreases stack@.len(),
    {
        let binds_tighter = match &stack[stack.len() - 1] {
            Symbol::Op(Operation::Power) | Symbol::Op(Operation::Multiply) | Symbol::Op(
                Operation::Divide,
            ) => true,
            _ => false,
        };
        let incoming_is_power = match incoming {
            Operation::Power => true,
            _ => false,
        };
        proof {
            lemma_models_drop_last(stack@);
        }
        if !binds_tighter || incoming_is_power {
            return;
        }
        match stack.pop() {
            Some(top) => {
                proof {
                    lemma_models_push(out@, top);
                }
                out.push(top);
            },
            None => {},
        }
    }
}

/// Moves the stack to the output down to its nearest open bracket, which
/// is dropped.
fn move_to_open(out: &mut Vec<Symbol>, stack: &mut Vec<Symbol>) -> (r: Result<(), ParseError>)
    ensures
        match pop_to_open(models(old(out)@), models(old(stack)@)) {
            Ok(moved) => r is Ok && (models(final(out)@), models(final(stack)@)) == moved,
            Err(e) => r == Err::<(), ParseError>(e),
        },
{
    let ghost goal = pop_to_open(models(out@), models(stack@));
    loop
        invariant
            pop_to_open(models(out@), models(stack@)) == goal,
            goal == pop_to_open(models(old(out)@), models(old(stack)@)),
        decreases stack@.len(),
    {
        if stack.len() > 0 {
            proof {
                lemma_models_drop_last(stack@);
            }
        }
        match stack.pop() {
            None => {
                return Err(ParseError::UnbalancedBrackets);
            },
            Some(top) => {
                if let Symbol::OpenBracket = top {
                    return Ok(());
                }
                proof {
                    lemma_models_push(out@, top);
                }
                out.push(top);
            },
        }
    }
}

/// Moves the whole stack to the output, top first.
fn move_all(out: &mut Vec<Symbol>, stack: &mut Vec<Symbol>) -> (r: Result<(), ParseError>)
    ensures
        match drain(models(old(out)@), models(old(stack)@)) {
            Ok(o) => r is Ok && models(final(out)@) == o,
            Err(e) => r == Err::<(), ParseError>(e),
        },
{
    let ghost goal = drain(models(out@), models(stack@));
    while stack.len() > 0
        invariant
            drain(models(out@), models(stack@)) == goal,
            goal == drain(models(old(out)@), models(old(stack)@)),
        decreases stack@.len(),
    {
        proof {
            lemma_models_drop_last(stack@);
        }
        match stack.pop() {
            Some(top) => {
                match top {
                    Symbol::OpenBracket | Symbol::CloseBracket => {
                        return Err(ParseError::UnbalancedBrackets);
                    },
                    _ => {},
                }
                proof {
                    lemma_models_push(out@, top);
                }
                out.push(top);
            },
            None => {},
        }
    }
    Ok(())
}

/// Converts an infix expression to postfix order.
///
/// Numbers go to the output as they come; operators and open brackets wait
/// on a stack. Whitespace separates symbols and is otherwise ignored.
pub fn build_polish_notation(expression: &str) -> (r: Result<Vec<Symbol>, ParseError>)
    ensures
        match postfix_of(expression.spec_bytes()) {
            Ok(s) => r matches Ok(v) && models(v@) == s,
            Err(e) => r == Err::<Vec<Symbol>, ParseError>(e),
        },
{
    let b = expression.as_bytes();
    let mut out: Vec<Symbol> = Vec::new();
    let mut stack: Vec<Symbol> = Vec::new();
    let mut i: usize = 0;
    assert(models(out@) =~= seq![]);
    assert(models(stack@) =~= seq![]);
    while i < b.len()
        invariant
            i <= b@.len(),
            b@ == expression.spec_bytes(),
            scan_from(b@, i as int, models(out@), models(stack@)) == postfix_of(b@),
        decreases b@.len() - i,
    {
        let c = b[i];
        match operation_for(c) {
            Some(op) => {
                move_yielding(&mut out, &mut stack, op);
                proof {
                    lemma_models_push(stack@, Symbol::Op(op));
                }
                stack.push(Symbol::Op(op));
                i = i + 1;
            },
            None => {
                if DIGIT_ZERO <= c && c <= DIGIT_NINE {
                    proof {
                        lemma_literal_end_bounds(b@, i + 1, false);
                    }
                    match scan_literal(b, i + 1) {
                        Ok(e) => {
                            let text = literal_text(b, i, e);
                            proof {
                                lemma_models_push(out@, Symbol::Number(text));
                            }
                            out.push(Symbol::Number(text));
                            i = e;
                        },
                        Err(x) => {
                            return Err(x);
                        },
                    }
                } else if c == OPEN {
                    proof {
                        lemma_models_push(stack@, Symbol::OpenBracket);
                    }
                    stack.push(Symbol::OpenBracket);
                    i = i + 1;
                } else if c == CLOSE {
                    match move_to_open(&mut out, &mut stack) {
                        Ok(()) => {
                            i = i + 1;
                        },
                        Err(x) => {
                            return Err(x);
                        },
                    }
                } else if is_space_byte(c) {
                    i = i + 1;
                } else {
                    return Err(ParseError::InvalidSymbol);
                }
            },
        }
    }
    match move_all(&mut out, &mut stack) {
        Ok(()) => Ok(out),
        Err(x) => Err(x),
    }
}

} // verus!
