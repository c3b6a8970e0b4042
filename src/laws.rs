//! Properties that relate the converter, the evaluator and the pipeline.
use vstd::prelude::*;
use vstd::utf8::encode_utf8;

use crate::infix::{
    drain, is_digit, is_literal, is_space, lemma_literal_end_bounds, lemma_literal_end_text,
    literal_end, operation_of, pop_to_open, pop_yielding, postfix_of, scan_from, yields_to, CLOSE, DOT, OPEN,
};
use crate::rpn::{arithmetic_determined, lemma_leaves_stack_unique};
use crate::{run_outcome, Config, Error, Operation, SymbolModel};

verus! {

/// A number with a well-formed literal, or an operation.
pub open spec fn is_postfix_symbol(x: SymbolModel) -> bool {
    match x {
        SymbolModel::Number(t) => is_literal(t),
        SymbolModel::Op(_) => true,
        _ => false,
    }
}

/// What a postfix sequence is made of: numbers and operations, no brackets.
pub open spec fn no_brackets(s: Seq<SymbolModel>) -> bool {
    forall|k: int| 0 <= k < s.len() ==> is_postfix_symbol(#[trigger] s[k])
}

/// Operations and open brackets: what the operator stack holds.
pub open spec fn operators_only(s: Seq<SymbolModel>) -> bool {
    forall|k: int| 0 <= k < s.len() ==> (#[trigger] s[k] is Op || s[k] is OpenBracket)
}

proof fn lemma_pop_yielding_keeps(out: Seq<SymbolModel>, stack: Seq<SymbolModel>, incoming: Operation)
    requires
        no_brackets(out),
        operators_only(stack),
    ensures
        no_brackets(pop_yielding(out, stack, incoming).0),
        operators_only(pop_yielding(out, stack, incoming).1),
    decreases stack.len(),
{
    if stack.len() > 0 && yields_to(stack.last(), incoming) {
        assert(no_brackets(out.push(stack.last())));
        lemma_pop_yielding_keeps(out.push(stack.last()), stack.drop_last(), incoming);
    }
}

proof fn lemma_pop_to_open_keeps(out: Seq<SymbolModel>, stack: Seq<SymbolModel>)
    requires
        no_brackets(out),
        operators_only(stack),
    ensures
        pop_to_open(out, stack) matches Ok(moved) ==> no_brackets(moved.0) && operators_only(
            moved.1,
        ),
    decreases stack.len(),
{
    if stack.len() > 0 && !(stack.last() is OpenBracket) {
        assert(no_brackets(out.push(stack.last())));
        lemma_pop_to_open_keeps(out.push(stack.last()), stack.drop_last());
    }
}

proof fn lemma_drain_keeps(out: Seq<SymbolModel>, stack: Seq<SymbolModel>)
    requires
        no_brackets(out),
        operators_only(stack),
    ensures
        drain(out, stack) matches Ok(o) ==> no_brackets(o),
    decreases stack.len(),
{
    if stack.len() > 0 && !(stack.last() is OpenBracket || stack.last() is CloseBracket) {
        assert(no_brackets(out.push(stack.last())));
        lemma_drain_keeps(out.push(stack.last()), stack.drop_last());
    }
}

proof fn lemma_scan_from_keeps(b: Seq<u8>, i: int, out: Seq<SymbolModel>, stack: Seq<SymbolModel>)
    requires
        0 <= i <= b.len(),
        no_brackets(out),
        operators_only(stack),
    ensures
        scan_from(b, i, out, stack) matches Ok(o) ==> no_brackets(o),
    decreases b.len() - i,
{
    if i >= b.len() {
        lemma_drain_keeps(out, stack);
    } else if operation_of(b[i]) is Some {
        let op = operation_of(b[i])->0;
        let moved = pop_yielding(out, stack, op);
        lemma_pop_yielding_keeps(out, stack, op);
        assert(operators_only(moved.1.push(SymbolModel::Op(op))));
        lemma_scan_from_keeps(b, i + 1, moved.0, moved.1.push(SymbolModel::Op(op)));
    } else if is_digit(b[i]) {
        lemma_literal_end_bounds(b, i + 1, false);
        lemma_literal_end_text(b, i + 1, false);
        if let Ok(e) = literal_end(b, i + 1, false) {
            let t = b.subrange(i, e);
            assert(is_literal(t)) by {
                assert forall|k: int| 0 <= k < t.len() implies is_digit(#[trigger] t[k]) || t[k]
                    == DOT by {
                    if k > 0 {
                        assert(t[k] == b[i + k]);
                    }
                }
                assert forall|k1: int, k2: int|
                    0 <= k1 < k2 < t.len() && #[trigger] t[k1] == DOT implies #[trigger] t[k2]
                    != DOT by {
                    assert(t[k1] == b[i + k1] && t[k2] == b[i + k2]);
                }
            }
            let number = SymbolModel::Number(t);
            assert(no_brackets(out.push(number)));
            lemma_scan_from_keeps(b, e, out.push(number), stack);
        }
    } else if b[i] == OPEN {
        assert(operators_only(stack.push(SymbolModel::OpenBracket)));
        lemma_scan_from_keeps(b, i + 1, out, stack.push(SymbolModel::OpenBracket));
    } else if b[i] == CLOSE {
        lemma_pop_to_open_keeps(out, stack);
        if let Ok(moved) = pop_to_open(out, stack) {
            lemma_scan_from_keeps(b, i + 1, moved.0, moved.1);
        }
    } else if is_space(b[i]) {
        lemma_scan_from_keeps(b, i + 1, out, stack);
    }
}

/// A postfix sequence that the converter produces holds operations and
/// numbers with well-formed literals only: every bracket has been matched
/// and dropped.
pub proof fn lemma_postfix_has_no_brackets(b: Seq<u8>)
    ensures
        postfix_of(b) matches Ok(s) ==> no_brackets(s),
{
    lemma_scan_from_keeps(b, 0, seq![], seq![]);
}

/// Running the same expression twice gives the same result, value or error,
/// where the arithmetic handed in is itself repeatable: no state survives
/// from one run to the next.
pub proof fn lemma_run_repeatable<V, N, A, Z>(
    c1: Config,
    c2: Config,
    number: N,
    apply: A,
    is_zero: Z,
    r1: Result<V, Error>,
    r2: Result<V, Error>,
) where N: Fn(&Vec<u8>) -> V, A: Fn(Operation, V, V) -> V, Z: Fn(&V) -> bool
    requires
        c1.expression@ == c2.expression@,
        arithmetic_determined(number, apply, is_zero),
        run_outcome(encode_utf8(c1.expression@), number, apply, is_zero, r1),
        run_outcome(encode_utf8(c2.expression@), number, apply, is_zero, r2),
    ensures
        r1 == r2,
{
    if let Ok(rpn) = postfix_of(encode_utf8(c1.expression@)) {
        if let (Ok(v1), Ok(v2)) = (r1, r2) {
            lemma_leaves_stack_unique(rpn, number, apply, seq![v1], seq![v2]);
            assert(seq![v1][0] == seq![v2][0]);
        }
    }
}

} // verus!
