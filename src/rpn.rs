//! Evaluation of a postfix sequence with a stack of values.
use vstd::prelude::*;

use crate::{models, EvalError, Operation, Symbol, SymbolModel};

verus! {

/// The number of values on the stack once `rpn` has been scanned, or `None`
/// where an operation finds fewer than two. Brackets leave the stack as it is.
pub open spec fn depth_after(rpn: Seq<SymbolModel>) -> Option<nat>
    decreases rpn.len(),
{
    if rpn.len() == 0 {
        Some(0nat)
    } else {
        match depth_after(rpn.drop_last()) {
            None => None,
            Some(d) => match rpn.last() {
                SymbolModel::Number(_) => Some(d + 1),
                SymbolModel::Op(_) => if d >= 2 {
                    Some((d - 1) as nat)
                } else {
                    None
                },
                _ => Some(d),
            },
        }
    }
}

/// What is wrong with the shape of `rpn`, whatever its numbers are.
pub open spec fn shape_error(rpn: Seq<SymbolModel>) -> Option<EvalError> {
    match depth_after(rpn) {
        None => Some(EvalError::InvalidRpnExpression),
        Some(d) => if d == 1 {
            None
        } else {
            Some(EvalError::EmptyOrInvalidResult)
        },
    }
}

/// Whether the scan of `rpn` reaches a division: one that comes before any
/// operation short of values.
pub open spec fn reaches_division(rpn: Seq<SymbolModel>) -> bool {
    exists|k: int|
        0 <= k < rpn.len() && rpn[k] == SymbolModel::Op(Operation::Divide) && #[trigger] depth_after(
            rpn.take(k + 1),
        ) is Some
}

/// Whether `stack` is a value stack that the scan of `rpn` can leave, where
/// `number` gives the values of literals and `apply` those of operations.
pub open spec fn leaves_stack<V, N, A>(rpn: Seq<SymbolModel>, number: N, apply: A, stack: Seq<V>) -> bool where
    N: Fn(&Vec<u8>) -> V,
    A: Fn(Operation, V, V) -> V,

    decreases rpn.len(),
{
    if rpn.len() == 0 {
        stack.len() == 0
    } else {
        match rpn.last() {
            SymbolModel::Number(t) => stack.len() >= 1 && leaves_stack(
                rpn.drop_last(),
                number,
                apply,
                stack.drop_last(),
            ) && exists|text: Vec<u8>| text@ == t && #[trigger] number.ensures((&text,), stack.last()),
            SymbolModel::Op(o) => stack.len() >= 1 && exists|left: V, right: V|
                #[trigger] apply.ensures((o, left, right), stack.last()) && leaves_stack(
                    rpn.drop_last(),
                    number,
                    apply,
                    stack.drop_last().push(left).push(right),
                ),
            _ => leaves_stack(rpn.drop_last(), number, apply, stack),
        }
    }
}

/// Whether the scan of `rpn` can reach a division whose divisor `is_zero`
/// accepts.
pub open spec fn reaches_zero_divisor<V, N, A, Z>(rpn: Seq<SymbolModel>, number: N, apply: A, is_zero: Z) -> bool where
    N: Fn(&Vec<u8>) -> V,
    A: Fn(Operation, V, V) -> V,
    Z: Fn(&V) -> bool,
 {
    exists|k: int, stack: Seq<V>|
        0 <= k < rpn.len() && rpn[k] == SymbolModel::Op(Operation::Divide) && stack.len() >= 2
            && #[trigger] leaves_stack(rpn.take(k), number, apply, stack) && is_zero.ensures(
            (&stack.last(),),
            true,
        )
}

/// Whether `number` gives one value to each literal text.
pub open spec fn literal_values_determined<V, N>(number: N) -> bool where N: Fn(&Vec<u8>) -> V {
    forall|t1: &Vec<u8>, t2: &Vec<u8>, v1: V, v2: V|
        t1@ == t2@ && #[trigger] number.ensures((t1,), v1) && #[trigger] number.ensures((t2,), v2)
            ==> v1 == v2
}

/// Whether `apply` gives one value to each operation on two values.
pub open spec fn operation_values_determined<V, A>(apply: A) -> bool where
    A: Fn(Operation, V, V) -> V,
 {
    forall|o: Operation, left: V, right: V, v1: V, v2: V|
        #[trigger] apply.ensures((o, left, right), v1) && #[trigger] apply.ensures(
            (o, left, right),
            v2,
        ) ==> v1 == v2
}

/// With repeatable arithmetic, a scan can leave one stack only.
pub proof fn lemma_leaves_stack_unique<V, N, A>(
    rpn: Seq<SymbolModel>,
    number: N,
    apply: A,
    s1: Seq<V>,
    s2: Seq<V>,
) where N: Fn(&Vec<u8>) -> V, A: Fn(Operation, V, V) -> V
    requires
        literal_values_determined(number),
        operation_values_determined(apply),
        leaves_stack(rpn, number, apply, s1),
        leaves_stack(rpn, number, apply, s2),
    ensures
        s1 == s2,
    decreases rpn.len(),
{
    if rpn.len() == 0 {
        assert(s1 =~= s2);
    } else {
        match rpn.last() {
            SymbolModel::Number(t) => {
                lemma_leaves_stack_unique(rpn.drop_last(), number, apply, s1.drop_last(), s2.drop_last());
                let t1 = choose|text: Vec<u8>| text@ == t && #[trigger] number.ensures((&text,), s1.last());
                let t2 = choose|text: Vec<u8>| text@ == t && #[trigger] number.ensures((&text,), s2.last());
                assert(number.ensures((&t1,), s1.last()) && number.ensures((&t2,), s2.last()));
                assert(s1 =~= s1.drop_last().push(s1.last()));
                assert(s2 =~= s2.drop_last().push(s2.last()));
            },
            SymbolModel::Op(o) => {
                let (l1, r1) = choose|left: V, right: V|
                    #[trigger] apply.ensures((o, left, right), s1.last()) && leaves_stack(
                        rpn.drop_last(),
                        number,
                        apply,
                        s1.drop_last().push(left).push(right),
                    );
                let (l2, r2) = choose|left: V, right: V|
                    #[trigger] apply.ensures((o, left, right), s2.last()) && leaves_stack(
                        rpn.drop_last(),
                        number,
                        apply,
                        s2.drop_last().push(left).push(right),
                    );
                let below1 = s1.drop_last().push(l1).push(r1);
                let below2 = s2.drop_last().push(l2).push(r2);
                lemma_leaves_stack_unique(rpn.drop_last(), number, apply, below1, below2);
                assert(below1[below1.len() - 2] == l1 && below2[below2.len() - 2] == l2);
                assert(below1.last() == r1 && below2.last() == r2);
                assert(s1.drop_last() =~= below1.take(below1.len() - 2));
                assert(s2.drop_last() =~= below2.take(below2.len() - 2));
                assert(apply.ensures((o, l1, r1), s1.last()) && apply.ensures((o, l1, r1), s2.last()));
                assert(s1 =~= s1.drop_last().push(s1.last()));
                assert(s2 =~= s2.drop_last().push(s2.last()));
            },
            _ => {
                lemma_leaves_stack_unique(rpn.drop_last(), number, apply, s1, s2);
            },
        }
    }
}

/// Whether `is_zero` gives one answer to each value.
pub open spec fn zero_test_determined<V, Z>(is_zero: Z) -> bool where Z: Fn(&V) -> bool {
    forall|v: &V, a: bool, b: bool|
        #[trigger] is_zero.ensures((v,), a) && #[trigger] is_zero.ensures((v,), b) ==> a == b
}

/// Whether the arithmetic handed to the evaluator is repeatable.
pub open spec fn arithmetic_determined<V, N, A, Z>(number: N, apply: A, is_zero: Z) -> bool where
    N: Fn(&Vec<u8>) -> V,
    A: Fn(Operation, V, V) -> V,
    Z: Fn(&V) -> bool,
 {
    literal_values_determined(number) && operation_values_determined(apply) && zero_test_determined(
        is_zero,
    )
}

/// A stack that a scan leaves has as many values as the scan counts.
pub proof fn lemma_leaves_stack_depth<V, N, A>(rpn: Seq<SymbolModel>, number: N, apply: A, s: Seq<V>) where
    N: Fn(&Vec<u8>) -> V,
    A: Fn(Operation, V, V) -> V,

    requires
        leaves_stack(rpn, number, apply, s),
    ensures
        depth_after(rpn) == Some(s.len()),
    decreases rpn.len(),
{
    if rpn.len() > 0 {
        match rpn.last() {
            SymbolModel::Number(_) => {
                lemma_leaves_stack_depth(rpn.drop_last(), number, apply, s.drop_last());
            },
            SymbolModel::Op(o) => {
                let (l, r) = choose|left: V, right: V|
                    #[trigger] apply.ensures((o, left, right), s.last()) && leaves_stack(
                        rpn.drop_last(),
                        number,
                        apply,
                        s.drop_last().push(left).push(right),
                    );
                lemma_leaves_stack_depth(rpn.drop_last(), number, apply, s.drop_last().push(l).push(r));
            },
            _ => {
                lemma_leaves_stack_depth(rpn.drop_last(), number, apply, s);
            },
        }
    }
}

/// Where every division before `i` had a divisor that `is_zero` turned down,
/// and the scan stops at `i` short of values or has reached the end, `is_zero`
/// turned down every divisor that the scan can reach.
proof fn lemma_zero_test_declines<V, N, A, Z>(rpn: Seq<SymbolModel>, i: int, number: N, apply: A, is_zero: Z) where
    N: Fn(&Vec<u8>) -> V,
    A: Fn(Operation, V, V) -> V,
    Z: Fn(&V) -> bool,

    requires
        0 <= i <= rpn.len(),
        i == rpn.len() || depth_after(rpn.take(i + 1)) is None,
        forall|k: int, s: Seq<V>|
            0 <= k < i && rpn[k] == SymbolModel::Op(Operation::Divide) && s.len() >= 2
                && #[trigger] leaves_stack(rpn.take(k), number, apply, s) ==> is_zero.ensures(
                (&s.last(),),
                false,
            ),
    ensures
        zero_test_declines(rpn, number, apply, is_zero),
{
    assert forall|k: int, s: Seq<V>|
        0 <= k < rpn.len() && rpn[k] == SymbolModel::Op(Operation::Divide) && s.len() >= 2
            && #[trigger] leaves_stack(rpn.take(k), number, apply, s) implies is_zero.ensures(
        (&s.last(),),
        false,
    ) by {
        if k >= i {
            lemma_leaves_stack_depth(rpn.take(k), number, apply, s);
            if k == i {
                assert(rpn.take(i + 1).drop_last() =~= rpn.take(i));
            } else {
                assert(rpn.take(k).take(i + 1) =~= rpn.take(i + 1));
                lemma_depth_none_persists(rpn.take(k), i + 1);
            }
        }
    }
}

/// Whether `is_zero` turned down the divisor of every division that the scan
/// of `rpn` can reach.
pub open spec fn zero_test_declines<V, N, A, Z>(rpn: Seq<SymbolModel>, number: N, apply: A, is_zero: Z) -> bool where
    N: Fn(&Vec<u8>) -> V,
    A: Fn(Operation, V, V) -> V,
    Z: Fn(&V) -> bool,
 {
    forall|k: int, stack: Seq<V>|
        0 <= k < rpn.len() && rpn[k] == SymbolModel::Op(Operation::Divide) && stack.len() >= 2
            && #[trigger] leaves_stack(rpn.take(k), number, apply, stack) ==> is_zero.ensures(
            (&stack.last(),),
            false,
        )
}

/// What evaluating `rpn` may return. A value is the one that the scan leaves
/// alone on the stack. An error is the one that the shape of `rpn` calls for,
/// except that a division that the scan reaches may fail instead. Where no
/// division is reached, the result is a value exactly when the shape is right.
/// With repeatable arithmetic, any other result means that `is_zero` turned
/// down every divisor that the scan reached.
pub open spec fn evaluation_outcome<V, N, A, Z>(
    rpn: Seq<SymbolModel>,
    number: N,
    apply: A,
    is_zero: Z,
    r: Result<V, EvalError>,
) -> bool where N: Fn(&Vec<u8>) -> V, A: Fn(Operation, V, V) -> V, Z: Fn(&V) -> bool {
    &&& r is Ok ==> shape_error(rpn) is None
    &&& r matches Err(e) ==> (e != EvalError::DivisionByZero ==> shape_error(rpn) == Some(e))
    &&& r == Err::<V, EvalError>(EvalError::DivisionByZero) ==> reaches_division(rpn)
        && reaches_zero_divisor(rpn, number, apply, is_zero)
    &&& arithmetic_determined(number, apply, is_zero) ==> (r != Err::<V, EvalError>(
        EvalError::DivisionByZero,
    ) ==> zero_test_declines(rpn, number, apply, is_zero))
    &&& !reaches_division(rpn) ==> (r is Ok <==> shape_error(rpn) is None)
    &&& r matches Ok(v) ==> leaves_stack(rpn, number, apply, seq![v])
}

/// A stack short of values stays short as the scan goes on.
pub proof fn lemma_depth_none_persists(rpn: Seq<SymbolModel>, i: int)
    requires
        0 <= i <= rpn.len(),
        depth_after(rpn.take(i)) is None,
    ensures
        depth_after(rpn) is None,
    decreases rpn.len() - i,
{
    if i < rpn.len() {
        assert(rpn.take(i + 1).drop_last() =~= rpn.take(i));
        lemma_depth_none_persists(rpn, i + 1);
    } else {
        assert(rpn.take(i) =~= rpn);
    }
}

/// Evaluates a postfix sequence.
///
/// `number` gives the value of a literal, `apply` the value of `left op right`,
/// and `is_zero` tells whether a divisor is too close to zero to divide by.
/// Each operation takes the top value of the stack as its right operand and
/// the one below it as its left; a division by a value that `is_zero` accepts
/// fails. The scan must end with exactly one value.
pub fn evaluate<V, N, A, Z>(rpn: Vec<Symbol>, number: N, apply: A, is_zero: Z) -> (r: Result<V, EvalError>) where
    N: Fn(&Vec<u8>) -> V,
    A: Fn(Operation, V, V) -> V,
    Z: Fn(&V) -> bool,

    requires
        forall|t: &Vec<u8>| number.requires((t,)),
        forall|o: Operation, left: V, right: V| apply.requires((o, left, right)),
        forall|v: &V| is_zero.requires((v,)),
    ensures
        evaluation_outcome(models(rpn@), number, apply, is_zero, r),
{
    let ghost m = models(rpn@);
    let mut values: Vec<V> = Vec::new();
    let mut i: usize = 0;
    assert(m.take(0) =~= seq![]);
    while i < rpn.len()
        invariant
            i <= rpn@.len(),
            m == models(rpn@),
            depth_after(m.take(i as int)) == Some(values@.len() as nat),
            leaves_stack(m.take(i as int), number, apply, values@),
            forall|t: &Vec<u8>| number.requires((t,)),
            forall|o: Operation, left: V, right: V| apply.requires((o, left, right)),
            forall|v: &V| is_zero.requires((v,)),
            arithmetic_determined(number, apply, is_zero) ==> forall|k: int, s: Seq<V>|
                0 <= k < i && m[k] == SymbolModel::Op(Operation::Divide) && s.len() >= 2
                    && #[trigger] leaves_stack(m.take(k), number, apply, s) ==> is_zero.ensures(
                    (&s.last(),),
                    false,
                ),
        decreases rpn@.len() - i,
    {
        assert(m.take(i + 1).drop_last() =~= m.take(i as int));
        assert(m.take(i + 1).last() == rpn@[i as int]@);
        match &rpn[i] {
            Symbol::Number(text) => {
                let v = number(text);
                let ghost before = values@;
                values.push(v);
                assert(values@.drop_last() =~= before);
                assert(values@.last() == v);
                assert(exists|tv: Vec<u8>| tv@ == text@ && #[trigger] number.ensures((&tv,), v)) by {
                    assert(number.ensures((&*text,), v));
                }
                assert(leaves_stack(m.take(i + 1), number, apply, values@));
            },
            Symbol::Op(op) => {
                let ghost old_values = values@;
                let right = match values.pop() {
                    Some(x) => x,
                    None => {
                        proof {
                            lemma_depth_none_persists(m, i + 1);
                            if arithmetic_determined(number, apply, is_zero) {
                                lemma_zero_test_declines(m, i as int, number, apply, is_zero);
                            }
                        }
                        return Err(EvalError::InvalidRpnExpression);
                    },
                };
                let left = match values.pop() {
                    Some(x) => x,
                    None => {
                        proof {
                            lemma_depth_none_persists(m, i + 1);
                            if arithmetic_determined(number, apply, is_zero) {
                                lemma_zero_test_declines(m, i as int, number, apply, is_zero);
                            }
                        }
                        return Err(EvalError::InvalidRpnExpression);
                    },
                };
                let ghost divisor = right;
                if let Operation::Divide = op {
                    if is_zero(&right) {
                        assert(depth_after(m.take(i + 1)) is Some);
                        assert(leaves_stack(m.take(i as int), number, apply, old_values));
                        assert(old_values.last() == right);
                        return Err(EvalError::DivisionByZero);
                    }
                }
                proof {
                    if arithmetic_determined(number, apply, is_zero) && m[i as int]
                        == SymbolModel::Op(Operation::Divide) {
                        assert(is_zero.ensures((&divisor,), false));
                        assert forall|s: Seq<V>|
                            s.len() >= 2 && #[trigger] leaves_stack(
                                m.take(i as int),
                                number,
                                apply,
                                s,
                            ) implies is_zero.ensures((&s.last(),), false) by {
                            lemma_leaves_stack_unique(m.take(i as int), number, apply, s, old_values);
                        }
                    }
                }
                let ghost rest = values@;
                let ghost (gl, gr) = (left, right);
                let w = apply(*op, left, right);
                values.push(w);
                assert(values@.drop_last() =~= rest);
                assert(values@.last() == w);
                assert(rest.push(gl).push(gr) =~= old_values);
                assert(apply.ensures((*op, gl, gr), w));
                assert(leaves_stack(m.take(i + 1), number, apply, values@));
            },
            _ => {
                assert(leaves_stack(m.take(i + 1), number, apply, values@));
            },
        }
        i = i + 1;
    }
    assert(m.take(i as int) =~= m);
    proof {
        if arithmetic_determined(number, apply, is_zero) {
            lemma_zero_test_declines(m, i as int, number, apply, is_zero);
        }
    }
    if values.len() == 1 {
        let ghost last = values@;
        match values.pop() {
            Some(v) => {
                assert(last =~= seq![v]);
                Ok(v)
            },
            None => Err(EvalError::EmptyOrInvalidResult),
        }
    } else {
        Err(EvalError::EmptyOrInvalidResult)
    }
}

} // verus!
