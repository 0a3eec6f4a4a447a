//! The primitive operations on the operand stack.
//!
//! Each operation checks its operands before it changes anything: where it
//! fails, the stack is as it was.

#![allow(non_snake_case)]

use crate::binary64::truncate;
use crate::binary64::truncated;
use crate::types::{
    arith, holds, lemma_list_view, lemma_pop_view, lemma_push_view, num_order, Arith, ArithOp,
    FloatTask, Num, Relation, RuntimeError, Type, Value,
};
use vstd::prelude::*;

verus! {

/// What an arithmetic operation does to a stack: it replaces the two top
/// values by the result, or needs a binary64 operation for that, or fails.
pub ghost enum Effect {
    Stack(Seq<Value>),
    Float(FloatTask),
    Fault(RuntimeError),
}

/// The top value of a stack.
pub open spec fn top(s: Seq<Value>) -> Value {
    s[s.len() - 1]
}

/// The value below the top of a stack.
pub open spec fn second(s: Seq<Value>) -> Value {
    s[s.len() - 2]
}

/// The stack without its `n` top values.
pub open spec fn below(s: Seq<Value>, n: int) -> Seq<Value> {
    s.take(s.len() - n)
}

/// The error of an operation that takes two numbers, the top one first:
/// underflow where a value is missing, a type mismatch where it is no number.
pub open spec fn two_numbers(s: Seq<Value>) -> Option<RuntimeError> {
    if s.len() == 0 {
        Some(RuntimeError::StackUnderflow)
    } else if !(top(s) is Number) {
        Some(RuntimeError::TypeMismatch)
    } else if s.len() == 1 {
        Some(RuntimeError::StackUnderflow)
    } else if !(second(s) is Number) {
        Some(RuntimeError::TypeMismatch)
    } else {
        None
    }
}

/// What `op` does to the stack `s`: the value below the top is the left
/// operand, the top the right one.
pub open spec fn arith_effect(op: ArithOp, s: Seq<Value>) -> Effect {
    match two_numbers(s) {
        Some(e) => Effect::Fault(e),
        None => match arith(op, second(s)->Number_0, top(s)->Number_0) {
            Arith::Exact(n) => Effect::Stack(below(s, 2).push(Value::Number(n))),
            Arith::Deferred(task) => Effect::Float(task),
        },
    }
}

/// The stack after the binary64 operation that `s` waited for gave `bits`:
/// the two operands give way to the result.
pub open spec fn settled(s: Seq<Value>, bits: u64) -> Result<Seq<Value>, RuntimeError> {
    if s.len() < 2 {
        Err(RuntimeError::StackUnderflow)
    } else {
        Ok(below(s, 2).push(Value::Number(Num::Float(bits))))
    }
}

/// What a comparison does to the stack `s`: the two top numbers give way to
/// the boolean that tells whether `relation` holds between the lower and the
/// top one.
pub open spec fn compare_effect(relation: Relation, s: Seq<Value>) -> Result<
    Seq<Value>,
    RuntimeError,
> {
    match two_numbers(s) {
        Some(e) => Err(e),
        None => Ok(
            below(s, 2).push(
                Value::Boolean(
                    holds(relation, num_order(second(s)->Number_0, top(s)->Number_0)),
                ),
            ),
        ),
    }
}

/// `a` on the stack becomes `a a`.
pub open spec fn dup_effect(s: Seq<Value>) -> Result<Seq<Value>, RuntimeError> {
    if s.len() < 1 {
        Err(RuntimeError::StackUnderflow)
    } else {
        Ok(s.push(top(s)))
    }
}

/// `a b` becomes `b a`.
pub open spec fn swap_effect(s: Seq<Value>) -> Result<Seq<Value>, RuntimeError> {
    if s.len() < 2 {
        Err(RuntimeError::StackUnderflow)
    } else {
        Ok(below(s, 2).push(top(s)).push(second(s)))
    }
}

/// The top value is removed, whatever it is.
pub open spec fn drop_effect(s: Seq<Value>) -> Result<Seq<Value>, RuntimeError> {
    if s.len() < 1 {
        Err(RuntimeError::StackUnderflow)
    } else {
        Ok(below(s, 1))
    }
}

/// `a b` becomes `a b a`.
pub open spec fn over_effect(s: Seq<Value>) -> Result<Seq<Value>, RuntimeError> {
    if s.len() < 2 {
        Err(RuntimeError::StackUnderflow)
    } else {
        Ok(s.push(second(s)))
    }
}

/// `a b c` becomes `b c a`.
pub open spec fn rotate_effect(s: Seq<Value>) -> Result<Seq<Value>, RuntimeError> {
    if s.len() < 3 {
        Err(RuntimeError::StackUnderflow)
    } else {
        Ok(below(s, 3).push(second(s)).push(top(s)).push(s[s.len() - 3]))
    }
}

/// The top value is removed and handed out.
pub open spec fn out_effect(s: Seq<Value>) -> Result<(Seq<Value>, Value), RuntimeError> {
    if s.len() < 1 {
        Err(RuntimeError::StackUnderflow)
    } else {
        Ok((below(s, 1), top(s)))
    }
}

/// A list and, on top of it, an integer give way to the item of the list
/// at that index, counted from 0.
pub open spec fn index_effect(s: Seq<Value>) -> Result<Seq<Value>, RuntimeError> {
    if s.len() == 0 {
        Err(RuntimeError::StackUnderflow)
    } else if !(top(s) matches Value::Number(Num::Integer(_))) {
        Err(RuntimeError::TypeMismatch)
    } else if s.len() == 1 {
        Err(RuntimeError::StackUnderflow)
    } else if !(second(s) is List) {
        Err(RuntimeError::TypeMismatch)
    } else {
        let i = top(s)->Number_0->Integer_0;
        let items = second(s)->List_0;
        if 0 <= i < items.len() {
            Ok(below(s, 2).push(items[i as int]))
        } else {
            Err(RuntimeError::IndexOutOfRange)
        }
    }
}

/// A floating-point number on top gives way to the integer that it
/// truncates to; an integer stays.
pub open spec fn floor_effect(s: Seq<Value>) -> Result<Seq<Value>, RuntimeError> {
    if s.len() == 0 {
        Err(RuntimeError::StackUnderflow)
    } else {
        match top(s) {
            Value::Number(Num::Integer(_)) => Ok(s),
            Value::Number(Num::Float(bits)) => Ok(
                below(s, 1).push(Value::Number(Num::Integer(truncated(bits)))),
            ),
            _ => Err(RuntimeError::TypeMismatch),
        }
    }
}

/// Whether `r` and the stack after the call say what `effect` says.
pub open spec fn carried_out(
    effect: Effect,
    r: Result<Option<FloatTask>, RuntimeError>,
    before: Seq<Value>,
    after: Seq<Value>,
) -> bool {
    match effect {
        Effect::Stack(s) => r == Ok::<Option<FloatTask>, RuntimeError>(None) && after == s,
        Effect::Float(task) => r == Ok::<Option<FloatTask>, RuntimeError>(Some(task)) && after
            == before,
        Effect::Fault(e) => r == Err::<Option<FloatTask>, RuntimeError>(e) && after == before,
    }
}

/// Whether `r` and the stack after the call say what `effect` says.
pub open spec fn done(
    effect: Result<Seq<Value>, RuntimeError>,
    r: Result<(), RuntimeError>,
    before: Seq<Value>,
    after: Seq<Value>,
) -> bool {
    match effect {
        Ok(s) => r is Ok && after == s,
        Err(e) => r == Err::<(), RuntimeError>(e) && after == before,
    }
}

/// The two numbers on top of the stack, the lower one first.
pub fn operands(stack: &Vec<Type>) -> (r: Result<(Num, Num), RuntimeError>)
    ensures
        match r {
            Ok((left, right)) => two_numbers(stack.deep_view()) is None && second(
                stack.deep_view(),
            ) == Value::Number(left) && top(stack.deep_view()) == Value::Number(right),
            Err(e) => two_numbers(stack.deep_view()) == Some(e),
        },
{
    let n = stack.len();
    if n == 0 {
        return Err(RuntimeError::StackUnderflow);
    }
    let right = match &stack[n - 1] {
        Type::Number(x) => *x,
        _ => {
            return Err(RuntimeError::TypeMismatch);
        },
    };
    if n == 1 {
        return Err(RuntimeError::StackUnderflow);
    }
    let left = match &stack[n - 2] {
        Type::Number(y) => *y,
        _ => {
            return Err(RuntimeError::TypeMismatch);
        },
    };
    Ok((left, right))
}

/// Removes the `n` top values.
pub(crate) fn discard(stack: &mut Vec<Type>, n: usize)
    requires
        n <= old(stack).len(),
    ensures
        final(stack).deep_view() == below(old(stack).deep_view(), n as int),
        final(stack)@ == old(stack)@.take(old(stack).len() - n),
{
    let mut k: usize = 0;
    while k < n
        invariant
            k <= n <= old(stack).len(),
            stack@ == old(stack)@.take(old(stack).len() - k),
        decreases n - k,
    {
        stack.pop();
        k += 1;
        assert(stack@ =~= old(stack)@.take(old(stack).len() - k));
    }
    assert(stack.deep_view() =~= below(old(stack).deep_view(), n as int));
}

/// Pushes `value`.
pub fn place(stack: &mut Vec<Type>, value: Type)
    ensures
        final(stack).deep_view() == old(stack).deep_view().push(value.deep_view()),
        final(stack)@ == old(stack)@.push(value),
{
    let ghost before = *stack;
    stack.push(value);
    proof {
        lemma_push_view(before, *stack, value);
    }
}

/// Applies `op` to the two numbers on top of the stack.
pub fn apply(stack: &mut Vec<Type>, op: ArithOp) -> (r: Result<Option<FloatTask>, RuntimeError>)
    ensures
        carried_out(
            arith_effect(op, old(stack).deep_view()),
            r,
            old(stack).deep_view(),
            final(stack).deep_view(),
        ),
{
    match operands(stack) {
        Err(e) => Err(e),
        Ok((left, right)) => match left.combine(op, right) {
            Arith::Exact(n) => {
                discard(stack, 2);
                place(stack, Type::Number(n));
                Ok(None)
            },
            Arith::Deferred(task) => Ok(Some(task)),
        },
    }
}

/// Replaces the two numbers on top of the stack by the boolean that tells
/// whether `relation` holds between the lower and the top one.
pub fn check(stack: &mut Vec<Type>, relation: Relation) -> (r: Result<(), RuntimeError>)
    ensures
        done(
            compare_effect(relation, old(stack).deep_view()),
            r,
            old(stack).deep_view(),
            final(stack).deep_view(),
        ),
{
    match operands(stack) {
        Err(e) => Err(e),
        Ok((left, right)) => {
            let answer = left.satisfies(relation, right);
            discard(stack, 2);
            place(stack, Type::Boolean(answer));
            Ok(())
        },
    }
}

/// Replaces the two operands of a binary64 operation by its result `bits`.
pub fn settle(stack: &mut Vec<Type>, bits: u64) -> (r: Result<(), RuntimeError>)
    ensures
        done(
            settled(old(stack).deep_view(), bits),
            r,
            old(stack).deep_view(),
            final(stack).deep_view(),
        ),
{
    if stack.len() < 2 {
        return Err(RuntimeError::StackUnderflow);
    }
    discard(stack, 2);
    place(stack, Type::Number(Num::Float(bits)));
    Ok(())
}

/// Adds the two numbers on top of the stack.
///
/// Returns the binary64 addition that gives the result, and leaves the
/// stack as it is, where either number is a floating-point number.
pub fn OP_ADD(stack: &mut Vec<Type>) -> (r: Result<Option<FloatTask>, RuntimeError>)
    ensures
        carried_out(
            arith_effect(ArithOp::Add, old(stack).deep_view()),
            r,
            old(stack).deep_view(),
            final(stack).deep_view(),
        ),
{
    apply(stack, ArithOp::Add)
}

/// Subtracts the top number from the number below it.
///
/// Returns the binary64 subtraction that gives the result, and leaves the
/// stack as it is, where either number is a floating-point number.
pub fn OP_SUB(stack: &mut Vec<Type>) -> (r: Result<Option<FloatTask>, RuntimeError>)
    ensures
        carried_out(
            arith_effect(ArithOp::Sub, old(stack).deep_view()),
            r,
            old(stack).deep_view(),
            final(stack).deep_view(),
        ),
{
    apply(stack, ArithOp::Sub)
}

/// Multiplies the two numbers on top of the stack.
///
/// Returns the binary64 multiplication that gives the result, and leaves
/// the stack as it is, where either number is a floating-point number.
pub fn OP_MUL(stack: &mut Vec<Type>) -> (r: Result<Option<FloatTask>, RuntimeError>)
    ensures
        carried_out(
            arith_effect(ArithOp::Mul, old(stack).deep_view()),
            r,
            old(stack).deep_view(),
            final(stack).deep_view(),
        ),
{
    apply(stack, ArithOp::Mul)
}

/// Divides the number below the top by the top number. The result is
/// always a floating-point number: the call returns the binary64 division
/// that gives it, and leaves the stack as it is.
pub fn OP_DIV(stack: &mut Vec<Type>) -> (r: Result<Option<FloatTask>, RuntimeError>)
    ensures
        carried_out(
            arith_effect(ArithOp::Div, old(stack).deep_view()),
            r,
            old(stack).deep_view(),
            final(stack).deep_view(),
        ),
        r is Ok ==> r != Ok::<Option<FloatTask>, RuntimeError>(None),
{
    apply(stack, ArithOp::Div)
}

/// Truncates the floating-point number on top of the stack to an integer.
pub fn OP_FLOOR(stack: &mut Vec<Type>) -> (r: Result<(), RuntimeError>)
    ensures
        done(
            floor_effect(old(stack).deep_view()),
            r,
            old(stack).deep_view(),
            final(stack).deep_view(),
        ),
{
    let n = stack.len();
    if n == 0 {
        return Err(RuntimeError::StackUnderflow);
    }
    match &stack[n - 1] {
        Type::Number(Num::Integer(_)) => Ok(()),
        Type::Number(Num::Float(bits)) => {
            let whole = truncate(*bits);
            discard(stack, 1);
            place(stack, Type::Number(Num::Integer(whole)));
            Ok(())
        },
        _ => Err(RuntimeError::TypeMismatch),
    }
}

/// Tells whether the two numbers on top of the stack are equal.
pub fn OP_EQ(stack: &mut Vec<Type>) -> (r: Result<(), RuntimeError>)
    ensures
        done(
            compare_effect(Relation::Eq, old(stack).deep_view()),
            r,
            old(stack).deep_view(),
            final(stack).deep_view(),
        ),
{
    check(stack, Relation::Eq)
}

/// Tells whether the number below the top is greater than the top one.
pub fn OP_GT(stack: &mut Vec<Type>) -> (r: Result<(), RuntimeError>)
    ensures
        done(
            compare_effect(Relation::Gt, old(stack).deep_view()),
            r,
            old(stack).deep_view(),
            final(stack).deep_view(),
        ),
{
    check(stack, Relation::Gt)
}

/// Tells whether the number below the top is less than the top one.
pub fn OP_LT(stack: &mut Vec<Type>) -> (r: Result<(), RuntimeError>)
    ensures
        done(
            compare_effect(Relation::Lt, old(stack).deep_view()),
            r,
            old(stack).deep_view(),
            final(stack).deep_view(),
        ),
{
    check(stack, Relation::Lt)
}

/// Tells whether the number below the top is greater than the top one or
/// equal to it.
pub fn OP_GTEQ(stack: &mut Vec<Type>) -> (r: Result<(), RuntimeError>)
    ensures
        done(
            compare_effect(Relation::Gteq, old(stack).deep_view()),
            r,
            old(stack).deep_view(),
            final(stack).deep_view(),
        ),
{
    check(stack, Relation::Gteq)
}

/// Tells whether the number below the top is less than the top one or equal
/// to it.
pub fn OP_LTEQ(stack: &mut Vec<Type>) -> (r: Result<(), RuntimeError>)
    ensures
        done(
            compare_effect(Relation::Lteq, old(stack).deep_view()),
            r,
            old(stack).deep_view(),
            final(stack).deep_view(),
        ),
{
    check(stack, Relation::Lteq)
}

/// Removes the top value and returns it, for the caller to emit.
pub fn OP_OUT(stack: &mut Vec<Type>) -> (r: Result<Type, RuntimeError>)
    ensures
        match out_effect(old(stack).deep_view()) {
            Ok((s, v)) => r is Ok && r->Ok_0.deep_view() == v && final(stack).deep_view() == s,
            Err(e) => r == Err::<Type, RuntimeError>(e) && final(stack).deep_view() == old(
                stack,
            ).deep_view(),
        },
{
    let ghost before = *stack;
    match stack.pop() {
        None => Err(RuntimeError::StackUnderflow),
        Some(x) => {
            proof {
                lemma_pop_view(before, *stack);
                assert(before.deep_view().drop_last() =~= below(before.deep_view(), 1));
            }
            Ok(x)
        },
    }
}

/// Pushes a copy of the top value.
pub fn OP_DUP(stack: &mut Vec<Type>) -> (r: Result<(), RuntimeError>)
    ensures
        done(
            dup_effect(old(stack).deep_view()),
            r,
            old(stack).deep_view(),
            final(stack).deep_view(),
        ),
{
    let n = stack.len();
    if n < 1 {
        return Err(RuntimeError::StackUnderflow);
    }
    let x = stack[n - 1].duplicate();
    place(stack, x);
    Ok(())
}

/// Exchanges the two top values.
pub fn OP_SWAP(stack: &mut Vec<Type>) -> (r: Result<(), RuntimeError>)
    ensures
        done(
            swap_effect(old(stack).deep_view()),
            r,
            old(stack).deep_view(),
            final(stack).deep_view(),
        ),
{
    let n = stack.len();
    if n < 2 {
        return Err(RuntimeError::StackUnderflow);
    }
    let x = stack[n - 1].duplicate();
    let y = stack[n - 2].duplicate();
    discard(stack, 2);
    place(stack, x);
    place(stack, y);
    Ok(())
}

/// Removes the top value.
pub fn OP_DROP(stack: &mut Vec<Type>) -> (r: Result<(), RuntimeError>)
    ensures
        done(
            drop_effect(old(stack).deep_view()),
            r,
            old(stack).deep_view(),
            final(stack).deep_view(),
        ),
{
    if stack.len() < 1 {
        return Err(RuntimeError::StackUnderflow);
    }
    discard(stack, 1);
    Ok(())
}

/// Pushes a copy of the value below the top.
pub fn OP_OVER(stack: &mut Vec<Type>) -> (r: Result<(), RuntimeError>)
    ensures
        done(
            over_effect(old(stack).deep_view()),
            r,
            old(stack).deep_view(),
            final(stack).deep_view(),
        ),
{
    let n = stack.len();
    if n < 2 {
        return Err(RuntimeError::StackUnderflow);
    }
    let y = stack[n - 2].duplicate();
    place(stack, y);
    Ok(())
}

/// Moves the third value from the top to the top.
pub fn OP_ROTATE(stack: &mut Vec<Type>) -> (r: Result<(), RuntimeError>)
    ensures
        done(
            rotate_effect(old(stack).deep_view()),
            r,
            old(stack).deep_view(),
            final(stack).deep_view(),
        ),
{
    let n = stack.len();
    if n < 3 {
        return Err(RuntimeError::StackUnderflow);
    }
    let x = stack[n - 1].duplicate();
    let y = stack[n - 2].duplicate();
    let z = stack[n - 3].duplicate();
    discard(stack, 3);
    place(stack, y);
    place(stack, x);
    place(stack, z);
    Ok(())
}

/// Replaces a list and the integer on top of it by the item of the list at
/// that index.
pub fn OP_INDEX(stack: &mut Vec<Type>) -> (r: Result<(), RuntimeError>)
    ensures
        done(
            index_effect(old(stack).deep_view()),
            r,
            old(stack).deep_view(),
            final(stack).deep_view(),
        ),
{
    let n = stack.len();
    if n == 0 {
        return Err(RuntimeError::StackUnderflow);
    }
    let i = match &stack[n - 1] {
        Type::Number(Num::Integer(i)) => *i,
        _ => {
            return Err(RuntimeError::TypeMismatch);
        },
    };
    if n == 1 {
        return Err(RuntimeError::StackUnderflow);
    }
    let item = match &stack[n - 2] {
        Type::List(items) => {
            proof {
                lemma_list_view(*items);
            }
            if i < 0 || i as u64 >= items.len() as u64 {
                return Err(RuntimeError::IndexOutOfRange);
            }
            items[i as usize].duplicate()
        },
        _ => {
            return Err(RuntimeError::TypeMismatch);
        },
    };
    discard(stack, 2);
    place(stack, item);
    Ok(())
}

} // verus!
