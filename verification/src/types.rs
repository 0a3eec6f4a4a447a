//! The values that programs compute with, and their mathematical model.

use crate::binary64::{compare_floats, float_order, widen, widened, Order};
use std::cmp::Ordering;
use vstd::prelude::*;

verus! {

/// A number: a 64-bit signed integer, or a binary64 floating-point number
/// held as its bit pattern.
#[derive(Clone, Copy, Debug)]
pub enum Num {
    Integer(i64),
    Float(u64),
}

/// A value on the operand stack. Two values are equal if they are of the
/// same variant and hold equal contents; numbers are equal as `Num` says.
#[derive(Debug, PartialEq)]
pub enum Type {
    Null,
    Boolean(bool),
    Number(Num),
    Str(String),
    List(Vec<Type>),
}

/// The mathematical model of a [`Type`]: text is a sequence of characters
/// and a list is a sequence of values.
pub ghost enum Value {
    Null,
    Boolean(bool),
    Number(Num),
    Str(Seq<char>),
    List(Seq<Value>),
}

/// The four arithmetic operations.
#[derive(Clone, Copy, Debug, PartialEq, Eq, Structural)]
pub enum ArithOp {
    Add,
    Sub,
    Mul,
    Div,
}

/// A binary64 operation that the caller has to perform: `left op right`,
/// both given as bit patterns.
#[derive(Clone, Copy, Debug, PartialEq, Eq, Structural)]
pub struct FloatTask {
    pub op: ArithOp,
    pub left: u64,
    pub right: u64,
}

/// What an arithmetic operation on two numbers gives: the result where
/// both are integers and the operation is not a division, else the binary64
/// operation whose result it is.
#[derive(Clone, Copy, Debug)]
pub enum Arith {
    Exact(Num),
    Deferred(FloatTask),
}

/// The five comparisons.
#[derive(Clone, Copy, Debug, PartialEq, Eq, Structural)]
pub enum Relation {
    Eq,
    Gt,
    Lt,
    Gteq,
    Lteq,
}

/// Why a running program stopped abnormally.
#[derive(Clone, Copy, Debug, PartialEq, Eq, Structural)]
pub enum RuntimeError {
    /// An instruction needed more operands than the stack holds.
    StackUnderflow,
    /// An operand is of a variant that the instruction does not take.
    TypeMismatch,
    /// A list was indexed outside its bounds.
    IndexOutOfRange,
    /// A variable was read or written before `defvar` introduced it.
    UninitializedVariable,
    /// `return` found no return address.
    ReturnStackUnderflow,
}

impl DeepView for Type {
    type V = Value;

    open spec fn deep_view(&self) -> Value
        decreases self,
    {
        match self {
            Type::Null => Value::Null,
            Type::Boolean(b) => Value::Boolean(*b),
            Type::Number(n) => Value::Number(*n),
            Type::Str(s) => Value::Str(s@),
            Type::List(items) => Value::List(
                Seq::new(
                    items@.len(),
                    |i: int|
                        if 0 <= i < items@.len() {
                            items@[i].deep_view()
                        } else {
                            Value::Null
                        },
                ),
            ),
        }
    }
}

/// The model of a list value is the list of its items' models.
pub broadcast proof fn lemma_list_view(items: Vec<Type>)
    ensures
        #[trigger] Type::List(items).deep_view() == Value::List(items.deep_view()),
{
    reveal_with_fuel(<Type as DeepView>::deep_view, 2);
    let direct = Type::List(items).deep_view()->List_0;
    assert(direct =~= items.deep_view());
}

/// Pushing onto a vector pushes the item's model onto the vector's model.
pub proof fn lemma_push_view<T: DeepView>(before: Vec<T>, after: Vec<T>, item: T)
    requires
        after@ == before@.push(item),
    ensures
        after.deep_view() == before.deep_view().push(item.deep_view()),
{
    assert(after.deep_view() =~= before.deep_view().push(item.deep_view()));
}

/// Replacing an item of a vector replaces its model in the vector's model.
pub proof fn lemma_update_view<T: DeepView>(before: Vec<T>, after: Vec<T>, i: int, item: T)
    requires
        0 <= i < before@.len(),
        after@ == before@.update(i, item),
    ensures
        after.deep_view() == before.deep_view().update(i, item.deep_view()),
{
    assert(after.deep_view() =~= before.deep_view().update(i, item.deep_view()));
}

/// Whether a binary64 bit pattern is a zero of either sign.
pub open spec fn is_float_zero(bits: u64) -> bool {
    bits == 0 || bits == 0x8000_0000_0000_0000
}

/// Whether a value counts as false in a condition: null, `false`, a numeric
/// zero and the empty string do; every other value, any list included, does
/// not.
pub open spec fn falsy(v: Value) -> bool {
    match v {
        Value::Null => true,
        Value::Boolean(b) => !b,
        Value::Number(Num::Integer(n)) => n == 0,
        Value::Number(Num::Float(bits)) => is_float_zero(bits),
        Value::Str(s) => s.len() == 0,
        Value::List(_) => false,
    }
}

/// Tells whether `t` counts as false in a condition.
pub fn is_falsy(t: Type) -> (r: bool)
    ensures
        r == falsy(t.deep_view()),
{
    match t {
        Type::Number(Num::Integer(n)) => n == 0,
        Type::Number(Num::Float(bits)) => bits == 0 || bits == 0x8000_0000_0000_0000,
        Type::Str(s) => s.as_str().is_empty(),
        Type::Boolean(b) => !b,
        Type::Null => true,
        Type::List(_) => false,
    }
}

impl Clone for Type {
    fn clone(&self) -> (r: Type)
        ensures
            r.deep_view() == self.deep_view(),
    {
        self.duplicate()
    }
}

impl Type {
    /// A deep copy of the value.
    pub fn duplicate(&self) -> (r: Type)
        ensures
            r.deep_view() == self.deep_view(),
        decreases self,
    {
        match self {
            Type::Null => Type::Null,
            Type::Boolean(b) => Type::Boolean(*b),
            Type::Number(n) => Type::Number(*n),
            Type::Str(s) => Type::Str(s.clone()),
            Type::List(items) => {
                let copy = duplicate_all(items);
                proof {
                    lemma_list_view(*items);
                    lemma_list_view(copy);
                }
                Type::List(copy)
            },
        }
    }
}

/// A deep copy of a vector of values.
pub fn duplicate_all(items: &Vec<Type>) -> (r: Vec<Type>)
    ensures
        r.deep_view() == items.deep_view(),
    decreases items,
{
    let mut r: Vec<Type> = Vec::new();
    let mut i: usize = 0;
    while i < items.len()
        invariant
            i <= items.len(),
            r.len() == i,
            forall|j: int| 0 <= j < i ==> r@[j].deep_view() == items@[j].deep_view(),
        decreases items.len() - i,
    {
        let item = items[i].duplicate();
        r.push(item);
        i += 1;
    }
    assert(r.deep_view() =~= items.deep_view());
    r
}

/// A number as a binary64 bit pattern: an integer goes to the nearest
/// binary64 number.
pub open spec fn as_float(n: Num) -> u64 {
    match n {
        Num::Integer(v) => widened(v),
        Num::Float(bits) => bits,
    }
}

/// How two numbers compare. Two integers compare as integers. Where
/// either is a floating-point number both are compared as such, and a
/// number that is not a number compares to nothing.
pub open spec fn num_order(left: Num, right: Num) -> Option<Order> {
    match (left, right) {
        (Num::Integer(a), Num::Integer(b)) => if a < b {
            Some(Order::Less)
        } else if a == b {
            Some(Order::Equal)
        } else {
            Some(Order::Greater)
        },
        _ => float_order(as_float(left), as_float(right)),
    }
}

/// Whether `relation` holds of two numbers that compare as `order`.
pub open spec fn holds(relation: Relation, order: Option<Order>) -> bool {
    match relation {
        Relation::Eq => order == Some(Order::Equal),
        Relation::Gt => order == Some(Order::Greater),
        Relation::Lt => order == Some(Order::Less),
        Relation::Gteq => order == Some(Order::Greater) || order == Some(Order::Equal),
        Relation::Lteq => order == Some(Order::Less) || order == Some(Order::Equal),
    }
}

/// What `left op right` gives. Two integers give an integer, computed in
/// two's complement, unless `op` is a division. Every other case gives a
/// floating-point number: the result of the binary64 operation on the two
/// numbers, integers converted.
pub open spec fn arith(op: ArithOp, left: Num, right: Num) -> Arith {
    match (op, left, right) {
        (ArithOp::Add, Num::Integer(a), Num::Integer(b)) => Arith::Exact(
            Num::Integer(a.wrapping_add(b)),
        ),
        (ArithOp::Sub, Num::Integer(a), Num::Integer(b)) => Arith::Exact(
            Num::Integer(a.wrapping_sub(b)),
        ),
        (ArithOp::Mul, Num::Integer(a), Num::Integer(b)) => Arith::Exact(
            Num::Integer(a.wrapping_mul(b)),
        ),
        _ => Arith::Deferred(FloatTask { op, left: as_float(left), right: as_float(right) }),
    }
}

impl Num {
    /// The number as a binary64 bit pattern.
    pub fn to_float(self) -> (bits: u64)
        ensures
            bits == as_float(self),
    {
        match self {
            Num::Integer(v) => widen(v),
            Num::Float(bits) => bits,
        }
    }

    /// Compares the number with `other`.
    pub fn compare(self, other: Num) -> (r: Option<Order>)
        ensures
            r == num_order(self, other),
    {
        match (self, other) {
            (Num::Integer(a), Num::Integer(b)) => if a < b {
                Some(Order::Less)
            } else if a == b {
                Some(Order::Equal)
            } else {
                Some(Order::Greater)
            },
            _ => compare_floats(self.to_float(), other.to_float()),
        }
    }

    /// Tells whether `relation` holds between the number and `other`.
    pub fn satisfies(self, relation: Relation, other: Num) -> (r: bool)
        ensures
            r == holds(relation, num_order(self, other)),
    {
        let order = self.compare(other);
        match relation {
            Relation::Eq => matches!(order, Some(Order::Equal)),
            Relation::Gt => matches!(order, Some(Order::Greater)),
            Relation::Lt => matches!(order, Some(Order::Less)),
            Relation::Gteq => matches!(order, Some(Order::Greater)) || matches!(
                order,
                Some(Order::Equal)
            ),
            Relation::Lteq => matches!(order, Some(Order::Less)) || matches!(
                order,
                Some(Order::Equal)
            ),
        }
    }

    /// Computes `self op other`, as far as integers go.
    pub fn combine(self, op: ArithOp, other: Num) -> (r: Arith)
        ensures
            r == arith(op, self, other),
    {
        match (op, self, other) {
            (ArithOp::Add, Num::Integer(a), Num::Integer(b)) => Arith::Exact(
                Num::Integer(a.wrapping_add(b)),
            ),
            (ArithOp::Sub, Num::Integer(a), Num::Integer(b)) => Arith::Exact(
                Num::Integer(a.wrapping_sub(b)),
            ),
            (ArithOp::Mul, Num::Integer(a), Num::Integer(b)) => Arith::Exact(
                Num::Integer(a.wrapping_mul(b)),
            ),
            _ => Arith::Deferred(
                FloatTask { op, left: self.to_float(), right: other.to_float() },
            ),
        }
    }
}

impl PartialEq for Num {
    /// Numeric equality: `1` equals `1.0`, and a number that is not a number
    /// equals nothing.
    fn eq(&self, other: &Num) -> (r: bool) {
        self.satisfies(Relation::Eq, *other)
    }
}

impl vstd::std_specs::cmp::PartialEqSpecImpl for Num {
    open spec fn obeys_eq_spec() -> bool {
        true
    }

    open spec fn eq_spec(&self, other: &Num) -> bool {
        holds(Relation::Eq, num_order(*self, *other))
    }
}

impl PartialOrd for Num {
    /// Numeric order: `1` is less than `1.5`, and a number that is not a
    /// number compares to nothing.
    fn partial_cmp(&self, other: &Num) -> (r: Option<Ordering>) {
        match self.compare(*other) {
            None => None,
            Some(Order::Less) => Some(Ordering::Less),
            Some(Order::Equal) => Some(Ordering::Equal),
            Some(Order::Greater) => Some(Ordering::Greater),
        }
    }
}

impl vstd::std_specs::cmp::PartialOrdSpecImpl for Num {
    open spec fn obeys_partial_cmp_spec() -> bool {
        true
    }

    open spec fn partial_cmp_spec(&self, other: &Num) -> Option<Ordering> {
        match num_order(*self, *other) {
            None => None,
            Some(Order::Less) => Some(Ordering::Less),
            Some(Order::Equal) => Some(Ordering::Equal),
            Some(Order::Greater) => Some(Ordering::Greater),
        }
    }
}

/// Removing the last item of a vector removes its model from the vector's
/// model.
pub proof fn lemma_pop_view<T: DeepView>(before: Vec<T>, after: Vec<T>)
    requires
        before@.len() > 0,
        after@ == before@.drop_last(),
    ensures
        after.deep_view() == before.deep_view().drop_last(),
{
    assert(after.deep_view() =~= before.deep_view().drop_last());
}

} // verus!
