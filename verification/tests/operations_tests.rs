use forth_vm::operations::{
    settle, OP_ADD, OP_DIV, OP_DROP, OP_DUP, OP_EQ, OP_FLOOR, OP_GT, OP_GTEQ, OP_INDEX, OP_LT,
    OP_LTEQ, OP_MUL, OP_OUT, OP_OVER, OP_ROTATE, OP_SUB, OP_SWAP,
};
use forth_vm::table::Table;
use forth_vm::types::{is_falsy, ArithOp, FloatTask, Num, RuntimeError, Type};

fn num(n: i64) -> Type {
    Type::Number(Num::Integer(n))
}

fn float(x: f64) -> Type {
    Type::Number(Num::Float(x.to_bits()))
}

fn text(s: &str) -> Type {
    Type::Str(s.to_string())
}

fn show(value: &Type) -> String {
    match value {
        Type::Null => "null".to_string(),
        Type::Boolean(b) => format!("{}", b),
        Type::Number(Num::Integer(n)) => format!("{}", n),
        Type::Number(Num::Float(bits)) => format!("{:?}", f64::from_bits(*bits)),
        Type::Str(s) => format!("{:?}", s),
        Type::List(items) => {
            let inner: Vec<String> = items.iter().map(show).collect();
            format!("[{}]", inner.join(" "))
        }
    }
}

fn shown(stack: &Vec<Type>) -> String {
    let parts: Vec<String> = stack.iter().map(show).collect();
    parts.join(" ")
}

#[test]
fn op_add_sub_mul_on_integers() {
    let mut stack = vec![num(9), num(7), num(2)];
    assert_eq!(OP_ADD(&mut stack), Ok(None));
    assert_eq!(shown(&stack), "9 9");
    let mut stack = vec![num(7), num(2)];
    assert_eq!(OP_SUB(&mut stack), Ok(None));
    assert_eq!(shown(&stack), "5");
    let mut stack = vec![num(7), num(-2)];
    assert_eq!(OP_MUL(&mut stack), Ok(None));
    assert_eq!(shown(&stack), "-14");
}

#[test]
fn op_arithmetic_defers_floats_and_leaves_the_stack() {
    let mut stack = vec![num(1), float(1.0), num(1)];
    assert_eq!(
        OP_ADD(&mut stack),
        Ok(Some(FloatTask { op: ArithOp::Add, left: 1.0f64.to_bits(), right: 1.0f64.to_bits() }))
    );
    assert_eq!(shown(&stack), "1 1.0 1");
    assert_eq!(settle(&mut stack, 2.0f64.to_bits()), Ok(()));
    assert_eq!(shown(&stack), "1 2.0");
    let mut stack = vec![num(2), num(4)];
    assert_eq!(
        OP_DIV(&mut stack),
        Ok(Some(FloatTask { op: ArithOp::Div, left: 2.0f64.to_bits(), right: 4.0f64.to_bits() }))
    );
    assert_eq!(shown(&stack), "2 4");
    let mut stack = vec![float(2.5), float(4.0)];
    assert_eq!(
        OP_SUB(&mut stack),
        Ok(Some(FloatTask { op: ArithOp::Sub, left: 2.5f64.to_bits(), right: 4.0f64.to_bits() }))
    );
    let mut stack = vec![num(3), float(4.0)];
    assert_eq!(
        OP_MUL(&mut stack),
        Ok(Some(FloatTask { op: ArithOp::Mul, left: 3.0f64.to_bits(), right: 4.0f64.to_bits() }))
    );
}

#[test]
fn settle_needs_two_operands() {
    let mut stack = vec![num(1)];
    assert_eq!(settle(&mut stack, 0), Err(RuntimeError::StackUnderflow));
    assert_eq!(shown(&stack), "1");
}

#[test]
fn op_arithmetic_checks_the_top_operand_first() {
    let mut stack: Vec<Type> = vec![];
    assert_eq!(OP_ADD(&mut stack), Err(RuntimeError::StackUnderflow));
    let mut stack = vec![text("a")];
    assert_eq!(OP_ADD(&mut stack), Err(RuntimeError::TypeMismatch));
    assert_eq!(shown(&stack), "\"a\"");
    let mut stack = vec![num(1)];
    assert_eq!(OP_SUB(&mut stack), Err(RuntimeError::StackUnderflow));
    assert_eq!(shown(&stack), "1");
    let mut stack = vec![text("a"), num(1)];
    assert_eq!(OP_MUL(&mut stack), Err(RuntimeError::TypeMismatch));
    assert_eq!(shown(&stack), "\"a\" 1");
    let mut stack = vec![Type::Null, Type::Boolean(true)];
    assert_eq!(OP_DIV(&mut stack), Err(RuntimeError::TypeMismatch));
}

#[test]
fn op_comparisons() {
    let apply = |f: fn(&mut Vec<Type>) -> Result<(), RuntimeError>, a: Type, b: Type| {
        let mut stack = vec![num(0), a, b];
        assert_eq!(f(&mut stack), Ok(()));
        assert_eq!(stack.len(), 2);
        matches!(stack[1], Type::Boolean(true))
    };
    assert!(apply(OP_EQ, num(2), num(2)));
    assert!(!apply(OP_EQ, num(2), num(3)));
    assert!(apply(OP_EQ, num(2), float(2.0)));
    assert!(apply(OP_GT, num(3), num(2)));
    assert!(!apply(OP_GT, num(2), num(3)));
    assert!(apply(OP_LT, num(2), num(3)));
    assert!(!apply(OP_LT, num(3), num(2)));
    assert!(apply(OP_GTEQ, num(3), num(2)));
    assert!(apply(OP_GTEQ, num(3), num(3)));
    assert!(!apply(OP_GTEQ, num(2), num(3)));
    assert!(apply(OP_LTEQ, num(2), num(3)));
    assert!(apply(OP_LTEQ, float(3.0), num(3)));
    assert!(!apply(OP_LTEQ, num(3), float(2.5)));
    assert!(!apply(OP_EQ, float(f64::NAN), float(f64::NAN)));
    assert!(!apply(OP_GTEQ, float(f64::NAN), num(1)));
}

#[test]
fn op_comparison_errors() {
    let mut stack = vec![num(1)];
    assert_eq!(OP_EQ(&mut stack), Err(RuntimeError::StackUnderflow));
    let mut stack = vec![num(1), text("1")];
    assert_eq!(OP_GT(&mut stack), Err(RuntimeError::TypeMismatch));
    let mut stack = vec![Type::Boolean(true), num(1)];
    assert_eq!(OP_LT(&mut stack), Err(RuntimeError::TypeMismatch));
    assert_eq!(shown(&stack), "true 1");
    let mut stack: Vec<Type> = vec![];
    assert_eq!(OP_GTEQ(&mut stack), Err(RuntimeError::StackUnderflow));
    assert_eq!(OP_LTEQ(&mut stack), Err(RuntimeError::StackUnderflow));
}

#[test]
fn op_floor() {
    let mut stack = vec![float(2.9)];
    assert_eq!(OP_FLOOR(&mut stack), Ok(()));
    assert_eq!(shown(&stack), "2");
    let mut stack = vec![float(-2.9)];
    assert_eq!(OP_FLOOR(&mut stack), Ok(()));
    assert_eq!(shown(&stack), "-2");
    let mut stack = vec![num(1), num(5)];
    assert_eq!(OP_FLOOR(&mut stack), Ok(()));
    assert_eq!(shown(&stack), "1 5");
    let mut stack = vec![text("x")];
    assert_eq!(OP_FLOOR(&mut stack), Err(RuntimeError::TypeMismatch));
    let mut stack: Vec<Type> = vec![];
    assert_eq!(OP_FLOOR(&mut stack), Err(RuntimeError::StackUnderflow));
}

#[test]
fn op_out_hands_the_top_value_out() {
    let mut stack = vec![num(1), text("a")];
    let value = OP_OUT(&mut stack).unwrap();
    assert_eq!(show(&value), "\"a\"");
    assert_eq!(shown(&stack), "1");
    let mut stack: Vec<Type> = vec![];
    assert_eq!(OP_OUT(&mut stack).err(), Some(RuntimeError::StackUnderflow));
}

#[test]
fn op_dup_swap_drop_over_rotate() {
    let mut stack = vec![num(1), Type::List(vec![num(2), text("x")])];
    assert_eq!(OP_DUP(&mut stack), Ok(()));
    assert_eq!(shown(&stack), "1 [2 \"x\"] [2 \"x\"]");
    let mut stack = vec![num(0), num(1), num(2)];
    assert_eq!(OP_SWAP(&mut stack), Ok(()));
    assert_eq!(shown(&stack), "0 2 1");
    assert_eq!(OP_DROP(&mut stack), Ok(()));
    assert_eq!(shown(&stack), "0 2");
    assert_eq!(OP_OVER(&mut stack), Ok(()));
    assert_eq!(shown(&stack), "0 2 0");
    let mut stack = vec![num(9), num(1), num(2), num(3)];
    assert_eq!(OP_ROTATE(&mut stack), Ok(()));
    assert_eq!(shown(&stack), "9 2 3 1");
}

#[test]
fn op_stack_errors_leave_the_stack() {
    let mut stack: Vec<Type> = vec![];
    assert_eq!(OP_DUP(&mut stack), Err(RuntimeError::StackUnderflow));
    assert_eq!(OP_DROP(&mut stack), Err(RuntimeError::StackUnderflow));
    let mut stack = vec![num(1)];
    assert_eq!(OP_SWAP(&mut stack), Err(RuntimeError::StackUnderflow));
    assert_eq!(OP_OVER(&mut stack), Err(RuntimeError::StackUnderflow));
    assert_eq!(shown(&stack), "1");
    let mut stack = vec![num(1), num(2)];
    assert_eq!(OP_ROTATE(&mut stack), Err(RuntimeError::StackUnderflow));
    assert_eq!(shown(&stack), "1 2");
}

#[test]
fn op_drop_removes_any_value() {
    let mut stack = vec![num(1), text("x")];
    assert_eq!(OP_DROP(&mut stack), Ok(()));
    assert_eq!(shown(&stack), "1");
    let mut stack = vec![num(1), Type::Boolean(false)];
    assert_eq!(OP_DROP(&mut stack), Ok(()));
    assert_eq!(shown(&stack), "1");
    let mut stack = vec![Type::Null, Type::List(vec![num(2)]), float(1.5)];
    assert_eq!(OP_DROP(&mut stack), Ok(()));
    assert_eq!(OP_DROP(&mut stack), Ok(()));
    assert_eq!(shown(&stack), "null");
    assert_eq!(OP_DROP(&mut stack), Ok(()));
    assert_eq!(OP_DROP(&mut stack), Err(RuntimeError::StackUnderflow));
    assert!(stack.is_empty());
}

#[test]
fn op_index() {
    let list = || Type::List(vec![num(10), text("b"), Type::List(vec![])]);
    let mut stack = vec![num(7), list(), num(1)];
    assert_eq!(OP_INDEX(&mut stack), Ok(()));
    assert_eq!(shown(&stack), "7 \"b\"");
    let mut stack = vec![list(), num(3)];
    assert_eq!(OP_INDEX(&mut stack), Err(RuntimeError::IndexOutOfRange));
    assert_eq!(shown(&stack), "[10 \"b\" []] 3");
    let mut stack = vec![list(), num(-1)];
    assert_eq!(OP_INDEX(&mut stack), Err(RuntimeError::IndexOutOfRange));
    let mut stack = vec![list(), num(i64::MIN)];
    assert_eq!(OP_INDEX(&mut stack), Err(RuntimeError::IndexOutOfRange));
    let mut stack = vec![list(), float(1.0)];
    assert_eq!(OP_INDEX(&mut stack), Err(RuntimeError::TypeMismatch));
    let mut stack = vec![text("abc"), num(0)];
    assert_eq!(OP_INDEX(&mut stack), Err(RuntimeError::TypeMismatch));
    let mut stack = vec![num(0)];
    assert_eq!(OP_INDEX(&mut stack), Err(RuntimeError::StackUnderflow));
    let mut stack = vec![list()];
    assert_eq!(OP_INDEX(&mut stack), Err(RuntimeError::TypeMismatch));
}

#[test]
fn is_falsy_table() {
    assert!(is_falsy(Type::Null));
    assert!(is_falsy(Type::Boolean(false)));
    assert!(!is_falsy(Type::Boolean(true)));
    assert!(is_falsy(num(0)));
    assert!(!is_falsy(num(1)));
    assert!(!is_falsy(num(-1)));
    assert!(is_falsy(float(0.0)));
    assert!(is_falsy(float(-0.0)));
    assert!(!is_falsy(float(1e-300)));
    assert!(!is_falsy(float(f64::NAN)));
    assert!(!is_falsy(Type::Number(Num::Float(1))));
    assert!(is_falsy(text("")));
    assert!(!is_falsy(text(" ")));
    assert!(!is_falsy(text("0")));
    assert!(!is_falsy(Type::List(vec![])));
    assert!(!is_falsy(Type::List(vec![num(0)])));
}

#[test]
fn duplicate_copies_deeply() {
    let value = Type::List(vec![num(1), Type::List(vec![text("x"), float(1.5)]), Type::Null]);
    let copy = value.duplicate();
    assert_eq!(show(&copy), show(&value));
    let clone = value.clone();
    assert_eq!(show(&clone), "[1 [\"x\" 1.5] null]");
}

#[test]
fn table_insert_get_and_overwrite() {
    let mut table: Table<u64> = Table::new();
    assert_eq!(table.get("a"), None);
    assert_eq!(table.find("a"), None);
    table.insert("a".to_string(), 1);
    table.insert("b".to_string(), 2);
    assert_eq!(table.get("a"), Some(&1));
    assert_eq!(table.get("b"), Some(&2));
    assert_eq!(table.get(""), None);
    table.insert("a".to_string(), 3);
    assert_eq!(table.get("a"), Some(&3));
    assert_eq!(table.get("b"), Some(&2));
    assert_eq!(table.entries.len(), 2);
    assert_eq!(table.find("b"), Some(1));
    table.insert(String::new(), 9);
    assert_eq!(table.get(""), Some(&9));
    assert_eq!(table.get("ab"), None);
}
