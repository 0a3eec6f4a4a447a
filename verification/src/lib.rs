//! A small stack language: a lexer, a single-pass compiler that patches
//! forward jumps, and a stepwise interpreter over a dynamically typed
//! operand stack.
//!
//! The library computes with integers only. A floating-point number is
//! carried as its IEEE-754 binary64 bit pattern. The library compares such
//! numbers, converts integers to them and truncates them to integers. Their
//! sums, differences, products and quotients it leaves to the caller, to
//! whom the machine hands each as a [`FloatTask`]; and the value of a
//! literal that is not an integer it takes from the caller, in a
//! [`Table`] keyed by the literal's text.

pub mod binary64;
pub mod compiler;
pub mod constructs;
pub mod floats;
pub mod flow;
pub mod lexer;
pub mod literal;
pub mod machine;
pub mod operations;
pub mod structure;
pub mod table;
pub mod text;
pub mod types;



pub use compiler::{parse_to_program, CompileError, CompileErrorKind, Op};
pub use floats::float_literals;
pub use lexer::{
    find_end_list, find_end_str, remove_comments, tokenize, LexError, LexErrorKind, Token,
    TokenKind,
};
pub use literal::{get_nested_list, is_str, parse_to_num, split_str_to_list, LiteralError};
pub use machine::{resume, run, step, Machine, Signal};
pub use operations::{
    settle, OP_ADD, OP_DIV, OP_DROP, OP_DUP, OP_EQ, OP_FLOOR, OP_GT, OP_GTEQ, OP_INDEX, OP_LT,
    OP_LTEQ, OP_MUL, OP_OUT, OP_OVER, OP_ROTATE, OP_SUB, OP_SWAP,
};
pub use table::Table;
pub use types::{is_falsy, Arith, ArithOp, FloatTask, Num, Relation, RuntimeError, Type};
