use forth_vm::compiler::{parse_to_program, Op};
use forth_vm::floats::float_literals;
use forth_vm::lexer::{remove_comments, tokenize};
use forth_vm::machine::{resume, run, step, Machine, Signal};
use forth_vm::table::Table;
use forth_vm::types::{ArithOp, FloatTask, Num, RuntimeError, Type};

fn compile(source: &str) -> Vec<Op> {
    let tokens = tokenize(source).unwrap();
    let mut floats = Table::new();
    for text in float_literals(&tokens) {
        let bits = text.parse::<f64>().unwrap().to_bits();
        floats.insert(text, bits);
    }
    parse_to_program(&tokens, &floats).unwrap()
}

fn perform(task: FloatTask) -> u64 {
    let (l, r) = (f64::from_bits(task.left), f64::from_bits(task.right));
    let x = match task.op {
        ArithOp::Add => l + r,
        ArithOp::Sub => l - r,
        ArithOp::Mul => l * r,
        ArithOp::Div => l / r,
    };
    x.to_bits()
}

fn drive(program: &Vec<Op>, machine: &mut Machine, mut budget: usize) -> Signal {
    loop {
        match run(program, machine, 64) {
            Signal::Continue => {
                if budget == 0 {
                    return Signal::Continue;
                }
                budget -= 1;
            }
            Signal::Float(task) => {
                assert!(resume(program, machine, perform(task)));
            }
            other => return other,
        }
    }
}

fn show(value: &Type) -> String {
    match value {
        Type::Null => "null".to_string(),
        Type::Boolean(b) => format!("{}", b),
        Type::Number(Num::Integer(n)) => format!("{}", n),
        Type::Number(Num::Float(bits)) => format!("{:?}", f64::from_bits(*bits)),
        Type::Str(s) => format!("{:?}", s),
        Type::List(items) => {
            let inner: Vec<String> = items.iter().map(show).collect();
            format!("[{}]", inner.join(" "))
        }
    }
}

fn show_all(values: &Vec<Type>) -> String {
    let parts: Vec<String> = values.iter().map(show).collect();
    parts.join(" ")
}

/// Runs a source text; returns the signal, what was emitted, and the stack.
fn execute(source: &str) -> (Signal, String, String) {
    let program = compile(source);
    let mut machine = Machine::new(Vec::new());
    let signal = drive(&program, &mut machine, 10_000);
    (signal, show_all(&machine.output), show_all(&machine.stack))
}

fn halts_with(source: &str, output: &str, stack: &str) {
    let (signal, out, rest) = execute(source);
    assert_eq!(signal, Signal::Halt, "{}", source);
    assert_eq!(out, output, "{}", source);
    assert_eq!(rest, stack, "{}", source);
}

fn faults_with(source: &str, error: RuntimeError) {
    let (signal, _, _) = execute(source);
    assert_eq!(signal, Signal::Fault(error), "{}", source);
}

#[test]
fn run_two_three_plus_out() {
    halts_with("2 3 + out", "5", "");
}

#[test]
fn run_five_zero_equals_takes_the_else_branch() {
    halts_with("5 0 = if 1 out else 0 out end", "0", "");
    halts_with("5 5 = if 1 out else 0 out end", "1", "");
}

#[test]
fn run_plus_on_empty_stack_underflows_without_output() {
    let program = compile("+");
    let mut machine = Machine::new(Vec::new());
    assert_eq!(run(&program, &mut machine, 100), Signal::Fault(RuntimeError::StackUnderflow));
    assert!(machine.output.is_empty());
    assert!(machine.stack.is_empty());
    assert_eq!(machine.ip, 0);
}

#[test]
fn run_fault_leaves_the_machine_as_it_was() {
    let program = compile("1 out 2 +");
    let mut machine = Machine::new(Vec::new());
    assert_eq!(run(&program, &mut machine, 100), Signal::Fault(RuntimeError::StackUnderflow));
    assert_eq!(show_all(&machine.output), "1");
    assert_eq!(show_all(&machine.stack), "2");
    assert_eq!(machine.ip, 3);
    assert_eq!(step(&program, &mut machine), Signal::Fault(RuntimeError::StackUnderflow));
    assert_eq!(show_all(&machine.stack), "2");
}

#[test]
fn run_integer_arithmetic() {
    halts_with("7 2 - out 7 2 * out 2 7 - out", "5 14 -5", "");
    halts_with("9223372036854775807 1 +", "", "-9223372036854775808");
}

#[test]
fn run_division_is_never_truncated() {
    halts_with("2 4 / out", "0.5", "");
    halts_with("7 2 /", "", "3.5");
    halts_with("4 2 /", "", "2.0");
    halts_with("1 0 /", "", "inf");
    halts_with("0 0 / dup =", "", "false");
}

#[test]
fn run_float_coercion() {
    halts_with("1.0 1 +", "", "2.0");
    halts_with("1 1.5 +", "", "2.5");
    halts_with("3 0.5 -", "", "2.5");
    halts_with("1.5 2 *", "", "3.0");
    halts_with("3 5 -", "", "-2");
    halts_with("0.1 0.2 +", "", "0.30000000000000004");
}

#[test]
fn run_float_task_names_the_operation() {
    let program = compile("1.5 2 +");
    let mut machine = Machine::new(Vec::new());
    let expected = FloatTask { op: ArithOp::Add, left: 1.5f64.to_bits(), right: 2.0f64.to_bits() };
    assert_eq!(run(&program, &mut machine, 100), Signal::Float(expected));
    assert_eq!(machine.ip, 2);
    assert_eq!(show_all(&machine.stack), "1.5 2");
    assert_eq!(run(&program, &mut machine, 100), Signal::Float(expected));
    assert!(resume(&program, &mut machine, 3.5f64.to_bits()));
    assert_eq!(machine.ip, 3);
    assert_eq!(show_all(&machine.stack), "3.5");
    assert!(!resume(&program, &mut machine, 0));
    assert_eq!(run(&program, &mut machine, 100), Signal::Halt);
}

#[test]
fn resume_is_refused_where_nothing_is_awaited() {
    let program = compile("1 2 + 1.5");
    let mut machine = Machine::new(Vec::new());
    assert!(!resume(&program, &mut machine, 7));
    assert_eq!(machine.ip, 0);
    assert_eq!(run(&program, &mut machine, 2), Signal::Continue);
    assert_eq!(machine.ip, 2);
    assert!(!resume(&program, &mut machine, 7));
    assert_eq!(show_all(&machine.stack), "1 2");
    assert_eq!(run(&program, &mut machine, 100), Signal::Halt);
    assert!(!resume(&program, &mut machine, 7));
    assert_eq!(show_all(&machine.stack), "3 1.5");
}

#[test]
fn run_comparisons() {
    halts_with("3 2 > 2 3 > 2 2 >", "", "true false false");
    halts_with("3 2 < 2 3 < 2 2 <", "", "false true false");
    halts_with("3 2 >= 2 3 >= 2 2 >=", "", "true false true");
    halts_with("3 2 <= 2 3 <= 2 2 <=", "", "false true true");
    halts_with("3 2 = 2 2 = 2 2.0 = 2.5 2 =", "", "false true true false");
    halts_with("1.5 2 < 2 1.5 < 2.5 2.5 >=", "", "true false true");
    halts_with("nan nan = nan 1 < nan 1 >= 1 nan <=", "", "false false false false");
    halts_with("9007199254740993 9007199254740992.0 =", "", "true");
}

#[test]
fn run_stack_words() {
    halts_with("1 dup", "", "1 1");
    halts_with("1 2 swap", "", "2 1");
    halts_with("1 2 drop", "", "1");
    halts_with("1 \"x\" drop", "", "1");
    halts_with("[1 2] true drop drop", "", "");
    halts_with("1 2 over", "", "1 2 1");
    halts_with("1 2 3 rotate", "", "2 3 1");
    halts_with("0 1 2 3 rotate", "", "0 2 3 1");
    halts_with("\"a\" [1] swap dup", "", "[1] \"a\" \"a\"");
}

#[test]
fn run_stack_word_errors() {
    faults_with("dup", RuntimeError::StackUnderflow);
    faults_with("1 swap", RuntimeError::StackUnderflow);
    faults_with("drop", RuntimeError::StackUnderflow);
    faults_with("1 over", RuntimeError::StackUnderflow);
    faults_with("1 2 rotate", RuntimeError::StackUnderflow);
    faults_with("out", RuntimeError::StackUnderflow);
}

#[test]
fn run_arithmetic_errors() {
    faults_with("1 +", RuntimeError::StackUnderflow);
    faults_with("\"a\" +", RuntimeError::TypeMismatch);
    faults_with("\"a\" 1 +", RuntimeError::TypeMismatch);
    faults_with("1 \"a\" -", RuntimeError::TypeMismatch);
    faults_with("true 1 *", RuntimeError::TypeMismatch);
    faults_with("[1] 1 /", RuntimeError::TypeMismatch);
    faults_with("\"a\" \"a\" =", RuntimeError::TypeMismatch);
    faults_with("1 <", RuntimeError::StackUnderflow);
    faults_with("1.5 /", RuntimeError::StackUnderflow);
}

#[test]
fn run_index() {
    halts_with("[10 20 30] 0 idx", "", "10");
    halts_with("[10 20 30] 2 idx", "", "30");
    halts_with("[1 [2 \"x\"]] 1 idx 1 idx", "", "\"x\"");
    faults_with("[10 20 30] 3 idx", RuntimeError::IndexOutOfRange);
    faults_with("[10 20 30] -1 idx", RuntimeError::IndexOutOfRange);
    faults_with("[] 0 idx", RuntimeError::IndexOutOfRange);
    faults_with("[10] 0.0 idx", RuntimeError::TypeMismatch);
    faults_with("[10] \"0\" idx", RuntimeError::TypeMismatch);
    faults_with("5 0 idx", RuntimeError::TypeMismatch);
    faults_with("0 idx", RuntimeError::StackUnderflow);
    faults_with("idx", RuntimeError::StackUnderflow);
}

#[test]
fn run_literals_push_values() {
    halts_with("1 1.5 true \"s\" [1 [2.5 \"t\"] false]", "", "1 1.5 true \"s\" [1 [2.5 \"t\"] false]");
    halts_with("[1 2] dup out out", "[1 2] [1 2]", "");
}

#[test]
fn run_variables() {
    halts_with("defvar x !x", "", "null");
    halts_with("defvar x 5 @x !x !x +", "", "10");
    halts_with("defvar x 1 @x defvar x !x", "", "null");
    halts_with("defvar x defvar y 1 @x 2 @y !x !y -", "", "-1");
    halts_with("defvar x \"a\" @x [1] @x !x", "", "[1]");
    faults_with("!x", RuntimeError::UninitializedVariable);
    faults_with("5 @x", RuntimeError::UninitializedVariable);
    faults_with("@x", RuntimeError::UninitializedVariable);
    faults_with("defvar x @x", RuntimeError::StackUnderflow);
}

#[test]
fn run_falsy_values() {
    for falsy in ["0", "0.0", "-0.0", "false", "\"\"", "defvar n !n"] {
        halts_with(&format!("{} if 1 else 2 end", falsy), "", "2");
    }
    for truthy in ["1", "-1", "0.5", "nan", "true", "\"a\"", "\" \"", "[]", "[0]"] {
        halts_with(&format!("{} if 1 else 2 end", truthy), "", "1");
    }
}

#[test]
fn run_if_without_else() {
    halts_with("0 if 1 out end 2 out", "2", "");
    halts_with("1 if 1 out end 2 out", "1 2", "");
    halts_with("7 0 if drop 8 end", "", "7");
    faults_with("if 1 end", RuntimeError::StackUnderflow);
}

#[test]
fn run_if_steps_land_where_the_compiler_says() {
    let program = compile("0 if 1 out end 2");
    let mut machine = Machine::new(Vec::new());
    assert_eq!(step(&program, &mut machine), Signal::Continue);
    assert_eq!(machine.ip, 1);
    assert_eq!(step(&program, &mut machine), Signal::Continue);
    assert_eq!(machine.ip, 4);
    assert!(machine.stack.is_empty());
    assert_eq!(step(&program, &mut machine), Signal::Continue);
    assert_eq!(machine.ip, 5);
    let mut machine = Machine::new(vec![Type::Boolean(true)]);
    machine.ip = 1;
    assert_eq!(step(&program, &mut machine), Signal::Continue);
    assert_eq!(machine.ip, 2);
    assert!(machine.stack.is_empty());
}

#[test]
fn run_else_if_chain() {
    let source = |n: i64| {
        format!("{} dup 1 = if \"one\" else dup 2 = if* \"two\" else dup 3 = if* \"three\" else \"many\" end out drop", n)
    };
    halts_with(&source(1), "\"one\"", "");
    halts_with(&source(2), "\"two\"", "");
    halts_with(&source(3), "\"three\"", "");
    halts_with(&source(4), "\"many\"", "");
}

#[test]
fn run_while_loop() {
    halts_with("0 while dup 3 < do dup out 1 + end", "0 1 2", "3");
    halts_with("while 0 do 1 out end 2 out", "2", "");
    halts_with("1 while dup 100 < do 2 * end", "", "128");
    halts_with("3 while dup do 1 - end", "", "0");
}

#[test]
fn run_nested_loops() {
    halts_with(
        "0 while dup 3 < do 0 while dup 2 < do over out dup out 1 + end drop 1 + end drop",
        "0 0 0 1 1 0 1 1 2 0 2 1",
        "",
    );
}

#[test]
fn run_endless_loop_uses_up_its_steps() {
    let program = compile("while 1 do end");
    let mut machine = Machine::new(Vec::new());
    assert_eq!(run(&program, &mut machine, 1000), Signal::Continue);
    assert!(machine.ip < program.len());
    assert_eq!(run(&program, &mut machine, 0), Signal::Continue);
}

#[test]
fn run_counts_steps() {
    let program = compile("1 2 3");
    let mut machine = Machine::new(Vec::new());
    assert_eq!(run(&program, &mut machine, 2), Signal::Continue);
    assert_eq!(machine.ip, 2);
    assert_eq!(show_all(&machine.stack), "1 2");
    assert_eq!(run(&program, &mut machine, 2), Signal::Continue);
    assert_eq!(machine.ip, 4);
    assert_eq!(run(&program, &mut machine, 2), Signal::Halt);
    assert_eq!(show_all(&machine.stack), "1 2 3");
}

#[test]
fn run_word_call_is_like_its_body_inline() {
    halts_with("defword double 2 * return 4 double out", "8", "");
    halts_with("4 2 * out", "8", "");
    halts_with("defword sq dup * return 3 sq sq", "", "81");
    halts_with("3 dup * dup *", "", "81");
    halts_with(
        "defword abs dup 0 < if -1 * end return -5 abs 7 abs",
        "",
        "5 7",
    );
}

#[test]
fn run_word_body_is_skipped_where_it_is_defined() {
    halts_with("1 out defword f 2 out return 3 out", "1 3", "");
}

#[test]
fn run_words_call_words() {
    halts_with(
        "defword inc 1 + return defword inc2 inc inc return 5 inc2 out",
        "7",
        "",
    );
}

#[test]
fn run_recursion() {
    halts_with(
        "defword countdown dup out dup if 1 - countdown end return 3 countdown drop",
        "3 2 1 0",
        "",
    );
    halts_with(
        "defword fact dup 1 > if dup 1 - fact * end return 10 fact",
        "",
        "3628800",
    );
}

#[test]
fn run_return_without_call_is_an_error() {
    let program = vec![Op::Return, Op::EndOfProgram];
    let mut machine = Machine::new(Vec::new());
    assert_eq!(run(&program, &mut machine, 10), Signal::Fault(RuntimeError::ReturnStackUnderflow));
}

#[test]
fn run_stops_where_the_pointer_leaves_the_program() {
    let program = vec![Op::PushInteger(1), Op::End(7), Op::PushInteger(2)];
    let mut machine = Machine::new(Vec::new());
    assert_eq!(run(&program, &mut machine, 10), Signal::Halt);
    assert_eq!(machine.ip, 7);
    assert_eq!(show_all(&machine.stack), "1");
    let empty: Vec<Op> = Vec::new();
    let mut machine = Machine::new(Vec::new());
    assert_eq!(step(&empty, &mut machine), Signal::Halt);
}

#[test]
fn run_keeps_the_stack_between_programs() {
    let first = compile("1 2");
    let mut machine = Machine::new(Vec::new());
    assert_eq!(drive(&first, &mut machine, 100), Signal::Halt);
    let second = compile("+ out");
    let mut machine = Machine::new(machine.stack);
    assert_eq!(drive(&second, &mut machine, 100), Signal::Halt);
    assert_eq!(show_all(&machine.output), "3");
    assert!(machine.stack.is_empty());
}

#[test]
fn run_source_with_comments() {
    let source = remove_comments("1 2 + // three\nout // print it\n");
    halts_with(&source, "3", "");
}

#[test]
fn machine_new_starts_at_the_first_instruction() {
    let machine = Machine::new(vec![Type::Null]);
    assert_eq!(machine.ip, 0);
    assert_eq!(machine.stack.len(), 1);
    assert!(machine.returns.is_empty());
    assert!(machine.output.is_empty());
    assert!(machine.vars.entries.is_empty());
}

#[test]
fn call_pushes_the_return_address() {
    let program = compile("defword f return f 1");
    let mut machine = Machine::new(Vec::new());
    assert_eq!(step(&program, &mut machine), Signal::Continue);
    assert_eq!(machine.ip, 2);
    assert_eq!(step(&program, &mut machine), Signal::Continue);
    assert_eq!(machine.ip, 1);
    assert_eq!(machine.returns, vec![3]);
    assert_eq!(step(&program, &mut machine), Signal::Continue);
    assert_eq!(machine.ip, 3);
    assert!(machine.returns.is_empty());
}

#[test]
fn loop_keeps_to_its_rounds() {
    let program = compile("0 while dup 3 < do 1 + end");
    let (first, at_do, last, exit) = (1usize, 5usize, 8usize, 9usize);
    assert!(matches!(program[first], Op::While));
    assert!(matches!(program[at_do], Op::Do(t) if t == exit));
    assert!(matches!(program[last], Op::End(t) if t == first));
    let length = last - first + 1;
    let offset_of_do = at_do - first;
    let mut machine = Machine::new(Vec::new());
    assert_eq!(step(&program, &mut machine), Signal::Continue);
    assert_eq!(machine.ip, first);
    let rounds = 4;
    let mut evaluations = 0;
    let mut bodies = 0;
    let through = (rounds - 1) * length + offset_of_do;
    for m in 0..=through {
        assert_eq!(machine.ip, first + m % length, "step {}", m);
        if machine.ip == at_do {
            evaluations += 1;
            let truthy = !forth_vm::types::is_falsy(machine.stack[machine.stack.len() - 1].duplicate());
            assert_eq!(truthy, evaluations < rounds);
        }
        if machine.ip == at_do + 1 {
            bodies += 1;
            assert_eq!(bodies, evaluations);
        }
        assert_eq!(step(&program, &mut machine), Signal::Continue);
    }
    assert_eq!(machine.ip, exit);
    assert_eq!(evaluations, rounds);
    assert_eq!(bodies, rounds - 1);
    assert_eq!(show_all(&machine.stack), "3");
}

#[test]
fn loop_with_a_truthy_condition_stays_inside() {
    let program = compile("while 1 do 2 drop end");
    let (first, last) = (0usize, 5usize);
    assert!(matches!(program[last], Op::End(t) if t == first));
    let mut machine = Machine::new(Vec::new());
    for m in 0..600 {
        assert_eq!(machine.ip, first + m % (last - first + 1));
        assert_eq!(step(&program, &mut machine), Signal::Continue);
    }
    assert!(machine.stack.is_empty());
}
