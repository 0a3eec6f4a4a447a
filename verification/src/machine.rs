//! The interpreter: a machine that executes a program one instruction at
//! a time.
//!
//! The machine never computes with floating-point numbers. Where an
//! instruction needs the sum, difference, product or quotient of two such
//! numbers, the machine stops in front of it and names the operation; the
//! caller performs it and hands the result to [`resume`].

use crate::compiler::{Instr, Op};
use crate::operations::{
    arith_effect, below, compare_effect, drop_effect, dup_effect, index_effect, operands,
    out_effect, over_effect, place, rotate_effect, settle, swap_effect, top, Effect, OP_ADD,
    OP_DIV, OP_DROP, OP_DUP, OP_EQ, OP_GT, OP_GTEQ, OP_INDEX, OP_LT, OP_LTEQ, OP_MUL, OP_OUT,
    OP_OVER, OP_ROTATE, OP_SUB, OP_SWAP,
};
use crate::table::Table;
use crate::types::{
    duplicate_all, falsy, is_falsy, lemma_list_view, Arith, ArithOp, FloatTask, Num, Relation,
    RuntimeError, Type, Value,
};
use vstd::prelude::*;

verus! {

/// A machine: the index of the next instruction, the operand stack, the
/// stack of return addresses, the variables, and the values emitted so far.
pub struct Machine {
    pub ip: usize,
    pub stack: Vec<Type>,
    pub returns: Vec<usize>,
    pub vars: Table<Type>,
    pub output: Vec<Type>,
}

/// The mathematical model of a [`Machine`].
pub ghost struct State {
    pub ip: usize,
    pub stack: Seq<Value>,
    pub returns: Seq<usize>,
    pub vars: Map<Seq<char>, Value>,
    pub output: Seq<Value>,
}

/// What the machine tells its caller after a step.
#[derive(Clone, Copy, Debug, PartialEq, Eq, Structural)]
pub enum Signal {
    /// The instruction was executed; the next one can follow.
    Continue,
    /// The program has ended.
    Halt,
    /// The next instruction needs the result of this binary64 operation.
    Float(FloatTask),
    /// The next instruction cannot be executed.
    Fault(RuntimeError),
}

/// What a step makes of a state.
pub ghost enum Next {
    Running(State),
    Halted,
    Awaiting(FloatTask),
    Failed(RuntimeError),
}

/// The models of the values of a dictionary.
pub open spec fn models(vars: Map<Seq<char>, Type>) -> Map<Seq<char>, Value> {
    Map::new(|k: Seq<char>| vars.contains_key(k), |k: Seq<char>| vars[k].deep_view())
}

/// `s` with the next instruction in line and the stack `stack`.
pub open spec fn proceed(s: State, stack: Seq<Value>) -> State {
    State { ip: (s.ip + 1) as usize, stack, ..s }
}

/// `s` after a jump to `target`, with the stack `stack`.
pub open spec fn jump(s: State, target: usize, stack: Seq<Value>) -> State {
    State { ip: target, stack, ..s }
}

/// The step that ends with the stack that `effect` gives, or fails as it
/// does.
pub open spec fn onward(s: State, effect: Result<Seq<Value>, RuntimeError>) -> Next {
    match effect {
        Ok(stack) => Next::Running(proceed(s, stack)),
        Err(e) => Next::Failed(e),
    }
}

/// The step of an arithmetic instruction.
pub open spec fn arith_step(s: State, op: ArithOp) -> Next {
    match arith_effect(op, s.stack) {
        Effect::Stack(stack) => Next::Running(proceed(s, stack)),
        Effect::Float(task) => Next::Awaiting(task),
        Effect::Fault(e) => Next::Failed(e),
    }
}

/// The step of a conditional jump: the top value is popped; a falsy one
/// sends the machine to `target`, any other to the next instruction.
pub open spec fn branch_step(s: State, target: usize) -> Next {
    if s.stack.len() == 0 {
        Next::Failed(RuntimeError::StackUnderflow)
    } else if falsy(top(s.stack)) {
        Next::Running(jump(s, target, below(s.stack, 1)))
    } else {
        Next::Running(proceed(s, below(s.stack, 1)))
    }
}

/// The step of the instruction `op` in state `s` of a program of `len`
/// instructions.
pub open spec fn execute(op: Instr, s: State, len: nat) -> Next {
    match op {
        Instr::PushInteger(n) => Next::Running(
            proceed(s, s.stack.push(Value::Number(Num::Integer(n)))),
        ),
        Instr::PushFloat(bits) => Next::Running(
            proceed(s, s.stack.push(Value::Number(Num::Float(bits)))),
        ),
        Instr::PushStr(text) => Next::Running(proceed(s, s.stack.push(Value::Str(text)))),
        Instr::PushBool(b) => Next::Running(proceed(s, s.stack.push(Value::Boolean(b)))),
        Instr::PushList(items) => Next::Running(proceed(s, s.stack.push(Value::List(items)))),
        Instr::Add => arith_step(s, ArithOp::Add),
        Instr::Sub => arith_step(s, ArithOp::Sub),
        Instr::Mul => arith_step(s, ArithOp::Mul),
        Instr::Div => arith_step(s, ArithOp::Div),
        Instr::Eq => onward(s, compare_effect(Relation::Eq, s.stack)),
        Instr::Gt => onward(s, compare_effect(Relation::Gt, s.stack)),
        Instr::Lt => onward(s, compare_effect(Relation::Lt, s.stack)),
        Instr::Gteq => onward(s, compare_effect(Relation::Gteq, s.stack)),
        Instr::Lteq => onward(s, compare_effect(Relation::Lteq, s.stack)),
        Instr::Dup => onward(s, dup_effect(s.stack)),
        Instr::Swap => onward(s, swap_effect(s.stack)),
        Instr::Drop => onward(s, drop_effect(s.stack)),
        Instr::Over => onward(s, over_effect(s.stack)),
        Instr::Rotate => onward(s, rotate_effect(s.stack)),
        Instr::Out => match out_effect(s.stack) {
            Ok((stack, value)) => Next::Running(
                State { output: s.output.push(value), ..proceed(s, stack) },
            ),
            Err(e) => Next::Failed(e),
        },
        Instr::Index => onward(s, index_effect(s.stack)),
        Instr::Defvar(name) => Next::Running(
            State { vars: s.vars.insert(name, Value::Null), ..proceed(s, s.stack) },
        ),
        Instr::Writevar(name) => if !s.vars.contains_key(name) {
            Next::Failed(RuntimeError::UninitializedVariable)
        } else if s.stack.len() == 0 {
            Next::Failed(RuntimeError::StackUnderflow)
        } else {
            Next::Running(
                State { vars: s.vars.insert(name, top(s.stack)), ..proceed(s, below(s.stack, 1)) },
            )
        },
        Instr::Readvar(name) => if s.vars.contains_key(name) {
            Next::Running(proceed(s, s.stack.push(s.vars[name])))
        } else {
            Next::Failed(RuntimeError::UninitializedVariable)
        },
        Instr::If(target) => branch_step(s, target),
        Instr::Ifstar(target) => branch_step(s, target),
        Instr::Do(target) => branch_step(s, target),
        Instr::Else(target) => Next::Running(jump(s, target, s.stack)),
        Instr::End(target) => Next::Running(jump(s, target, s.stack)),
        Instr::Defword(target) => Next::Running(jump(s, target, s.stack)),
        Instr::While => Next::Running(proceed(s, s.stack)),
        Instr::Return => if s.returns.len() == 0 {
            Next::Failed(RuntimeError::ReturnStackUnderflow)
        } else {
            Next::Running(
                State {
                    returns: s.returns.drop_last(),
                    ..jump(s, s.returns.last(), s.stack)
                },
            )
        },
        Instr::Call(target) => Next::Running(
            State { returns: s.returns.push((s.ip + 1) as usize), ..jump(s, target, s.stack) },
        ),
        Instr::EndOfProgram => Next::Running(jump(s, len as usize, s.stack)),
    }
}

/// One step of `program` in state `s`: the program has ended where the
/// instruction pointer is past its last instruction; else the instruction
/// under the pointer is executed.
pub open spec fn step_of(program: Seq<Instr>, s: State) -> Next {
    if s.ip >= program.len() {
        Next::Halted
    } else {
        execute(program[s.ip as int], s, program.len())
    }
}

/// The state after the binary64 operation that the machine waits for gave
/// `bits`: the two operands give way to the result, and the next
/// instruction is in line. `None` where the machine does not wait for one.
pub open spec fn resumed(program: Seq<Instr>, s: State, bits: u64) -> Option<State> {
    if step_of(program, s) is Awaiting && s.stack.len() >= 2 {
        Some(proceed(s, below(s.stack, 2).push(Value::Number(Num::Float(bits)))))
    } else {
        None
    }
}

/// Where `fuel` steps from `s` lead, and why the run stopped there:
/// `Continue` where the steps are used up.
pub open spec fn run_of(program: Seq<Instr>, s: State, fuel: nat) -> (State, Signal)
    decreases fuel,
{
    if fuel == 0 {
        (s, Signal::Continue)
    } else {
        match step_of(program, s) {
            Next::Running(next) => run_of(program, next, (fuel - 1) as nat),
            Next::Halted => (s, Signal::Halt),
            Next::Awaiting(task) => (s, Signal::Float(task)),
            Next::Failed(e) => (s, Signal::Fault(e)),
        }
    }
}

/// Whether the signal `r` and the machine after the step say what `next`
/// says.
pub open spec fn stepped(next: Next, r: Signal, before: State, after: State) -> bool {
    match next {
        Next::Running(s) => r == Signal::Continue && after == s,
        Next::Halted => r == Signal::Halt && after == before,
        Next::Awaiting(task) => r == Signal::Float(task) && after == before,
        Next::Failed(e) => r == Signal::Fault(e) && after == before,
    }
}

impl Machine {
    /// The state that the machine is in.
    pub open spec fn view(&self) -> State {
        State {
            ip: self.ip,
            stack: self.stack.deep_view(),
            returns: self.returns@,
            vars: models(self.vars@),
            output: self.output.deep_view(),
        }
    }

    /// A machine at the start of a program, with the operand stack `stack`,
    /// no return address, no variable and nothing emitted.
    pub fn new(stack: Vec<Type>) -> (m: Machine)
        ensures
            m@ == (State {
                ip: 0,
                stack: stack.deep_view(),
                returns: Seq::empty(),
                vars: Map::empty(),
                output: Seq::empty(),
            }),
    {
        let m = Machine {
            ip: 0,
            stack,
            returns: Vec::new(),
            vars: Table::new(),
            output: Vec::new(),
        };
        assert(m@.vars =~= Map::<Seq<char>, Value>::empty());
        assert(m@.output =~= Seq::<Value>::empty());
        m
    }

    /// Pushes `value` and moves to the next instruction.
    fn push(&mut self, value: Type)
        requires
            old(self).ip < usize::MAX,
        ensures
            final(self)@ == proceed(old(self)@, old(self)@.stack.push(value.deep_view())),
    {
        place(&mut self.stack, value);
        self.ip = self.ip + 1;
    }

    /// Moves to the next instruction if `r` is no error.
    fn onward(&mut self, r: Result<(), RuntimeError>, Ghost(before): Ghost<State>) -> (signal:
        Signal)
        requires
            old(self).ip < usize::MAX,
            old(self)@.ip == before.ip,
            old(self)@.returns == before.returns,
            old(self)@.vars == before.vars,
            old(self)@.output == before.output,
            r is Err ==> old(self)@ == before,
        ensures
            match r {
                Ok(_) => signal == Signal::Continue && final(self)@ == proceed(
                    before,
                    old(self)@.stack,
                ),
                Err(e) => signal == Signal::Fault(e) && final(self)@ == before,
            },
    {
        match r {
            Ok(()) => {
                self.ip = self.ip + 1;
                Signal::Continue
            },
            Err(e) => Signal::Fault(e),
        }
    }

    /// Executes an arithmetic instruction.
    fn arith(&mut self, op: ArithOp) -> (signal: Signal)
        requires
            old(self).ip < usize::MAX,
        ensures
            stepped(arith_step(old(self)@, op), signal, old(self)@, final(self)@),
    {
        let r = match op {
            ArithOp::Add => OP_ADD(&mut self.stack),
            ArithOp::Sub => OP_SUB(&mut self.stack),
            ArithOp::Mul => OP_MUL(&mut self.stack),
            ArithOp::Div => OP_DIV(&mut self.stack),
        };
        match r {
            Ok(None) => {
                self.ip = self.ip + 1;
                Signal::Continue
            },
            Ok(Some(task)) => Signal::Float(task),
            Err(e) => Signal::Fault(e),
        }
    }

    /// Executes a conditional jump to `target`.
    fn branch(&mut self, target: usize) -> (signal: Signal)
        requires
            old(self).ip < usize::MAX,
        ensures
            stepped(branch_step(old(self)@, target), signal, old(self)@, final(self)@),
    {
        match OP_OUT(&mut self.stack) {
            Err(e) => Signal::Fault(e),
            Ok(x) => {
                if is_falsy(x) {
                    self.ip = target;
                } else {
                    self.ip = self.ip + 1;
                }
                Signal::Continue
            },
        }
    }

    /// Executes `out`.
    fn emit(&mut self) -> (signal: Signal)
        requires
            old(self).ip < usize::MAX,
        ensures
            stepped(
                execute(Instr::Out, old(self)@, 0),
                signal,
                old(self)@,
                final(self)@,
            ),
    {
        match OP_OUT(&mut self.stack) {
            Err(e) => Signal::Fault(e),
            Ok(x) => {
                place(&mut self.output, x);
                self.ip = self.ip + 1;
                Signal::Continue
            },
        }
    }

    /// Executes `defvar name`.
    fn define(&mut self, name: &String) -> (signal: Signal)
        requires
            old(self).ip < usize::MAX,
        ensures
            stepped(
                execute(Instr::Defvar(name@), old(self)@, 0),
                signal,
                old(self)@,
                final(self)@,
            ),
    {
        self.vars.insert(name.clone(), Type::Null);
        self.ip = self.ip + 1;
        assert(self@.vars =~= old(self)@.vars.insert(name@, Value::Null));
        Signal::Continue
    }

    /// Executes `@name`.
    fn write(&mut self, name: &String) -> (signal: Signal)
        requires
            old(self).ip < usize::MAX,
        ensures
            stepped(
                execute(Instr::Writevar(name@), old(self)@, 0),
                signal,
                old(self)@,
                final(self)@,
            ),
    {
        if self.vars.get(name.as_str()).is_none() {
            return Signal::Fault(RuntimeError::UninitializedVariable);
        }
        match OP_OUT(&mut self.stack) {
            Err(e) => Signal::Fault(e),
            Ok(x) => {
                self.vars.insert(name.clone(), x);
                self.ip = self.ip + 1;
                assert(self@.vars =~= old(self)@.vars.insert(name@, x.deep_view()));
                Signal::Continue
            },
        }
    }

    /// Executes `!name`.
    fn read(&mut self, name: &String) -> (signal: Signal)
        requires
            old(self).ip < usize::MAX,
        ensures
            stepped(
                execute(Instr::Readvar(name@), old(self)@, 0),
                signal,
                old(self)@,
                final(self)@,
            ),
    {
        let value = match self.vars.get(name.as_str()) {
            None => {
                return Signal::Fault(RuntimeError::UninitializedVariable);
            },
            Some(v) => v.duplicate(),
        };
        self.push(value);
        Signal::Continue
    }

    /// Executes `return`.
    fn go_back(&mut self) -> (signal: Signal)
        ensures
            stepped(
                execute(Instr::Return, old(self)@, 0),
                signal,
                old(self)@,
                final(self)@,
            ),
    {
        match self.returns.pop() {
            None => Signal::Fault(RuntimeError::ReturnStackUnderflow),
            Some(address) => {
                self.ip = address;
                Signal::Continue
            },
        }
    }
}

/// Executes the instruction under the instruction pointer.
///
/// A machine that cannot go on is left as it was: at the end of the
/// program, in front of an instruction that needs a binary64 operation, or
/// in front of one that fails.
pub fn step(program: &Vec<Op>, m: &mut Machine) -> (signal: Signal)
    ensures
        stepped(step_of(program.deep_view(), old(m)@), signal, old(m)@, final(m)@),
{
    if m.ip >= program.len() {
        return Signal::Halt;
    }
    let ghost before = m@;
    match &program[m.ip] {
        Op::PushInteger(n) => {
            m.push(Type::Number(Num::Integer(*n)));
            Signal::Continue
        },
        Op::PushFloat(bits) => {
            m.push(Type::Number(Num::Float(*bits)));
            Signal::Continue
        },
        Op::PushStr(text) => {
            m.push(Type::Str(text.clone()));
            Signal::Continue
        },
        Op::PushBool(b) => {
            m.push(Type::Boolean(*b));
            Signal::Continue
        },
        Op::PushList(items) => {
            let copy = duplicate_all(items);
            proof {
                lemma_list_view(copy);
            }
            m.push(Type::List(copy));
            Signal::Continue
        },
        Op::Add => m.arith(ArithOp::Add),
        Op::Sub => m.arith(ArithOp::Sub),
        Op::Mul => m.arith(ArithOp::Mul),
        Op::Div => m.arith(ArithOp::Div),
        Op::Eq => {
            let r = OP_EQ(&mut m.stack);
            m.onward(r, Ghost(before))
        },
        Op::Gt => {
            let r = OP_GT(&mut m.stack);
            m.onward(r, Ghost(before))
        },
        Op::Lt => {
            let r = OP_LT(&mut m.stack);
            m.onward(r, Ghost(before))
        },
        Op::Gteq => {
            let r = OP_GTEQ(&mut m.stack);
            m.onward(r, Ghost(before))
        },
        Op::Lteq => {
            let r = OP_LTEQ(&mut m.stack);
            m.onward(r, Ghost(before))
        },
        Op::Dup => {
            let r = OP_DUP(&mut m.stack);
            m.onward(r, Ghost(before))
        },
        Op::Swap => {
            let r = OP_SWAP(&mut m.stack);
            m.onward(r, Ghost(before))
        },
        Op::Drop => {
            let r = OP_DROP(&mut m.stack);
            m.onward(r, Ghost(before))
        },
        Op::Over => {
            let r = OP_OVER(&mut m.stack);
            m.onward(r, Ghost(before))
        },
        Op::Rotate => {
            let r = OP_ROTATE(&mut m.stack);
            m.onward(r, Ghost(before))
        },
        Op::Out => m.emit(),
        Op::Index => {
            let r = OP_INDEX(&mut m.stack);
            m.onward(r, Ghost(before))
        },
        Op::Defvar(name) => m.define(name),
        Op::Writevar(name) => m.write(name),
        Op::Readvar(name) => m.read(name),
        Op::If(target) => m.branch(*target),
        Op::Ifstar(target) => m.branch(*target),
        Op::Do(target) => m.branch(*target),
        Op::Else(target) => {
            m.ip = *target;
            Signal::Continue
        },
        Op::End(target) => {
            m.ip = *target;
            Signal::Continue
        },
        Op::Defword(target) => {
            m.ip = *target;
            Signal::Continue
        },
        Op::While => {
            m.ip = m.ip + 1;
            Signal::Continue
        },
        Op::Return => m.go_back(),
        Op::Call(target) => {
            m.returns.push(m.ip + 1);
            m.ip = *target;
            Signal::Continue
        },
        Op::EndOfProgram => {
            m.ip = program.len();
            Signal::Continue
        },
    }
}

/// Hands the machine the result `bits` of the binary64 operation that it
/// waits for. Returns `false`, and leaves the machine as it is, where it
/// does not wait for one.
pub fn resume(program: &Vec<Op>, m: &mut Machine, bits: u64) -> (r: bool)
    ensures
        match resumed(program.deep_view(), old(m)@, bits) {
            Some(s) => r && final(m)@ == s,
            None => !r && final(m)@ == old(m)@,
        },
{
    if m.ip >= program.len() {
        return false;
    }
    let op = match &program[m.ip] {
        Op::Add => ArithOp::Add,
        Op::Sub => ArithOp::Sub,
        Op::Mul => ArithOp::Mul,
        Op::Div => ArithOp::Div,
        _ => {
            return false;
        },
    };
    let waiting = match operands(&m.stack) {
        Err(_) => false,
        Ok((left, right)) => match left.combine(op, right) {
            Arith::Exact(_) => false,
            Arith::Deferred(_) => true,
        },
    };
    if !waiting {
        return false;
    }
    let r = settle(&mut m.stack, bits);
    m.ip = m.ip + 1;
    true
}

/// Runs the machine for at most `fuel` steps, and tells why it stopped:
/// `Continue` where the steps are used up. Any other signal leaves the
/// machine in front of the instruction that it could not execute.
pub fn run(program: &Vec<Op>, m: &mut Machine, fuel: usize) -> (signal: Signal)
    ensures
        (final(m)@, signal) == run_of(program.deep_view(), old(m)@, fuel as nat),
{
    let mut left: usize = fuel;
    while left > 0
        invariant
            run_of(program.deep_view(), old(m)@, fuel as nat) == run_of(
                program.deep_view(),
                m@,
                left as nat,
            ),
        decreases left,
    {
        let signal = step(program, m);
        match signal {
            Signal::Continue => {
                left -= 1;
            },
            _ => {
                return signal;
            },
        }
    }
    Signal::Continue
}

} // verus!
