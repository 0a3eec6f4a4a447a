//! How control moves through a compiled program: what `if`, a loop and a
//! call do when the machine executes them.

use crate::compiler::{compiled, CompileError, Instr};
use crate::lexer::Lexeme;
use crate::machine::{jump, proceed, run_of, step_of, Next, Signal, State};
use crate::operations::{below, top};
use crate::structure::{
    enclosed, inside, lemma_compiled_resolved, loop_closed, resolved, settled,
};
use crate::types::{falsy, RuntimeError, Value};
use vstd::prelude::*;

verus! {

/// `if` without `else`.
///
/// Take a compiled program and an `If` in it that no `Else` closes: the
/// instruction before its target is not an `Else`. Then the target is the
/// `End` that closes the `If`, and it lies behind the `If`. With a falsy
/// value on top of the stack the machine pops it and goes from the `If` to
/// that `End` and from there to the instruction after it: nothing in between
/// is executed. With any other value on top the machine pops it and goes on
/// with the instruction after the `If`. Whenever the machine reaches the
/// `End`, it goes on with the instruction after it and leaves the stack
/// alone.
pub proof fn lemma_if_without_else(
    tokens: Seq<Lexeme>,
    floats: Map<Seq<char>, u64>,
    program: Seq<Instr>,
    s: State,
)
    requires
        tokens.len() <= usize::MAX,
        compiled(tokens, floats) == Ok::<Seq<Instr>, CompileError>(program),
        s.ip < program.len(),
        program[s.ip as int] is If,
        !(program[program[s.ip as int]->If_0 - 1] is Else),
        s.stack.len() > 0,
    ensures
        ({
            let t = program[s.ip as int]->If_0;
            let skipped = jump(s, t, below(s.stack, 1));
            &&& s.ip < t < program.len()
            &&& program[t as int] == Instr::End((t + 1) as usize)
            &&& falsy(top(s.stack)) ==> step_of(program, s) == Next::Running(skipped) && step_of(
                program,
                skipped,
            ) == Next::Running(jump(skipped, (t + 1) as usize, skipped.stack))
            &&& !falsy(top(s.stack)) ==> step_of(program, s) == Next::Running(
                proceed(s, below(s.stack, 1)),
            ) && s.ip + 1 <= t
            &&& forall|e: State|
                e.ip == t ==> #[trigger] step_of(program, e) == Next::Running(
                    jump(e, (t + 1) as usize, e.stack),
                )
        }),
{
    lemma_compiled_resolved(tokens, floats);
    assert(settled(program, s.ip as int));
}

/// A loop.
///
/// Take a compiled program and a `Do` in it. Its target follows the `End`
/// that closes the loop, that `End` jumps back to the loop's `While`, and
/// the `While` stands before the `Do`. From the `Do` the machine pops the
/// value of the condition and leaves the loop, for the instruction after the
/// `End`, exactly when that value is falsy; else it enters the body. From
/// the `End` it goes back to the `While`, and from there into the code of
/// the condition, so that the condition is evaluated again before the body
/// is.
pub proof fn lemma_loop(
    tokens: Seq<Lexeme>,
    floats: Map<Seq<char>, u64>,
    program: Seq<Instr>,
    s: State,
)
    requires
        tokens.len() <= usize::MAX,
        compiled(tokens, floats) == Ok::<Seq<Instr>, CompileError>(program),
        s.ip < program.len(),
        program[s.ip as int] is Do,
        s.stack.len() > 0,
    ensures
        ({
            let exit = program[s.ip as int]->Do_0;
            let end = exit - 1;
            let start = program[end]->End_0;
            &&& start < s.ip < end < exit < program.len()
            &&& program[end] == Instr::End(start)
            &&& program[start as int] is While
            &&& step_of(program, s) == Next::Running(
                if falsy(top(s.stack)) {
                    jump(s, exit, below(s.stack, 1))
                } else {
                    proceed(s, below(s.stack, 1))
                },
            )
            &&& step_of(program, s)->Running_0.ip == exit <==> falsy(top(s.stack))
            &&& forall|e: State|
                e.ip == end ==> #[trigger] step_of(program, e) == Next::Running(
                    jump(e, start, e.stack),
                )
            &&& forall|e: State|
                e.ip == start ==> #[trigger] step_of(program, e) == Next::Running(
                    proceed(e, e.stack),
                )
        }),
{
    lemma_compiled_resolved(tokens, floats);
    assert(settled(program, s.ip as int));
}

/// A call and the return from it.
///
/// Take a compiled program and a `Call` in it. Its target follows a
/// `Defword`, whose own target follows the `Return` that closes the word.
/// From the `Call` the machine goes to the first instruction of the word's
/// body, with the address of the instruction after the `Call` on top of the
/// return stack and the operand stack as it was. From the word's `Return`,
/// with that address on top of the return stack, the machine goes on with
/// the instruction after the `Call`; the return stack is as it was before
/// the call, and the operand stack as the body left it. Where the machine
/// reaches the `Defword` itself, it goes past the `Return`: the body is
/// executed only when it is called.
pub proof fn lemma_call_and_return(
    tokens: Seq<Lexeme>,
    floats: Map<Seq<char>, u64>,
    program: Seq<Instr>,
    s: State,
)
    requires
        tokens.len() <= usize::MAX,
        compiled(tokens, floats) == Ok::<Seq<Instr>, CompileError>(program),
        s.ip < program.len(),
        program[s.ip as int] is Call,
    ensures
        ({
            let body = program[s.ip as int]->Call_0;
            let past = program[body - 1]->Defword_0;
            let back = (s.ip + 1) as usize;
            &&& 1 <= body < past < program.len()
            &&& program[body - 1] is Defword
            &&& program[past - 1] is Return
            &&& step_of(program, s) == Next::Running(
                State { ip: body, returns: s.returns.push(back), ..s },
            )
            &&& forall|e: State|
                e.ip == past - 1 && e.returns == s.returns.push(back) ==> #[trigger] step_of(
                    program,
                    e,
                ) == Next::Running(State { ip: back, returns: s.returns, ..e })
            &&& forall|e: State|
                e.ip == body - 1 ==> #[trigger] step_of(program, e) == Next::Running(
                    jump(e, past, e.stack),
                )
        }),
{
    lemma_compiled_resolved(tokens, floats);
    assert(settled(program, s.ip as int));
    let body = program[s.ip as int]->Call_0;
    assert(settled(program, body - 1));
    let back = (s.ip + 1) as usize;
    assert forall|e: State|
        e.ip == program[body - 1]->Defword_0 - 1 && e.returns == s.returns.push(
            back,
        ) implies #[trigger] step_of(program, e) == Next::Running(
        State { ip: back, returns: s.returns, ..e },
    ) by {
        assert(e.returns.drop_last() =~= s.returns);
    }
}

/// `s` with the return addresses `base` below its own.
pub open spec fn above(base: Seq<usize>, s: State) -> State {
    State { returns: base + s.returns, ..s }
}

/// What a step makes of a state that has the return addresses `base` below
/// its own, given what it makes of the state without them.
pub open spec fn next_above(base: Seq<usize>, next: Next) -> Next {
    match next {
        Next::Running(s) => Next::Running(above(base, s)),
        other => other,
    }
}

/// A step does not depend on what lies deeper in the return stack: unless it
/// fails for want of a return address, it does the same with any return
/// addresses below those of the state, and leaves them alone.
pub proof fn lemma_step_above(program: Seq<Instr>, s: State, base: Seq<usize>)
    requires
        step_of(program, s) != Next::Failed(RuntimeError::ReturnStackUnderflow),
    ensures
        step_of(program, above(base, s)) == next_above(base, step_of(program, s)),
{
    if s.ip < program.len() {
        match program[s.ip as int] {
            Instr::Return => {
                assert(s.returns.len() > 0);
                assert((base + s.returns).drop_last() =~= base + s.returns.drop_last());
                assert((base + s.returns).last() == s.returns.last());
            },
            Instr::Call(target) => {
                let back = (s.ip + 1) as usize;
                assert((base + s.returns).push(back) =~= base + s.returns.push(back));
            },
            _ => {},
        }
    }
}

/// A call does what the body of the word does, wherever it is called from.
///
/// A run does not depend on what lies deeper in the return stack: unless it
/// ends for want of a return address, a run of the same number of steps from
/// the same state with any return addresses `base` below its own ends for
/// the same reason, in the same state with `base` below its return
/// addresses. So the body of a word, entered from two calls, does the same
/// to the operand stack, to the variables and to what is emitted, up to the
/// `Return` that takes each run back to its own call.
pub proof fn lemma_run_above(program: Seq<Instr>, s: State, base: Seq<usize>, fuel: nat)
    requires
        run_of(program, s, fuel).1 != Signal::Fault(RuntimeError::ReturnStackUnderflow),
    ensures
        run_of(program, above(base, s), fuel) == (
            above(base, run_of(program, s, fuel).0),
            run_of(program, s, fuel).1,
        ),
    decreases fuel,
{
    if fuel > 0 {
        lemma_step_above(program, s, base);
        if let Next::Running(next) = step_of(program, s) {
            lemma_run_above(program, next, base, (fuel - 1) as nat);
        }
    }
}

/// A run of `first + second` steps is a run of `first` steps and, where
/// that one used up its steps, a run of `second` steps from where it ended.
pub proof fn lemma_run_split(program: Seq<Instr>, s: State, first: nat, second: nat)
    ensures
        run_of(program, s, first + second) == if run_of(program, s, first).1
            == Signal::Continue {
            run_of(program, run_of(program, s, first).0, second)
        } else {
            run_of(program, s, first)
        },
    decreases first,
{
    if first > 0 {
        if let Next::Running(next) = step_of(program, s) {
            lemma_run_split(program, next, (first - 1) as nat, second);
            assert(run_of(program, s, first + second) == run_of(
                program,
                next,
                (first + second - 1) as nat,
            ));
        }
    } else if second == 0 {
    } else {
        match step_of(program, s) {
            Next::Running(next) => {},
            _ => {},
        }
    }
}

/// A call does what the body does, and then the program goes on after the
/// call.
///
/// Take a `Call` and a run of the word's body on its own: `steps` steps from
/// the first instruction of the body, in the state of the call but with an
/// empty return stack, that arrive at a `Return` with the return stack empty
/// again. Then `steps + 2` steps from the call lead to the instruction after
/// the call, with the return stack of the call, and with the operand stack,
/// the variables and the output as the body's own run left them.
pub proof fn lemma_call_runs_body(program: Seq<Instr>, s: State, steps: nat)
    requires
        s.ip < program.len(),
        program.len() <= usize::MAX,
        program[s.ip as int] is Call,
        ({
            let entry = State {
                ip: program[s.ip as int]->Call_0,
                returns: Seq::empty(),
                ..s
            };
            let body = run_of(program, entry, steps);
            &&& body.1 == Signal::Continue
            &&& body.0.ip < program.len()
            &&& program[body.0.ip as int] is Return
            &&& body.0.returns.len() == 0
        }),
    ensures
        ({
            let entry = State {
                ip: program[s.ip as int]->Call_0,
                returns: Seq::empty(),
                ..s
            };
            let body = run_of(program, entry, steps);
            run_of(program, s, steps + 2) == (
                State { ip: (s.ip + 1) as usize, returns: s.returns, ..body.0 },
                Signal::Continue,
            )
        }),
{
    let back = (s.ip + 1) as usize;
    let entry = State { ip: program[s.ip as int]->Call_0, returns: Seq::empty(), ..s };
    let body = run_of(program, entry, steps).0;
    let base = s.returns.push(back);
    let called = State { ip: entry.ip, returns: base, ..s };
    assert(step_of(program, s) == Next::Running(called));
    assert(above(base, entry) == called) by {
        assert(base + Seq::<usize>::empty() =~= base);
    }
    lemma_run_above(program, entry, base, steps);
    let arrived = above(base, body);
    assert(arrived.returns =~= base);
    let after = State { ip: back, returns: s.returns, ..body };
    assert(step_of(program, arrived) == Next::Running(after)) by {
        assert(base.drop_last() =~= s.returns);
    }
    assert(run_of(program, arrived, 1) == (after, Signal::Continue)) by {
        assert(run_of(program, after, 0) == (after, Signal::Continue));
    }
    lemma_run_split(program, called, steps, 1);
    assert(run_of(program, s, steps + 2) == run_of(program, called, steps + 1));
}

/// Whether no instruction from `first` to `last` is a `Return`.
pub open spec fn returns_nothing(p: Seq<Instr>, first: int, last: int) -> bool {
    forall|x: int| first <= x <= last ==> !(#[trigger] p[x] is Return)
}

/// The index of the `End` that closes the loop of the `Do` at `d`.
pub open spec fn loop_last(p: Seq<Instr>, d: int) -> int {
    p[d]->Do_0 - 1
}

/// The index of the `While` that starts the loop of the `Do` at `d`.
pub open spec fn loop_first(p: Seq<Instr>, d: int) -> int {
    p[loop_last(p, d)]->End_0 as int
}

/// Whether the machine is inside the loop of the `Do` at `d`: between the
/// loop's `While` and its `End`, both included.
pub open spec fn in_loop(p: Seq<Instr>, d: int, s: State) -> bool {
    loop_first(p, d) <= s.ip <= loop_last(p, d)
}

/// Whether the machine is busy with the loop of the `Do` at `d`, which it
/// entered with the return stack `base`: it is inside the loop with that
/// return stack, or in a word that was called from inside the loop, or in a
/// word that such a word called.
pub open spec fn in_loop_or_called(p: Seq<Instr>, d: int, base: Seq<usize>, s: State) -> bool {
    ||| in_loop(p, d, s) && s.returns == base
    ||| s.returns.len() > base.len() && s.returns.take(base.len() as int) == base && loop_first(
        p,
        d,
    ) <= s.returns[base.len() as int] <= loop_last(p, d)
}

/// Whether the machine is at the `Do` at `d` with a falsy value on top of
/// the stack: the condition of the loop has come out falsy.
pub open spec fn condition_fails(d: int, s: State) -> bool {
    s.ip == d && s.stack.len() > 0 && falsy(top(s.stack))
}

/// Whether the step from `s` to `next` leaves the loop of the `Do` at `d`
/// by way of the `Do`, on a falsy value, for the instruction after the
/// loop, with the return stack `base`.
pub open spec fn leaves_by_do(p: Seq<Instr>, d: int, base: Seq<usize>, s: State, next: State) -> bool {
    &&& condition_fails(d, s)
    &&& s.returns == base
    &&& next.ip == p[d]->Do_0
    &&& next.returns == base
}

/// A step of a machine that is busy with a loop leaves it busy with the
/// loop, unless it is the step of the loop's `Do` on a falsy value, which
/// leads to the instruction after the loop. The loop may call words; it
/// may not hold the `Return` of a word that is defined inside it.
pub proof fn lemma_loop_step(program: Seq<Instr>, d: int, base: Seq<usize>, s: State)
    requires
        resolved(program),
        enclosed(program),
        0 <= d < program.len(),
        program[d] is Do,
        returns_nothing(program, loop_first(program, d), loop_last(program, d)),
        in_loop_or_called(program, d, base, s),
        step_of(program, s) is Running,
    ensures
        in_loop_or_called(program, d, base, step_of(program, s)->Running_0) || leaves_by_do(
            program,
            d,
            base,
            s,
            step_of(program, s)->Running_0,
        ),
{
    assert(settled(program, d));
    assert(loop_closed(program, d));
    let first = loop_first(program, d);
    let last = loop_last(program, d);
    let next = step_of(program, s)->Running_0;
    let depth = base.len() as int;
    assert(settled(program, s.ip as int));
    if in_loop(program, d, s) && s.returns == base {
        if s.ip != d {
            assert(inside(program[s.ip as int], first, last));
        }
        if program[s.ip as int] is Call {
            assert(next.returns.take(depth) =~= base);
            assert(next.returns[depth] == s.ip + 1);
        }
    } else {
        match program[s.ip as int] {
            Instr::Return => {
                if s.returns.len() == depth + 1 {
                    assert(s.returns.drop_last() =~= s.returns.take(depth));
                } else {
                    assert(s.returns.drop_last().take(depth) =~= s.returns.take(depth));
                }
            },
            Instr::Call(_) => {
                assert(next.returns.take(depth) =~= s.returns.take(depth));
            },
            _ => {},
        }
    }
}

/// A loop is left only because its condition has come out falsy.
///
/// Take a compiled program, a loop in it that holds no `Return`, and a run
/// that starts inside the loop and, after `steps` steps, all of them
/// executed, is no longer busy with it: neither inside the loop nor in a
/// word called from it. Then at some step `m` of that run the machine was at
/// the loop's `Do` with a falsy value on top of the stack, and the step
/// after took it to the instruction after the loop, with the return stack
/// with which the run began. Up to then the machine was busy with the loop.
pub proof fn lemma_loop_exit(
    tokens: Seq<Lexeme>,
    floats: Map<Seq<char>, u64>,
    program: Seq<Instr>,
    d: int,
    base: Seq<usize>,
    s: State,
    steps: nat,
) -> (m: nat)
    requires
        tokens.len() <= usize::MAX,
        compiled(tokens, floats) == Ok::<Seq<Instr>, CompileError>(program),
        0 <= d < program.len(),
        program[d] is Do,
        returns_nothing(program, loop_first(program, d), loop_last(program, d)),
        in_loop_or_called(program, d, base, s),
        run_of(program, s, steps).1 == Signal::Continue,
        !in_loop_or_called(program, d, base, run_of(program, s, steps).0),
    ensures
        m < steps,
        run_of(program, s, m).1 == Signal::Continue,
        run_of(program, s, m + 1).1 == Signal::Continue,
        leaves_by_do(program, d, base, run_of(program, s, m).0, run_of(program, s, m + 1).0),
        forall|i: nat|
            i <= m ==> in_loop_or_called(program, d, base, #[trigger] run_of(program, s, i).0),
    decreases steps,
{
    lemma_compiled_resolved(tokens, floats);
    assert(steps > 0);
    match step_of(program, s) {
        Next::Running(next) => {
            lemma_loop_step(program, d, base, s);
            assert(run_of(program, s, 1) == run_of(program, next, 0));
            if in_loop_or_called(program, d, base, next) {
                let before = lemma_loop_exit(
                    tokens,
                    floats,
                    program,
                    d,
                    base,
                    next,
                    (steps - 1) as nat,
                );
                let m = before + 1;
                assert(run_of(program, s, m) == run_of(program, next, before));
                assert(run_of(program, s, m + 1) == run_of(program, next, before + 1));
                assert forall|i: nat| i <= m implies in_loop_or_called(
                    program,
                    d,
                    base,
                    #[trigger] run_of(program, s, i).0,
                ) by {
                    if i > 0 {
                        assert(run_of(program, s, i) == run_of(program, next, (i - 1) as nat));
                    }
                }
                m
            } else {
                assert forall|i: nat| i <= 0 implies in_loop_or_called(
                    program,
                    d,
                    base,
                    #[trigger] run_of(program, s, i).0,
                ) by {}
                0
            }
        },
        _ => 0,
    }
}

/// Whether `op` is no control instruction: the machine goes from it to the
/// instruction after it, if it can execute it at all.
pub open spec fn advances(op: Instr) -> bool {
    match op {
        Instr::If(_) | Instr::Ifstar(_) | Instr::Else(_) | Instr::End(_) | Instr::Do(_)
        | Instr::Defword(_) | Instr::Return | Instr::Call(_) | Instr::EndOfProgram => false,
        _ => true,
    }
}

/// Whether the instructions from `first` to `last` are straight code: none
/// of them is a control instruction.
pub open spec fn straight(p: Seq<Instr>, first: int, last: int) -> bool {
    forall|x: int| first <= x <= last ==> advances(#[trigger] p[x])
}

/// The number of steps of one round of the loop of the `Do` at `d`: from
/// its `While` through the condition, the `Do` and the body to its `End`.
pub open spec fn round_length(p: Seq<Instr>, d: int) -> int {
    loop_last(p, d) - loop_first(p, d) + 1
}

/// The number of steps from the beginning of a run to the instruction at
/// offset `r` of round `k` of the loop, rounds counted from 1 and offsets
/// from 0, which is that of the loop's `While`.
pub open spec fn moment(p: Seq<Instr>, d: int, k: int, r: int) -> nat {
    ((k - 1) * round_length(p, d) + r) as nat
}

/// The value that the condition of the loop leaves on top of the stack at
/// its `k`-th evaluation, in the run from `s`: what the `Do` finds there in
/// round `k`.
pub open spec fn condition_value(p: Seq<Instr>, d: int, s: State, k: int) -> Value {
    top(run_of(p, s, moment(p, d, k, d - loop_first(p, d))).0.stack)
}

/// Whether the loop never fails in the run from `s`: whenever the run is
/// inside the loop, the machine can execute the instruction that it is at.
pub open spec fn loop_never_fails(p: Seq<Instr>, d: int, s: State) -> bool {
    forall|m: nat|
        (#[trigger] run_of(p, s, m)).1 == Signal::Continue && in_loop(p, d, run_of(p, s, m).0)
            ==> step_of(p, run_of(p, s, m).0) is Running
}

/// Whether the loop of the `Do` at `d` is `while C do B end` with straight
/// code for `C` and for `B`, and the run from `s` starts at its `While` and
/// never fails inside it.
pub open spec fn straight_loop(p: Seq<Instr>, d: int, s: State) -> bool {
    &&& 0 <= d < p.len()
    &&& p[d] is Do
    &&& straight(p, loop_first(p, d) + 1, d - 1)
    &&& straight(p, d + 1, loop_last(p, d) - 1)
    &&& s.ip == loop_first(p, d)
    &&& loop_never_fails(p, d, s)
}

/// One more step of a run that has used up its steps.
proof fn lemma_one_more_step(program: Seq<Instr>, s: State, steps: nat)
    requires
        run_of(program, s, steps).1 == Signal::Continue,
        step_of(program, run_of(program, s, steps).0) is Running,
    ensures
        run_of(program, s, steps + 1) == (
            step_of(program, run_of(program, s, steps).0)->Running_0,
            Signal::Continue,
        ),
{
    lemma_run_split(program, s, steps, 1);
    let at = run_of(program, s, steps).0;
    let next = step_of(program, at)->Running_0;
    assert(run_of(program, at, 1) == run_of(program, next, 0));
}

/// The shape of a loop in a resolved program: the `While`, then the `Do`,
/// then the `End`, which jumps back to the `While`.
proof fn lemma_loop_shape(program: Seq<Instr>, d: int)
    requires
        resolved(program),
        0 <= d < program.len(),
        program[d] is Do,
    ensures
        0 <= loop_first(program, d) < d < loop_last(program, d) < program.len(),
        program[loop_last(program, d)] == Instr::End(loop_first(program, d) as usize),
        program[loop_first(program, d)] is While,
        round_length(program, d) >= 3,
{
    assert(settled(program, d));
}

/// A step inside a straight loop goes to the next instruction of the loop,
/// and from the loop's `End` back to its `While`; the step of the `Do` is
/// taken here on a truthy value.
proof fn lemma_straight_step(program: Seq<Instr>, d: int, at: State)
    requires
        0 <= loop_first(program, d) < d < loop_last(program, d) < program.len(),
        program[d] is Do,
        program[loop_last(program, d)] == Instr::End(loop_first(program, d) as usize),
        program[loop_first(program, d)] is While,
        straight(program, loop_first(program, d) + 1, d - 1),
        straight(program, d + 1, loop_last(program, d) - 1),
        in_loop(program, d, at),
        step_of(program, at) is Running,
        at.ip == d ==> !falsy(top(at.stack)),
    ensures
        step_of(program, at)->Running_0.ip == if at.ip == loop_last(program, d) {
            loop_first(program, d)
        } else {
            at.ip + 1
        },
{
    let x = at.ip as int;
    if x == d {
    } else if x == loop_last(program, d) {
    } else if x == loop_first(program, d) {
    } else {
        assert(advances(program[x]));
    }
}

/// The moment after offset `r0` of round `k0` is that of the next offset,
/// or of the start of the next round.
proof fn lemma_next_moment(length: int, k0: int, r0: int, k: int, r: int)
    requires
        length > 0,
        1 <= k0,
        0 <= r0 < length,
        (k0 == k - 1 && r0 == length - 1 && r == 0) || (k0 == k && r0 == r - 1),
    ensures
        (k0 - 1) * length + r0 >= 0,
        (k0 - 1) * length + r0 + 1 == (k - 1) * length + r,
{
    assert((k0 - 1) * length >= 0) by (nonlinear_arith)
        requires
            k0 >= 1,
            length > 0,
    ;
    assert((k0 - 1) * length + length == k0 * length) by (nonlinear_arith);
}

/// Where the machine is at offset `r` of round `k` of a straight loop whose
/// condition has come out truthy in every round before round `n`.
proof fn lemma_round(program: Seq<Instr>, d: int, s: State, n: int, k: int, r: int)
    requires
        resolved(program),
        straight_loop(program, d, s),
        1 <= k <= n,
        0 <= r < round_length(program, d),
        k < n || r <= d - loop_first(program, d),
        truthy_before(program, d, s, n),
    ensures
        run_of(program, s, moment(program, d, k, r)).1 == Signal::Continue,
        run_of(program, s, moment(program, d, k, r)).0.ip == loop_first(program, d) + r,
    decreases k, r,
{
    lemma_loop_shape(program, d);
    let first = loop_first(program, d);
    let length = round_length(program, d);
    if r == 0 && k == 1 {
        assert(moment(program, d, 1, 0) == 0);
    } else {
        let k0 = if r == 0 {
            k - 1
        } else {
            k
        };
        let r0 = if r == 0 {
            length - 1
        } else {
            r - 1
        };
        lemma_round(program, d, s, n, k0, r0);
        lemma_next_moment(length, k0, r0, k, r);
        let before = moment(program, d, k0, r0);
        assert(before + 1 == moment(program, d, k, r));
        let at = run_of(program, s, before).0;
        assert(at.ip == first + r0);
        assert(in_loop(program, d, at));
        assert(step_of(program, at) is Running);
        lemma_one_more_step(program, s, before);
        if r0 == d - first {
            assert(!falsy(condition_value(program, d, s, k0)));
        }
        lemma_straight_step(program, d, at);
    }
}

/// Whether the condition of the loop comes out truthy at each of its
/// evaluations before the `n`-th.
pub open spec fn truthy_before(p: Seq<Instr>, d: int, s: State, n: int) -> bool {
    forall|j: int| 1 <= j < n ==> !falsy(#[trigger] condition_value(p, d, s, j))
}

/// Whether the run from `s` keeps to the rounds of the loop through the
/// `n`-th evaluation of the condition: after the steps of `k - 1` whole
/// rounds and `r` more the machine is at offset `r` of the loop, for every
/// round `k` before the `n`-th and every offset `r`, and for the `n`-th round
/// up to the offset of the `Do`.
pub open spec fn keeps_rounds(p: Seq<Instr>, d: int, s: State, n: int) -> bool {
    forall|k: int, r: int|
        1 <= k <= n && 0 <= r < round_length(p, d) && (k < n || r <= d - loop_first(p, d))
            ==> run_of(p, s, #[trigger] moment(p, d, k, r)).1 == Signal::Continue && run_of(
            p,
            s,
            moment(p, d, k, r),
        ).0.ip == loop_first(p, d) + r
}

/// Whether the step after the `n`-th evaluation of the condition takes the
/// machine to the instruction after the loop if the value is falsy, and into
/// the body if it is not.
pub open spec fn decides(p: Seq<Instr>, d: int, s: State, n: int) -> bool {
    let after = run_of(p, s, moment(p, d, n, d - loop_first(p, d)) + 1);
    &&& after.1 == Signal::Continue
    &&& after.0.ip == if falsy(condition_value(p, d, s, n)) {
        p[d]->Do_0 as int
    } else {
        d + 1
    }
}

/// The rounds of a straight loop through the `n`-th evaluation of its
/// condition, and the step that follows.
proof fn lemma_rounds(program: Seq<Instr>, d: int, s: State, n: int)
    requires
        resolved(program),
        straight_loop(program, d, s),
        n >= 1,
        truthy_before(program, d, s, n),
    ensures
        keeps_rounds(program, d, s, n),
        decides(program, d, s, n),
{
    lemma_loop_shape(program, d);
    assert forall|k: int, r: int|
        1 <= k <= n && 0 <= r < round_length(program, d) && (k < n || r <= d - loop_first(
            program,
            d,
        )) implies run_of(program, s, #[trigger] moment(program, d, k, r)).1 == Signal::Continue
        && run_of(program, s, moment(program, d, k, r)).0.ip == loop_first(program, d) + r by {
        lemma_round(program, d, s, n, k, r);
    }
    let c = d - loop_first(program, d);
    lemma_round(program, d, s, n, n, c);
    let at = run_of(program, s, moment(program, d, n, c)).0;
    assert(in_loop(program, d, at));
    lemma_one_more_step(program, s, moment(program, d, n, c));
}

/// A straight loop whose condition never comes out falsy is never left.
proof fn lemma_goes_on(program: Seq<Instr>, d: int, s: State, steps: nat)
    requires
        resolved(program),
        straight_loop(program, d, s),
        forall|j: int| 1 <= j ==> !falsy(#[trigger] condition_value(program, d, s, j)),
    ensures
        run_of(program, s, steps).1 == Signal::Continue,
        in_loop(program, d, run_of(program, s, steps).0),
{
    lemma_loop_shape(program, d);
    let length = round_length(program, d);
    let k = steps as int / length + 1;
    let r = steps as int % length;
    assert(steps == (k - 1) * length + r && 0 <= r < length && k >= 1) by (nonlinear_arith)
        requires
            length > 0,
            k == steps as int / length + 1,
            r == steps as int % length,
            steps >= 0,
    ;
    lemma_round(program, d, s, k + 1, k, r);
    assert(moment(program, d, k, r) == steps);
}

/// `while C do B end`, with straight code for `C` and for `B`.
///
/// Take a compiled program, a loop in it whose condition `C` and body `B`
/// hold no control instruction, and a run that starts at the loop's `While`
/// and never fails inside the loop.
///
/// Let the condition come out truthy at its first `n - 1` evaluations. Then,
/// through the `n`-th evaluation, the machine keeps to the rounds of the
/// loop: it evaluates `C` in each of the rounds 1 to `n`, and executes `B`
/// in each of the rounds 1 to `n - 1`, after that round's evaluation of `C`
/// and before the next one. If the `n`-th value is falsy, the next step
/// takes the machine to the instruction after the loop: the loop ends after
/// `n` evaluations of `C` and `n - 1` executions of `B`. If it is truthy,
/// the next step takes the machine into `B`.
///
/// So the loop ends if the condition comes out falsy at some evaluation, at
/// the first such one. And only then: if the condition comes out truthy at
/// every evaluation, then after any number of steps the machine is inside
/// the loop and has used up its steps.
pub proof fn lemma_straight_loop(
    tokens: Seq<Lexeme>,
    floats: Map<Seq<char>, u64>,
    program: Seq<Instr>,
    d: int,
    s: State,
)
    requires
        tokens.len() <= usize::MAX,
        compiled(tokens, floats) == Ok::<Seq<Instr>, CompileError>(program),
        straight_loop(program, d, s),
    ensures
        forall|n: int|
            n >= 1 && #[trigger] truthy_before(program, d, s, n) ==> keeps_rounds(
                program,
                d,
                s,
                n,
            ) && decides(program, d, s, n),
        (forall|j: int| 1 <= j ==> !falsy(#[trigger] condition_value(program, d, s, j)))
            ==> forall|steps: nat|
            (#[trigger] run_of(program, s, steps)).1 == Signal::Continue && in_loop(
                program,
                d,
                run_of(program, s, steps).0,
            ),
{
    lemma_compiled_resolved(tokens, floats);
    assert forall|n: int| n >= 1 && #[trigger] truthy_before(program, d, s, n) implies keeps_rounds(
        program,
        d,
        s,
        n,
    ) && decides(program, d, s, n) by {
        lemma_rounds(program, d, s, n);
    }
    if forall|j: int| 1 <= j ==> !falsy(#[trigger] condition_value(program, d, s, j)) {
        assert forall|steps: nat|
            (#[trigger] run_of(program, s, steps)).1 == Signal::Continue && in_loop(
                program,
                d,
                run_of(program, s, steps).0,
            ) by {
            lemma_goes_on(program, d, s, steps);
        }
    }
}

} // verus!
