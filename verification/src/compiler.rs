//! From tokens to instructions, in one pass.
//!
//! An opener (`if`, `if*`, `else`, `while`, `do`, `defword`) is emitted with
//! its jump target still open and its index is put on a stack of pending
//! sites. The closer that pops a site (`else`, `end`, `return`) writes the
//! target into the instruction at that site.

use crate::lexer::{Lexeme, Token, TokenKind};
use crate::literal::{list_items, number_of, parse_list, parse_to_num, LiteralError};
use crate::constructs::{instructions_from, lemma_compiled_length, lemma_errors_cite_tokens};
use crate::structure::{enclosed, lemma_compiled_resolved, resolved};
use crate::table::Table;
use crate::text::{chars_of, spells};
use crate::types::{lemma_push_view, lemma_update_view, Num, Type, Value};
use vstd::prelude::*;
use vstd::string::*;

verus! {

/// An instruction.
#[derive(Debug)]
pub enum Op {
    PushInteger(i64),
    /// Pushes the floating-point number with this bit pattern.
    PushFloat(u64),
    PushStr(String),
    PushBool(bool),
    /// Pushes the list that holds these items.
    PushList(Vec<Type>),
    Add,
    Sub,
    Mul,
    Div,
    Eq,
    Gt,
    Lt,
    Gteq,
    Lteq,
    /// Pushes a copy of the top value.
    Dup,
    /// Exchanges the two top values.
    Swap,
    /// Removes the top value.
    Drop,
    /// Pushes a copy of the value below the top.
    Over,
    /// Moves the third value from the top to the top.
    Rotate,
    /// Pops the top value and emits it.
    Out,
    Index,
    Defvar(String),
    Readvar(String),
    Writevar(String),
    /// Pops a value; jumps to the target if the value is falsy.
    If(usize),
    /// As `If`, in an `else`-`if*` chain.
    Ifstar(usize),
    /// Jumps to the target.
    Else(usize),
    /// Jumps to the target.
    End(usize),
    /// Marks the start of a loop's condition.
    While,
    /// Pops a value; jumps to the target if the value is falsy.
    Do(usize),
    /// Jumps to the target, past the word's body.
    Defword(usize),
    /// Jumps to the address on top of the return stack.
    Return,
    /// Pushes the address of the next instruction on the return stack and
    /// jumps to the target.
    Call(usize),
    EndOfProgram,
}

/// The mathematical model of an [`Op`].
pub ghost enum Instr {
    PushInteger(i64),
    PushFloat(u64),
    PushStr(Seq<char>),
    PushBool(bool),
    PushList(Seq<Value>),
    Add,
    Sub,
    Mul,
    Div,
    Eq,
    Gt,
    Lt,
    Gteq,
    Lteq,
    Dup,
    Swap,
    Drop,
    Over,
    Rotate,
    Out,
    Index,
    Defvar(Seq<char>),
    Readvar(Seq<char>),
    Writevar(Seq<char>),
    If(usize),
    Ifstar(usize),
    Else(usize),
    End(usize),
    While,
    Do(usize),
    Defword(usize),
    Return,
    Call(usize),
    EndOfProgram,
}

impl DeepView for Op {
    type V = Instr;

    open spec fn deep_view(&self) -> Instr {
        match self {
            Op::PushInteger(n) => Instr::PushInteger(*n),
            Op::PushFloat(bits) => Instr::PushFloat(*bits),
            Op::PushStr(s) => Instr::PushStr(s@),
            Op::PushBool(b) => Instr::PushBool(*b),
            Op::PushList(items) => Instr::PushList(items.deep_view()),
            Op::Add => Instr::Add,
            Op::Sub => Instr::Sub,
            Op::Mul => Instr::Mul,
            Op::Div => Instr::Div,
            Op::Eq => Instr::Eq,
            Op::Gt => Instr::Gt,
            Op::Lt => Instr::Lt,
            Op::Gteq => Instr::Gteq,
            Op::Lteq => Instr::Lteq,
            Op::Dup => Instr::Dup,
            Op::Swap => Instr::Swap,
            Op::Drop => Instr::Drop,
            Op::Over => Instr::Over,
            Op::Rotate => Instr::Rotate,
            Op::Out => Instr::Out,
            Op::Index => Instr::Index,
            Op::Defvar(name) => Instr::Defvar(name@),
            Op::Readvar(name) => Instr::Readvar(name@),
            Op::Writevar(name) => Instr::Writevar(name@),
            Op::If(t) => Instr::If(*t),
            Op::Ifstar(t) => Instr::Ifstar(*t),
            Op::Else(t) => Instr::Else(*t),
            Op::End(t) => Instr::End(*t),
            Op::While => Instr::While,
            Op::Do(t) => Instr::Do(*t),
            Op::Defword(t) => Instr::Defword(*t),
            Op::Return => Instr::Return,
            Op::Call(t) => Instr::Call(*t),
            Op::EndOfProgram => Instr::EndOfProgram,
        }
    }
}

/// What is wrong with a token stream.
#[derive(Clone, Copy, Debug, PartialEq, Eq, Structural)]
pub enum CompileErrorKind {
    /// `else` without an `if` or `if*` that it could belong to.
    DanglingElse,
    /// `end` with nothing open.
    DanglingEnd,
    /// `return` outside a word definition.
    DanglingReturn,
    /// `if*` is closed, and no `else` stands before it.
    ExpectedElseBeforeElseIf,
    /// `end` closes a `do` that no `while` precedes.
    ExpectedWhileBeforeDo,
    /// `end` closes a `while` that no `do` follows.
    ExpectedDoAfterWhile,
    /// `end` closes a word definition; `return` does that.
    UseReturnToEndWord,
    UnclosedIf,
    UnclosedElse,
    UnclosedDo,
    UnclosedWhile,
    /// `defword` with no `return`.
    UnclosedWord,
    /// A word that is neither built in nor defined before its use.
    UnknownWord,
    /// `defword` or `defvar` is the last token: the name is missing.
    ExpectedName,
    /// A literal whose text is not one of its kind.
    MalformedLiteral,
    /// A floating-point literal whose value the caller has not supplied.
    UnresolvedFloat,
}

/// A compile-time error: what is wrong, and the index, line and column of
/// the token at which it is.
#[derive(Clone, Copy, Debug, PartialEq, Eq, Structural)]
pub struct CompileError {
    pub kind: CompileErrorKind,
    pub token: usize,
    pub line: usize,
    pub column: usize,
}

/// A pending site: the index of an opener among the instructions, and the
/// index, line and column of its token.
#[derive(Clone, Copy, Debug, PartialEq, Eq, Structural)]
pub struct Site {
    pub at: usize,
    pub token: usize,
    pub line: usize,
    pub column: usize,
}

/// What the compiler holds between two tokens.
pub ghost struct CompileState {
    /// The instructions emitted so far.
    pub program: Seq<Instr>,
    /// The openers that are not closed yet, the innermost last.
    pub pending: Seq<Site>,
    /// The address of each defined word's body.
    pub words: Map<Seq<char>, usize>,
}

/// `op` with its jump target set to `target`; an instruction without a
/// target unchanged.
pub open spec fn with_target(op: Instr, target: usize) -> Instr {
    match op {
        Instr::If(_) => Instr::If(target),
        Instr::Ifstar(_) => Instr::Ifstar(target),
        Instr::Else(_) => Instr::Else(target),
        Instr::End(_) => Instr::End(target),
        Instr::Do(_) => Instr::Do(target),
        Instr::Defword(_) => Instr::Defword(target),
        Instr::Call(_) => Instr::Call(target),
        _ => op,
    }
}

/// `program` with the target of the instruction at `at` set to `target`.
pub open spec fn patched(program: Seq<Instr>, at: int, target: int) -> Seq<Instr> {
    program.update(at, with_target(program[at], target as usize))
}

/// The instruction that a word of the language other than an opener or a
/// closer stands for.
pub open spec fn plain_op(text: Seq<char>) -> Option<Instr> {
    if text == "+"@ {
        Some(Instr::Add)
    } else if text == "-"@ {
        Some(Instr::Sub)
    } else if text == "*"@ {
        Some(Instr::Mul)
    } else if text == "/"@ {
        Some(Instr::Div)
    } else if text == "="@ {
        Some(Instr::Eq)
    } else if text == ">"@ {
        Some(Instr::Gt)
    } else if text == "<"@ {
        Some(Instr::Lt)
    } else if text == ">="@ {
        Some(Instr::Gteq)
    } else if text == "<="@ {
        Some(Instr::Lteq)
    } else if text == "out"@ {
        Some(Instr::Out)
    } else if text == "dup"@ {
        Some(Instr::Dup)
    } else if text == "swap"@ {
        Some(Instr::Swap)
    } else if text == "drop"@ {
        Some(Instr::Drop)
    } else if text == "over"@ {
        Some(Instr::Over)
    } else if text == "rotate"@ {
        Some(Instr::Rotate)
    } else if text == "idx"@ {
        Some(Instr::Index)
    } else {
        None
    }
}

/// The state after `op` is emitted.
pub open spec fn emit(st: CompileState, op: Instr) -> CompileState {
    CompileState { program: st.program.push(op), ..st }
}

/// The state after the opener `op` is emitted and its site is put on the
/// stack of pending sites.
pub open spec fn open(st: CompileState, op: Instr, site: Site) -> CompileState {
    CompileState { program: st.program.push(op), pending: st.pending.push(site), ..st }
}

/// The state after `else` at `site`.
///
/// The innermost pending opener must be an `if` or an `if*`; it now jumps to
/// the instruction after this `else`. Below an `if*` there must be the
/// `else` that precedes it, which now jumps to this `else`. This `else` is
/// emitted with its target open and becomes pending.
pub open spec fn close_else(st: CompileState, site: Site) -> Result<
    CompileState,
    CompileErrorKind,
> {
    let i = st.program.len() as int;
    let n = st.pending.len() as int;
    if n == 0 {
        Err(CompileErrorKind::DanglingElse)
    } else {
        let top = st.pending[n - 1];
        match st.program[top.at as int] {
            Instr::If(_) => Ok(
                CompileState {
                    program: patched(st.program, top.at as int, i + 1).push(Instr::Else(0)),
                    pending: st.pending.take(n - 1).push(site),
                    ..st
                },
            ),
            Instr::Ifstar(_) => if n >= 2 && st.program[st.pending[n - 2].at as int] is Else {
                Ok(
                    CompileState {
                        program: patched(
                            patched(st.program, top.at as int, i + 1),
                            st.pending[n - 2].at as int,
                            i,
                        ).push(Instr::Else(0)),
                        pending: st.pending.take(n - 2).push(site),
                        ..st
                    },
                )
            } else {
                Err(CompileErrorKind::ExpectedElseBeforeElseIf)
            },
            _ => Err(CompileErrorKind::DanglingElse),
        }
    }
}

/// The state after `end`.
///
/// An `if` or an `else` on top of the pending sites now jumps to this
/// `end`, which jumps to the instruction after itself. So does an `if*`, and
/// the `else` below it. A `do` now jumps to the instruction after this
/// `end`, which jumps back to the `while` below the `do`.
pub open spec fn close_end(st: CompileState) -> Result<CompileState, CompileErrorKind> {
    let i = st.program.len() as int;
    let n = st.pending.len() as int;
    if n == 0 {
        Err(CompileErrorKind::DanglingEnd)
    } else {
        let top = st.pending[n - 1];
        match st.program[top.at as int] {
            Instr::If(_) | Instr::Else(_) => Ok(
                CompileState {
                    program: patched(st.program, top.at as int, i).push(
                        Instr::End((i + 1) as usize),
                    ),
                    pending: st.pending.take(n - 1),
                    ..st
                },
            ),
            Instr::Ifstar(_) => if n >= 2 && st.program[st.pending[n - 2].at as int] is Else {
                Ok(
                    CompileState {
                        program: patched(
                            patched(st.program, top.at as int, i),
                            st.pending[n - 2].at as int,
                            i,
                        ).push(Instr::End((i + 1) as usize)),
                        pending: st.pending.take(n - 2),
                        ..st
                    },
                )
            } else {
                Err(CompileErrorKind::ExpectedElseBeforeElseIf)
            },
            Instr::Do(_) => if n >= 2 && st.program[st.pending[n - 2].at as int] is While {
                Ok(
                    CompileState {
                        program: patched(st.program, top.at as int, i + 1).push(
                            Instr::End(st.pending[n - 2].at),
                        ),
                        pending: st.pending.take(n - 2),
                        ..st
                    },
                )
            } else {
                Err(CompileErrorKind::ExpectedWhileBeforeDo)
            },
            Instr::While => Err(CompileErrorKind::ExpectedDoAfterWhile),
            Instr::Defword(_) => Err(CompileErrorKind::UseReturnToEndWord),
            _ => Ok(
                CompileState {
                    program: st.program.push(Instr::End(i as usize)),
                    pending: st.pending.take(n - 1),
                    ..st
                },
            ),
        }
    }
}

/// The state after `return`: the `defword` on top of the pending sites now
/// jumps to the instruction after this `return`.
pub open spec fn close_return(st: CompileState) -> Result<CompileState, CompileErrorKind> {
    let i = st.program.len() as int;
    let n = st.pending.len() as int;
    if n == 0 {
        Err(CompileErrorKind::DanglingReturn)
    } else {
        let top = st.pending[n - 1];
        match st.program[top.at as int] {
            Instr::Defword(_) => Ok(
                CompileState {
                    program: patched(st.program, top.at as int, i + 1).push(Instr::Return),
                    pending: st.pending.take(n - 1),
                    ..st
                },
            ),
            _ => Err(CompileErrorKind::DanglingReturn),
        }
    }
}

/// The error of kind `kind` at token `k`.
pub open spec fn fail(tokens: Seq<Lexeme>, k: int, kind: CompileErrorKind) -> CompileError {
    CompileError {
        kind,
        token: k as usize,
        line: tokens[k].line as usize,
        column: tokens[k].column as usize,
    }
}

/// The site of the opener that token `k` emits into `st`.
pub open spec fn site_of(tokens: Seq<Lexeme>, k: int, st: CompileState) -> Site {
    Site {
        at: st.program.len() as usize,
        token: k as usize,
        line: tokens[k].line as usize,
        column: tokens[k].column as usize,
    }
}

/// A step of the compiler: the state after it and the index of the next
/// token, or the error that ends the compilation.
pub type Step = Result<(CompileState, int), CompileError>;

/// What a closer made of the state, as a step at token `k`.
pub open spec fn closed(
    tokens: Seq<Lexeme>,
    k: int,
    r: Result<CompileState, CompileErrorKind>,
) -> Step {
    match r {
        Ok(st) => Ok((st, k + 1)),
        Err(kind) => Err(fail(tokens, k, kind)),
    }
}

/// The step that the word at token `k` makes.
pub open spec fn word_step(tokens: Seq<Lexeme>, k: int, st: CompileState) -> Step {
    let text = tokens[k].text;
    let i = st.program.len() as int;
    if plain_op(text) is Some {
        Ok((emit(st, plain_op(text)->Some_0), k + 1))
    } else if text == "defvar"@ {
        if k + 1 < tokens.len() {
            Ok((emit(st, Instr::Defvar(tokens[k + 1].text)), k + 2))
        } else {
            Err(fail(tokens, k, CompileErrorKind::ExpectedName))
        }
    } else if text == "if"@ {
        Ok((open(st, Instr::If(0), site_of(tokens, k, st)), k + 1))
    } else if text == "if*"@ {
        Ok((open(st, Instr::Ifstar(0), site_of(tokens, k, st)), k + 1))
    } else if text == "else"@ {
        closed(tokens, k, close_else(st, site_of(tokens, k, st)))
    } else if text == "end"@ {
        closed(tokens, k, close_end(st))
    } else if text == "while"@ {
        Ok((open(st, Instr::While, site_of(tokens, k, st)), k + 1))
    } else if text == "do"@ {
        Ok((open(st, Instr::Do(0), site_of(tokens, k, st)), k + 1))
    } else if text == "defword"@ {
        if k + 1 < tokens.len() {
            Ok(
                (
                    CompileState {
                        words: st.words.insert(tokens[k + 1].text, (i + 1) as usize),
                        ..open(st, Instr::Defword(0), site_of(tokens, k, st))
                    },
                    k + 2,
                ),
            )
        } else {
            Err(fail(tokens, k, CompileErrorKind::ExpectedName))
        }
    } else if text == "return"@ {
        closed(tokens, k, close_return(st))
    } else if st.words.contains_key(text) {
        Ok((emit(st, Instr::Call(st.words[text])), k + 1))
    } else {
        Err(fail(tokens, k, CompileErrorKind::UnknownWord))
    }
}

/// The compile-time error that an error in a literal becomes.
pub open spec fn literal_error(e: LiteralError) -> CompileErrorKind {
    match e {
        LiteralError::Malformed => CompileErrorKind::MalformedLiteral,
        LiteralError::UnresolvedFloat => CompileErrorKind::UnresolvedFloat,
    }
}

/// The instruction that the literal at token `k` stands for.
pub open spec fn literal_op(token: Lexeme, floats: Map<Seq<char>, u64>) -> Result<
    Instr,
    CompileErrorKind,
> {
    let text = token.text;
    match token.kind {
        TokenKind::Num => match number_of(text, floats) {
            Ok(Num::Integer(n)) => Ok(Instr::PushInteger(n)),
            Ok(Num::Float(bits)) => Ok(Instr::PushFloat(bits)),
            Err(e) => Err(literal_error(e)),
        },
        TokenKind::Bool => if text == "true"@ {
            Ok(Instr::PushBool(true))
        } else if text == "false"@ {
            Ok(Instr::PushBool(false))
        } else {
            Err(CompileErrorKind::MalformedLiteral)
        },
        TokenKind::Str => Ok(Instr::PushStr(text)),
        TokenKind::List => match list_items(text, floats) {
            Ok(items) => Ok(Instr::PushList(items)),
            Err(e) => Err(literal_error(e)),
        },
        TokenKind::VarOp => if text.len() >= 1 && text[0] == '@' {
            Ok(Instr::Writevar(text.subrange(1, text.len() as int)))
        } else if text.len() >= 1 && text[0] == '!' {
            Ok(Instr::Readvar(text.subrange(1, text.len() as int)))
        } else {
            Err(CompileErrorKind::MalformedLiteral)
        },
        TokenKind::Word => Err(CompileErrorKind::MalformedLiteral),
    }
}

/// The step that token `k` makes.
pub open spec fn token_step(
    tokens: Seq<Lexeme>,
    floats: Map<Seq<char>, u64>,
    k: int,
    st: CompileState,
) -> Step {
    if tokens[k].kind == TokenKind::Word {
        word_step(tokens, k, st)
    } else {
        match literal_op(tokens[k], floats) {
            Ok(op) => Ok((emit(st, op), k + 1)),
            Err(kind) => Err(fail(tokens, k, kind)),
        }
    }
}

/// The error for an opener that is still pending when the tokens end.
pub open spec fn unclosed(st: CompileState, site: Site) -> CompileError {
    CompileError {
        kind: match st.program[site.at as int] {
            Instr::Else(_) => CompileErrorKind::UnclosedElse,
            Instr::Do(_) => CompileErrorKind::UnclosedDo,
            Instr::While => CompileErrorKind::UnclosedWhile,
            Instr::Defword(_) => CompileErrorKind::UnclosedWord,
            _ => CompileErrorKind::UnclosedIf,
        },
        token: site.token,
        line: site.line,
        column: site.column,
    }
}

/// What the compiler returns when the tokens end in `st`: the program with
/// `EndOfProgram` at its end, or the error for the first opener that is
/// still pending.
pub open spec fn finish(st: CompileState) -> Result<Seq<Instr>, CompileError> {
    if st.pending.len() > 0 {
        Err(unclosed(st, st.pending[0]))
    } else {
        Ok(st.program.push(Instr::EndOfProgram))
    }
}

/// What the compiler returns for the tokens from `k` on, starting in `st`.
pub open spec fn compile_from(
    tokens: Seq<Lexeme>,
    floats: Map<Seq<char>, u64>,
    k: int,
    st: CompileState,
) -> Result<Seq<Instr>, CompileError>
    decreases tokens.len() - k,
{
    if !(0 <= k < tokens.len()) {
        finish(st)
    } else {
        match token_step(tokens, floats, k, st) {
            Err(e) => Err(e),
            Ok((next, k2)) => if k < k2 {
                compile_from(tokens, floats, k2, next)
            } else {
                finish(next)
            },
        }
    }
}

/// The state in which compilation starts.
pub open spec fn initial() -> CompileState {
    CompileState { program: Seq::empty(), pending: Seq::empty(), words: Map::empty() }
}

/// The program that a token stream compiles to, or the first error in it.
/// `floats` gives the bit pattern of each floating-point literal.
pub open spec fn compiled(tokens: Seq<Lexeme>, floats: Map<Seq<char>, u64>) -> Result<
    Seq<Instr>,
    CompileError,
> {
    compile_from(tokens, floats, 0, initial())
}

/// Which opener an instruction is.
#[derive(Clone, Copy, Debug, PartialEq, Eq, Structural)]
pub enum Opener {
    If,
    Ifstar,
    Else,
    While,
    Do,
    Defword,
    Other,
}

/// Which opener `op` is.
pub open spec fn opener_of(op: Instr) -> Opener {
    match op {
        Instr::If(_) => Opener::If,
        Instr::Ifstar(_) => Opener::Ifstar,
        Instr::Else(_) => Opener::Else,
        Instr::While => Opener::While,
        Instr::Do(_) => Opener::Do,
        Instr::Defword(_) => Opener::Defword,
        _ => Opener::Other,
    }
}

/// The compiler between two tokens.
struct Compiler {
    program: Vec<Op>,
    pending: Vec<Site>,
    words: Table<usize>,
}

/// What a closer returned, in terms of the model.
spec fn closing(r: Result<(), CompileErrorKind>, c: Compiler) -> Result<
    CompileState,
    CompileErrorKind,
> {
    match r {
        Ok(_) => Ok(c@),
        Err(kind) => Err(kind),
    }
}

/// What a step returned, in terms of the model.
spec fn stepped(r: Result<usize, CompileError>, c: Compiler) -> Step {
    match r {
        Ok(k) => Ok((c@, k as int)),
        Err(e) => Err(e),
    }
}

/// What the compiler returned, in terms of the model.
pub open spec fn outcome(r: Result<Vec<Op>, CompileError>) -> Result<Seq<Instr>, CompileError> {
    match r {
        Ok(program) => Ok(program.deep_view()),
        Err(e) => Err(e),
    }
}

impl Compiler {
    /// The state that the compiler is in.
    spec fn view(&self) -> CompileState {
        CompileState {
            program: self.program.deep_view(),
            pending: self.pending@,
            words: self.words@,
        }
    }

    /// Every pending site is the index of an emitted instruction.
    spec fn valid(&self) -> bool {
        forall|j: int|
            0 <= j < self.pending@.len() ==> (#[trigger] self.pending@[j]).at
                < self.program@.len()
    }

    /// A compiler that has emitted nothing.
    fn new() -> (c: Compiler)
        ensures
            c@ == initial(),
            c.valid(),
    {
        let c = Compiler { program: Vec::new(), pending: Vec::new(), words: Table::new() };
        assert(c.program.deep_view() =~= Seq::<Instr>::empty());
        c
    }

    /// Emits `op`.
    fn emit(&mut self, op: Op)
        requires
            old(self).valid(),
        ensures
            final(self)@ == emit(old(self)@, op.deep_view()),
            final(self).valid(),
            final(self).program@.len() == old(self).program@.len() + 1,
    {
        let ghost before = self.program;
        self.program.push(op);
        proof {
            lemma_push_view(before, self.program, op);
        }
    }

    /// Emits the opener `op` and puts `site` on the pending sites.
    fn open(&mut self, op: Op, site: Site)
        requires
            old(self).valid(),
            site.at == old(self).program@.len(),
        ensures
            final(self)@ == open(old(self)@, op.deep_view(), site),
            final(self).valid(),
            final(self).program@.len() == old(self).program@.len() + 1,
    {
        let ghost before = self.program;
        self.program.push(op);
        self.pending.push(site);
        proof {
            lemma_push_view(before, self.program, op);
        }
    }

    /// Which opener the instruction at `at` is.
    fn opener_at(&self, at: usize) -> (r: Opener)
        requires
            at < self.program@.len(),
        ensures
            r == opener_of(self@.program[at as int]),
    {
        match &self.program[at] {
            Op::If(_) => Opener::If,
            Op::Ifstar(_) => Opener::Ifstar,
            Op::Else(_) => Opener::Else,
            Op::While => Opener::While,
            Op::Do(_) => Opener::Do,
            Op::Defword(_) => Opener::Defword,
            _ => Opener::Other,
        }
    }

    /// Writes `target` into the opener at `at`.
    fn patch(&mut self, at: usize, target: usize)
        requires
            at < old(self).program@.len(),
            opener_of(old(self)@.program[at as int]) != Opener::Other,
        ensures
            final(self)@.program == patched(old(self)@.program, at as int, target as int),
            final(self).program@.len() == old(self).program@.len(),
            final(self).pending == old(self).pending,
            final(self).words == old(self).words,
    {
        let ghost before = self.program;
        let op = match self.opener_at(at) {
            Opener::If => Op::If(target),
            Opener::Ifstar => Op::Ifstar(target),
            Opener::Else => Op::Else(target),
            Opener::Do => Op::Do(target),
            Opener::Defword => Op::Defword(target),
            _ => Op::While,
        };
        self.program[at] = op;
        proof {
            lemma_update_view(before, self.program, at as int, op);
        }
    }

    /// Compiles `else` at `site`.
    fn close_else(&mut self, site: Site) -> (r: Result<(), CompileErrorKind>)
        requires
            old(self).valid(),
            site.at == old(self).program@.len(),
            old(self).program@.len() < usize::MAX,
        ensures
            closing(r, *final(self)) == close_else(old(self)@, site),
            r is Ok ==> final(self).valid() && final(self).program@.len() == old(self).program@.len() + 1,
    {
        let i = self.program.len();
        let n = self.pending.len();
        if n == 0 {
            return Err(CompileErrorKind::DanglingElse);
        }
        let top = self.pending[n - 1];
        match self.opener_at(top.at) {
            Opener::If => {
                self.patch(top.at, i + 1);
                self.pending.pop();
                assert(self.pending@ =~= old(self).pending@.take(n - 1));
                self.open(Op::Else(0), site);
                Ok(())
            },
            Opener::Ifstar => {
                if n < 2 {
                    return Err(CompileErrorKind::ExpectedElseBeforeElseIf);
                }
                let second = self.pending[n - 2];
                if self.opener_at(second.at) != Opener::Else {
                    return Err(CompileErrorKind::ExpectedElseBeforeElseIf);
                }
                self.patch(top.at, i + 1);
                self.patch(second.at, i);
                self.pending.pop();
                self.pending.pop();
                assert(self.pending@ =~= old(self).pending@.take(n - 2));
                self.open(Op::Else(0), site);
                Ok(())
            },
            _ => Err(CompileErrorKind::DanglingElse),
        }
    }

    /// Compiles `end`.
    fn close_end(&mut self) -> (r: Result<(), CompileErrorKind>)
        requires
            old(self).valid(),
            old(self).program@.len() < usize::MAX,
        ensures
            closing(r, *final(self)) == close_end(old(self)@),
            r is Ok ==> final(self).valid() && final(self).program@.len() == old(self).program@.len() + 1,
    {
        let i = self.program.len();
        let n = self.pending.len();
        if n == 0 {
            return Err(CompileErrorKind::DanglingEnd);
        }
        let top = self.pending[n - 1];
        match self.opener_at(top.at) {
            Opener::If | Opener::Else => {
                self.patch(top.at, i);
                self.pending.pop();
                assert(self.pending@ =~= old(self).pending@.take(n - 1));
                self.emit(Op::End(i + 1));
                Ok(())
            },
            Opener::Ifstar => {
                if n < 2 {
                    return Err(CompileErrorKind::ExpectedElseBeforeElseIf);
                }
                let second = self.pending[n - 2];
                if self.opener_at(second.at) != Opener::Else {
                    return Err(CompileErrorKind::ExpectedElseBeforeElseIf);
                }
                self.patch(top.at, i);
                self.patch(second.at, i);
                self.pending.pop();
                self.pending.pop();
                assert(self.pending@ =~= old(self).pending@.take(n - 2));
                self.emit(Op::End(i + 1));
                Ok(())
            },
            Opener::Do => {
                if n < 2 {
                    return Err(CompileErrorKind::ExpectedWhileBeforeDo);
                }
                let second = self.pending[n - 2];
                if self.opener_at(second.at) != Opener::While {
                    return Err(CompileErrorKind::ExpectedWhileBeforeDo);
                }
                self.patch(top.at, i + 1);
                self.pending.pop();
                self.pending.pop();
                assert(self.pending@ =~= old(self).pending@.take(n - 2));
                self.emit(Op::End(second.at));
                Ok(())
            },
            Opener::While => Err(CompileErrorKind::ExpectedDoAfterWhile),
            Opener::Defword => Err(CompileErrorKind::UseReturnToEndWord),
            Opener::Other => {
                self.pending.pop();
                assert(self.pending@ =~= old(self).pending@.take(n - 1));
                self.emit(Op::End(i));
                Ok(())
            },
        }
    }

    /// Compiles `return`.
    fn close_return(&mut self) -> (r: Result<(), CompileErrorKind>)
        requires
            old(self).valid(),
            old(self).program@.len() < usize::MAX,
        ensures
            closing(r, *final(self)) == close_return(old(self)@),
            r is Ok ==> final(self).valid() && final(self).program@.len() == old(self).program@.len() + 1,
    {
        let i = self.program.len();
        let n = self.pending.len();
        if n == 0 {
            return Err(CompileErrorKind::DanglingReturn);
        }
        let top = self.pending[n - 1];
        match self.opener_at(top.at) {
            Opener::Defword => {
                self.patch(top.at, i + 1);
                self.pending.pop();
                assert(self.pending@ =~= old(self).pending@.take(n - 1));
                self.emit(Op::Return);
                Ok(())
            },
            _ => Err(CompileErrorKind::DanglingReturn),
        }
    }
}

/// What a function that reads one instruction returned, in terms of the
/// model.
pub open spec fn op_read<E>(r: Result<Op, E>) -> Result<Instr, E> {
    match r {
        Ok(op) => Ok(op.deep_view()),
        Err(e) => Err(e),
    }
}

/// The instruction that a word other than an opener or a closer stands for.
pub fn plain(chars: &Vec<char>) -> (r: Option<Op>)
    ensures
        match r {
            Some(op) => plain_op(chars@) == Some(op.deep_view()),
            None => plain_op(chars@) is None,
        },
{
    if spells(chars, "+") {
        Some(Op::Add)
    } else if spells(chars, "-") {
        Some(Op::Sub)
    } else if spells(chars, "*") {
        Some(Op::Mul)
    } else if spells(chars, "/") {
        Some(Op::Div)
    } else if spells(chars, "=") {
        Some(Op::Eq)
    } else if spells(chars, ">") {
        Some(Op::Gt)
    } else if spells(chars, "<") {
        Some(Op::Lt)
    } else if spells(chars, ">=") {
        Some(Op::Gteq)
    } else if spells(chars, "<=") {
        Some(Op::Lteq)
    } else if spells(chars, "out") {
        Some(Op::Out)
    } else if spells(chars, "dup") {
        Some(Op::Dup)
    } else if spells(chars, "swap") {
        Some(Op::Swap)
    } else if spells(chars, "drop") {
        Some(Op::Drop)
    } else if spells(chars, "over") {
        Some(Op::Over)
    } else if spells(chars, "rotate") {
        Some(Op::Rotate)
    } else if spells(chars, "idx") {
        Some(Op::Index)
    } else {
        None
    }
}

/// The compile-time error that an error in a literal becomes.
fn literal_error_of(e: LiteralError) -> (r: CompileErrorKind)
    ensures
        r == literal_error(e),
{
    match e {
        LiteralError::Malformed => CompileErrorKind::MalformedLiteral,
        LiteralError::UnresolvedFloat => CompileErrorKind::UnresolvedFloat,
    }
}

/// The instruction that a literal token stands for.
pub fn literal(token: &Token, floats: &Table<u64>) -> (r: Result<Op, CompileErrorKind>)
    ensures
        op_read(r) == literal_op(token.deep_view(), floats@),
{
    let text = token.text.as_str();
    match token.kind {
        TokenKind::Num => match parse_to_num(text, floats) {
            Ok(Num::Integer(n)) => Ok(Op::PushInteger(n)),
            Ok(Num::Float(bits)) => Ok(Op::PushFloat(bits)),
            Err(e) => Err(literal_error_of(e)),
        },
        TokenKind::Bool => {
            let chars = chars_of(text);
            if spells(&chars, "true") {
                Ok(Op::PushBool(true))
            } else if spells(&chars, "false") {
                Ok(Op::PushBool(false))
            } else {
                Err(CompileErrorKind::MalformedLiteral)
            }
        },
        TokenKind::Str => Ok(Op::PushStr(token.text.clone())),
        TokenKind::List => match parse_list(text, floats) {
            Ok(items) => Ok(Op::PushList(items)),
            Err(e) => Err(literal_error_of(e)),
        },
        TokenKind::VarOp => {
            let chars = chars_of(text);
            let n = chars.len();
            if n >= 1 && chars[0] == '@' {
                Ok(Op::Writevar(text.substring_char(1, n).to_owned()))
            } else if n >= 1 && chars[0] == '!' {
                Ok(Op::Readvar(text.substring_char(1, n).to_owned()))
            } else {
                Err(CompileErrorKind::MalformedLiteral)
            }
        },
        TokenKind::Word => Err(CompileErrorKind::MalformedLiteral),
    }
}

/// The error of kind `kind` at token `k` of `source`.
fn fail_at(source: &Vec<Token>, k: usize, kind: CompileErrorKind) -> (r: CompileError)
    requires
        k < source.len(),
    ensures
        r == fail(source.deep_view(), k as int, kind),
{
    CompileError { kind, token: k, line: source[k].line, column: source[k].column }
}

impl Compiler {
    /// Compiles the word at token `k`, and returns the index of the next
    /// token.
    fn word(&mut self, source: &Vec<Token>, k: usize) -> (r: Result<usize, CompileError>)
        requires
            k < source.len(),
            old(self).valid(),
            old(self).program@.len() <= k,
        ensures
            stepped(r, *final(self)) == word_step(source.deep_view(), k as int, old(self)@),
            r matches Ok(k2) ==> k < k2 <= source.len() && final(self).valid() && final(self).program@.len() <= k2,
    {
        let token = &source[k];
        let chars = chars_of(token.text.as_str());
        let i = self.program.len();
        let site = Site { at: i, token: k, line: token.line, column: token.column };
        let ghost tokens = source.deep_view();
        assert(tokens[k as int].text == chars@);
        assert(site == site_of(tokens, k as int, old(self)@));
        if let Some(op) = plain(&chars) {
            self.emit(op);
            return Ok(k + 1);
        }
        if spells(&chars, "defvar") {
            if k + 1 < source.len() {
                self.emit(Op::Defvar(source[k + 1].text.clone()));
                Ok(k + 2)
            } else {
                Err(fail_at(source, k, CompileErrorKind::ExpectedName))
            }
        } else if spells(&chars, "if") {
            self.open(Op::If(0), site);
            Ok(k + 1)
        } else if spells(&chars, "if*") {
            self.open(Op::Ifstar(0), site);
            Ok(k + 1)
        } else if spells(&chars, "else") {
            match self.close_else(site) {
                Ok(()) => Ok(k + 1),
                Err(kind) => Err(fail_at(source, k, kind)),
            }
        } else if spells(&chars, "end") {
            match self.close_end() {
                Ok(()) => Ok(k + 1),
                Err(kind) => Err(fail_at(source, k, kind)),
            }
        } else if spells(&chars, "while") {
            self.open(Op::While, site);
            Ok(k + 1)
        } else if spells(&chars, "do") {
            self.open(Op::Do(0), site);
            Ok(k + 1)
        } else if spells(&chars, "defword") {
            if k + 1 < source.len() {
                self.open(Op::Defword(0), site);
                self.words.insert(source[k + 1].text.clone(), i + 1);
                Ok(k + 2)
            } else {
                Err(fail_at(source, k, CompileErrorKind::ExpectedName))
            }
        } else if spells(&chars, "return") {
            match self.close_return() {
                Ok(()) => Ok(k + 1),
                Err(kind) => Err(fail_at(source, k, kind)),
            }
        } else {
            match self.words.get(token.text.as_str()) {
                Some(address) => {
                    let op = Op::Call(*address);
                    self.emit(op);
                    Ok(k + 1)
                },
                None => Err(fail_at(source, k, CompileErrorKind::UnknownWord)),
            }
        }
    }

    /// Compiles token `k`, and returns the index of the next token.
    fn step(&mut self, source: &Vec<Token>, floats: &Table<u64>, k: usize) -> (r: Result<
        usize,
        CompileError,
    >)
        requires
            k < source.len(),
            old(self).valid(),
            old(self).program@.len() <= k,
        ensures
            stepped(r, *final(self)) == token_step(
                source.deep_view(),
                floats@,
                k as int,
                old(self)@,
            ),
            r matches Ok(k2) ==> k < k2 <= source.len() && final(self).valid() && final(self).program@.len() <= k2,
    {
        if source[k].kind == TokenKind::Word {
            self.word(source, k)
        } else {
            match literal(&source[k], floats) {
                Ok(op) => {
                    self.emit(op);
                    Ok(k + 1)
                },
                Err(kind) => Err(fail_at(source, k, kind)),
            }
        }
    }

    /// Ends the compilation.
    fn finish(self) -> (r: Result<Vec<Op>, CompileError>)
        requires
            self.valid(),
        ensures
            outcome(r) == finish(self@),
    {
        if self.pending.len() > 0 {
            let site = self.pending[0];
            let kind = match self.opener_at(site.at) {
                Opener::Else => CompileErrorKind::UnclosedElse,
                Opener::Do => CompileErrorKind::UnclosedDo,
                Opener::While => CompileErrorKind::UnclosedWhile,
                Opener::Defword => CompileErrorKind::UnclosedWord,
                _ => CompileErrorKind::UnclosedIf,
            };
            Err(CompileError { kind, token: site.token, line: site.line, column: site.column })
        } else {
            let mut program = self.program;
            let ghost before = program;
            program.push(Op::EndOfProgram);
            proof {
                lemma_push_view(before, program, Op::EndOfProgram);
            }
            Ok(program)
        }
    }
}

/// Compiles a token stream into a program.
///
/// One instruction is emitted for each token, but for the name that follows
/// `defword` or `defvar`, and `EndOfProgram` is added at the end. `floats`
/// gives, under its text, the binary64 bit pattern of every numeric literal
/// that is not an integer. The first error ends the compilation; it carries
/// the index, the line and the column of the token at which it is. Every
/// jump of the program that is returned is resolved, and every loop is
/// closed in itself.
pub fn parse_to_program(source: &Vec<Token>, floats: &Table<u64>) -> (r: Result<
    Vec<Op>,
    CompileError,
>)
    ensures
        outcome(r) == compiled(source.deep_view(), floats@),
        r matches Ok(program) ==> resolved(program.deep_view()) && enclosed(
            program.deep_view(),
        ),
        r matches Ok(program) ==> program.len() == instructions_from(source.deep_view(), 0) + 1,
        r matches Err(e) ==> e.token < source.len() && e.line == source[e.token as int].line
            && e.column == source[e.token as int].column,
{
    proof {
        assert(source.deep_view().len() == source.len());
        lemma_compiled_resolved(source.deep_view(), floats@);
        lemma_errors_cite_tokens(source.deep_view(), floats@);
        lemma_compiled_length(source.deep_view(), floats@);
    }
    let mut compiler = Compiler::new();
    let mut k: usize = 0;
    let ghost tokens = source.deep_view();
    while k < source.len()
        invariant
            k <= source.len(),
            tokens == source.deep_view(),
            compiler.valid(),
            compiler.program@.len() <= k,
            compiled(tokens, floats@) == compile_from(tokens, floats@, k as int, compiler@),
        decreases source.len() - k,
    {
        match compiler.step(source, floats, k) {
            Err(e) => {
                return Err(e);
            },
            Ok(next) => {
                k = next;
            },
        }
    }
    compiler.finish()
}

} // verus!
