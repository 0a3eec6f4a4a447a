//! What the compiler makes of each construct: which instructions stand in
//! the finished program for an `if`, a loop, a word and a call, whatever
//! tokens follow.

use crate::compiler::{
    compile_from, compiled, initial, opener_of, plain_op, token_step, word_step,
    CompileErrorKind, CompileState, Instr, Opener,
};
use crate::lexer::{Lexeme, TokenKind};
use crate::structure::{
    extends, is_pending, lemma_compile_resolved, lemma_step_shaped, shaped, similar,
};
use vstd::prelude::*;

verus! {

/// Whether `text` is a word that opens or closes a construct, or `defvar`.
pub open spec fn is_control(text: Seq<char>) -> bool {
    ||| text == "defvar"@
    ||| text == "if"@
    ||| text == "if*"@
    ||| text == "else"@
    ||| text == "end"@
    ||| text == "while"@
    ||| text == "do"@
    ||| text == "defword"@
    ||| text == "return"@
}

/// Whether `text` is a word of the language, which cannot be called as a
/// defined word.
pub open spec fn is_reserved(text: Seq<char>) -> bool {
    plain_op(text) is Some || is_control(text)
}

/// Whether token `k` is the word `word`.
pub open spec fn is_word(tokens: Seq<Lexeme>, k: int, word: Seq<char>) -> bool {
    0 <= k < tokens.len() && tokens[k].kind == TokenKind::Word && tokens[k].text == word
}

/// Whether the compiler can be in state `st` in front of token `k`.
pub open spec fn ready(tokens: Seq<Lexeme>, k: int, st: CompileState) -> bool {
    &&& shaped(st)
    &&& 0 <= k < tokens.len() <= usize::MAX
    &&& st.program.len() <= k
}

/// The pending site `depth` below the innermost one.
pub open spec fn open_site(st: CompileState, depth: int) -> int {
    st.pending[st.pending.len() - 1 - depth].at as int
}

/// The words of the language are spelled differently.
pub proof fn lemma_words_differ()
    ensures
        plain_op("defvar"@) is None,
        plain_op("if"@) is None,
        plain_op("if*"@) is None,
        plain_op("else"@) is None,
        plain_op("end"@) is None,
        plain_op("while"@) is None,
        plain_op("do"@) is None,
        plain_op("defword"@) is None,
        plain_op("return"@) is None,
        "if"@ != "defvar"@,
        "if*"@ != "defvar"@ && "if*"@ != "if"@,
        "else"@ != "defvar"@ && "else"@ != "if"@ && "else"@ != "if*"@,
        "end"@ != "defvar"@ && "end"@ != "if"@ && "end"@ != "if*"@ && "end"@ != "else"@,
        "while"@ != "defvar"@ && "while"@ != "if"@ && "while"@ != "if*"@ && "while"@ != "else"@
            && "while"@ != "end"@,
        "do"@ != "defvar"@ && "do"@ != "if"@ && "do"@ != "if*"@ && "do"@ != "else"@ && "do"@
            != "end"@ && "do"@ != "while"@,
        "defword"@ != "defvar"@ && "defword"@ != "if"@ && "defword"@ != "if*"@ && "defword"@
            != "else"@ && "defword"@ != "end"@ && "defword"@ != "while"@ && "defword"@ != "do"@,
        "return"@ != "defvar"@ && "return"@ != "if"@ && "return"@ != "if*"@ && "return"@
            != "else"@ && "return"@ != "end"@ && "return"@ != "while"@ && "return"@ != "do"@
            && "return"@ != "defword"@,
{
    reveal_strlit("+");
    reveal_strlit("-");
    reveal_strlit("*");
    reveal_strlit("/");
    reveal_strlit("=");
    reveal_strlit(">");
    reveal_strlit("<");
    reveal_strlit(">=");
    reveal_strlit("<=");
    reveal_strlit("out");
    reveal_strlit("dup");
    reveal_strlit("swap");
    reveal_strlit("drop");
    reveal_strlit("over");
    reveal_strlit("rotate");
    reveal_strlit("idx");
    reveal_strlit("defvar");
    reveal_strlit("if");
    reveal_strlit("if*");
    reveal_strlit("else");
    reveal_strlit("end");
    reveal_strlit("while");
    reveal_strlit("do");
    reveal_strlit("defword");
    reveal_strlit("return");
    assert("+"@.len() == 1 && "+"@[0] == '+');
    assert("-"@.len() == 1 && "-"@[0] == '-');
    assert("*"@.len() == 1 && "*"@[0] == '*');
    assert("/"@.len() == 1 && "/"@[0] == '/');
    assert("="@.len() == 1 && "="@[0] == '=');
    assert(">"@.len() == 1 && ">"@[0] == '>');
    assert("<"@.len() == 1 && "<"@[0] == '<');
    assert(">="@.len() == 2 && ">="@[0] == '>' && ">="@[1] == '=');
    assert("<="@.len() == 2 && "<="@[0] == '<' && "<="@[1] == '=');
    assert("out"@.len() == 3 && "out"@[0] == 'o' && "out"@[1] == 'u');
    assert("dup"@.len() == 3 && "dup"@[0] == 'd' && "dup"@[1] == 'u');
    assert("swap"@.len() == 4 && "swap"@[0] == 's' && "swap"@[1] == 'w');
    assert("drop"@.len() == 4 && "drop"@[0] == 'd' && "drop"@[1] == 'r');
    assert("over"@.len() == 4 && "over"@[0] == 'o' && "over"@[1] == 'v');
    assert("rotate"@.len() == 6 && "rotate"@[0] == 'r' && "rotate"@[1] == 'o');
    assert("idx"@.len() == 3 && "idx"@[0] == 'i' && "idx"@[1] == 'd');
    assert("defvar"@.len() == 6 && "defvar"@[0] == 'd' && "defvar"@[1] == 'e');
    assert("if"@.len() == 2 && "if"@[0] == 'i' && "if"@[1] == 'f');
    assert("if*"@.len() == 3 && "if*"@[0] == 'i' && "if*"@[1] == 'f');
    assert("else"@.len() == 4 && "else"@[0] == 'e' && "else"@[1] == 'l');
    assert("end"@.len() == 3 && "end"@[0] == 'e' && "end"@[1] == 'n');
    assert("while"@.len() == 5 && "while"@[0] == 'w' && "while"@[1] == 'h');
    assert("do"@.len() == 2 && "do"@[0] == 'd' && "do"@[1] == 'o');
    assert("defword"@.len() == 7 && "defword"@[0] == 'd' && "defword"@[1] == 'e');
    assert("return"@.len() == 6 && "return"@[0] == 'r' && "return"@[1] == 'e');
    assert("defvar"@[3] == 'v' && "defword"@[3] == 'w');
}

/// An instruction that is not pending stands in the finished program as
/// it stands now.
pub proof fn lemma_settled_is_final(
    tokens: Seq<Lexeme>,
    floats: Map<Seq<char>, u64>,
    k: int,
    st: CompileState,
    j: int,
)
    requires
        shaped(st),
        0 <= k,
        tokens.len() <= usize::MAX,
        st.program.len() <= k,
        0 <= j < st.program.len(),
        !is_pending(st.pending, j),
    ensures
        compile_from(tokens, floats, k, st) matches Ok(p) ==> j < p.len() && p[j]
            == st.program[j],
    decreases tokens.len() - k,
{
    if k < tokens.len() {
        lemma_step_shaped(tokens, floats, k, st);
        if let Ok((next, k2)) = token_step(tokens, floats, k, st) {
            assert(next.program[j] == st.program[j]);
            lemma_settled_is_final(tokens, floats, k2, next, j);
        }
    }
}

/// What is not pending after the step at token `k` stands in the finished
/// program as it stands after that step.
pub proof fn lemma_final_after_step(
    tokens: Seq<Lexeme>,
    floats: Map<Seq<char>, u64>,
    k: int,
    st: CompileState,
    j: int,
)
    requires
        ready(tokens, k, st),
        token_step(tokens, floats, k, st) is Ok,
        0 <= j < token_step(tokens, floats, k, st)->Ok_0.0.program.len(),
        !is_pending(token_step(tokens, floats, k, st)->Ok_0.0.pending, j),
    ensures
        compile_from(tokens, floats, k, st) matches Ok(p) ==> j < p.len() && p[j] == token_step(
            tokens,
            floats,
            k,
            st,
        )->Ok_0.0.program[j],
{
    lemma_step_shaped(tokens, floats, k, st);
    let (next, k2) = token_step(tokens, floats, k, st)->Ok_0;
    lemma_settled_is_final(tokens, floats, k2, next, j);
}

/// The innermost pending sites are not among those below them.
pub proof fn lemma_popped_not_pending(st: CompileState, kept: int, a: int)
    requires
        shaped(st),
        0 <= kept <= a < st.pending.len(),
    ensures
        !is_pending(st.pending.take(kept), st.pending[a].at as int),
        !is_pending(st.pending.take(kept), st.program.len() as int),
{
    let rest = st.pending.take(kept);
    if is_pending(rest, st.pending[a].at as int) {
        let b = choose|b: int| 0 <= b < rest.len() && (#[trigger] rest[b]).at == st.pending[a].at;
        assert(rest[b] == st.pending[b]);
        assert(st.pending[b].at < st.pending[a].at);
    }
    if is_pending(rest, st.program.len() as int) {
        let b = choose|b: int| 0 <= b < rest.len() && (#[trigger] rest[b]).at == st.program.len();
        assert(rest[b] == st.pending[b]);
    }
}

/// `if … end`, and `else … end`.
///
/// Where the compiler meets `end` while the innermost open construct is an
/// `if` or an `else`, the finished program holds, at the index of this
/// `end`, an `End` that goes on to the instruction after itself, and the
/// `If` or `Else` jumps to that `End`.
pub proof fn lemma_end_closes_if(
    tokens: Seq<Lexeme>,
    floats: Map<Seq<char>, u64>,
    k: int,
    st: CompileState,
)
    requires
        ready(tokens, k, st),
        is_word(tokens, k, "end"@),
        st.pending.len() >= 1,
        st.program[open_site(st, 0)] is If || st.program[open_site(st, 0)] is Else,
    ensures
        compile_from(tokens, floats, k, st) matches Ok(p) ==> ({
            let n = st.program.len();
            &&& n + 1 < p.len()
            &&& p[n as int] == Instr::End((n + 1) as usize)
            &&& st.program[open_site(st, 0)] is If ==> p[open_site(st, 0)] == Instr::If(
                n as usize,
            )
            &&& st.program[open_site(st, 0)] is Else ==> p[open_site(st, 0)] == Instr::Else(
                n as usize,
            )
        }),
{
    lemma_words_differ();
    let m = st.pending.len() as int;
    assert(word_step(tokens, k, st) is Ok);
    lemma_popped_not_pending(st, m - 1, m - 1);
    lemma_final_after_step(tokens, floats, k, st, open_site(st, 0));
    lemma_final_after_step(tokens, floats, k, st, st.program.len() as int);
    lemma_compile_resolved(tokens, floats, k, st);
}

/// `if … else`.
///
/// Where the compiler meets `else` while the innermost open construct is an
/// `if`, the finished program holds an `Else` at the index of this `else`,
/// and the `If` jumps to the instruction after that `Else`.
pub proof fn lemma_else_closes_if(
    tokens: Seq<Lexeme>,
    floats: Map<Seq<char>, u64>,
    k: int,
    st: CompileState,
)
    requires
        ready(tokens, k, st),
        is_word(tokens, k, "else"@),
        st.pending.len() >= 1,
        st.program[open_site(st, 0)] is If,
    ensures
        compile_from(tokens, floats, k, st) matches Ok(p) ==> ({
            let n = st.program.len();
            &&& n < p.len()
            &&& p[n as int] is Else
            &&& p[open_site(st, 0)] == Instr::If((n + 1) as usize)
        }),
{
    lemma_words_differ();
    let m = st.pending.len() as int;
    assert(word_step(tokens, k, st) is Ok);
    let next = token_step(tokens, floats, k, st)->Ok_0.0;
    let k2 = token_step(tokens, floats, k, st)->Ok_0.1;
    lemma_step_shaped(tokens, floats, k, st);
    lemma_popped_not_pending(st, m - 1, m - 1);
    let rest = st.pending.take(m - 1);
    assert(!is_pending(next.pending, open_site(st, 0))) by {
        if is_pending(next.pending, open_site(st, 0)) {
            let b = choose|b: int|
                0 <= b < next.pending.len() && (#[trigger] next.pending[b]).at == open_site(
                    st,
                    0,
                );
            if b < m - 1 {
                assert(next.pending[b] == rest[b]);
            }
        }
    }
    lemma_final_after_step(tokens, floats, k, st, open_site(st, 0));
    lemma_kind_is_final(tokens, floats, k2, next, st.program.len() as int);
}

/// An instruction stays the opener that it is, or the instruction that it
/// is if it is no opener, up to the finished program.
pub proof fn lemma_kind_is_final(
    tokens: Seq<Lexeme>,
    floats: Map<Seq<char>, u64>,
    k: int,
    st: CompileState,
    j: int,
)
    requires
        shaped(st),
        0 <= k,
        tokens.len() <= usize::MAX,
        st.program.len() <= k,
        0 <= j < st.program.len(),
    ensures
        compile_from(tokens, floats, k, st) matches Ok(p) ==> j < p.len()
            && similar(st.program[j], p[j]),
    decreases tokens.len() - k,
{
    if k < tokens.len() {
        lemma_step_shaped(tokens, floats, k, st);
        if let Ok((next, k2)) = token_step(tokens, floats, k, st) {
            lemma_step_extends(tokens, floats, k, st);
            assert(similar(st.program[j], next.program[j]));
            lemma_kind_is_final(tokens, floats, k2, next, j);
        }
    }
}

/// A step patches openers and adds an instruction, and does nothing else
/// to the program.
pub proof fn lemma_step_extends(
    tokens: Seq<Lexeme>,
    floats: Map<Seq<char>, u64>,
    k: int,
    st: CompileState,
)
    requires
        ready(tokens, k, st),
    ensures
        token_step(tokens, floats, k, st) matches Ok((next, _)) ==> extends(
            st.program,
            next.program,
        ),
{
    if let Ok((next, k2)) = token_step(tokens, floats, k, st) {
        let p = st.program;
        let q = next.program;
        assert(q.len() == p.len() + 1) by {
            lemma_step_shaped(tokens, floats, k, st);
        }
        let m = st.pending.len() as int;
        assert forall|x: int| 0 <= x < p.len() implies similar(
            p[x],
            #[trigger] q[x],
        ) by {
            if m >= 1 {
                assert(st.pending[m - 1].at < p.len());
                assert(opener_of(p[st.pending[m - 1].at as int])
                    != Opener::Other);
            }
            if m >= 2 {
                assert(st.pending[m - 2].at < p.len());
                assert(opener_of(p[st.pending[m - 2].at as int])
                    != Opener::Other);
            }
        }
    }
}

/// `else … if* … else`.
///
/// Where the compiler meets `else` while the innermost open construct is an
/// `if*` with an `else` below it, the finished program holds an `Else` at
/// the index of this `else`; the `Ifstar` jumps to the instruction after it,
/// and the `Else` below jumps to it.
pub proof fn lemma_else_closes_else_if(
    tokens: Seq<Lexeme>,
    floats: Map<Seq<char>, u64>,
    k: int,
    st: CompileState,
)
    requires
        ready(tokens, k, st),
        is_word(tokens, k, "else"@),
        st.pending.len() >= 2,
        st.program[open_site(st, 0)] is Ifstar,
        st.program[open_site(st, 1)] is Else,
    ensures
        compile_from(tokens, floats, k, st) matches Ok(p) ==> ({
            let n = st.program.len();
            &&& n < p.len()
            &&& p[n as int] is Else
            &&& p[open_site(st, 0)] == Instr::Ifstar((n + 1) as usize)
            &&& p[open_site(st, 1)] == Instr::Else(n as usize)
        }),
{
    lemma_words_differ();
    let m = st.pending.len() as int;
    assert(st.pending[m - 2].at < st.pending[m - 1].at);
    assert(word_step(tokens, k, st) is Ok);
    let next = token_step(tokens, floats, k, st)->Ok_0.0;
    let k2 = token_step(tokens, floats, k, st)->Ok_0.1;
    lemma_step_shaped(tokens, floats, k, st);
    lemma_popped_not_pending(st, m - 2, m - 1);
    lemma_popped_not_pending(st, m - 2, m - 2);
    let rest = st.pending.take(m - 2);
    assert forall|j: int| j == open_site(st, 0) || j == open_site(st, 1) implies !is_pending(
        next.pending,
        j,
    ) by {
        if is_pending(next.pending, j) {
            let b = choose|b: int| 0 <= b < next.pending.len() && (#[trigger] next.pending[b]).at == j;
            if b < m - 2 {
                assert(next.pending[b] == rest[b]);
            }
        }
    }
    lemma_final_after_step(tokens, floats, k, st, open_site(st, 0));
    lemma_final_after_step(tokens, floats, k, st, open_site(st, 1));
    lemma_kind_is_final(tokens, floats, k2, next, st.program.len() as int);
}

/// `else … if* … end`.
///
/// Where the compiler meets `end` while the innermost open construct is an
/// `if*` with an `else` below it, the finished program holds, at the index
/// of this `end`, an `End` that goes on to the instruction after itself, and
/// both the `Ifstar` and the `Else` jump to that `End`.
pub proof fn lemma_end_closes_else_if(
    tokens: Seq<Lexeme>,
    floats: Map<Seq<char>, u64>,
    k: int,
    st: CompileState,
)
    requires
        ready(tokens, k, st),
        is_word(tokens, k, "end"@),
        st.pending.len() >= 2,
        st.program[open_site(st, 0)] is Ifstar,
        st.program[open_site(st, 1)] is Else,
    ensures
        compile_from(tokens, floats, k, st) matches Ok(p) ==> ({
            let n = st.program.len();
            &&& n < p.len()
            &&& p[n as int] == Instr::End((n + 1) as usize)
            &&& p[open_site(st, 0)] == Instr::Ifstar(n as usize)
            &&& p[open_site(st, 1)] == Instr::Else(n as usize)
        }),
{
    lemma_words_differ();
    let m = st.pending.len() as int;
    assert(st.pending[m - 2].at < st.pending[m - 1].at);
    assert(word_step(tokens, k, st) is Ok);
    lemma_popped_not_pending(st, m - 2, m - 1);
    lemma_popped_not_pending(st, m - 2, m - 2);
    lemma_final_after_step(tokens, floats, k, st, open_site(st, 0));
    lemma_final_after_step(tokens, floats, k, st, open_site(st, 1));
    lemma_final_after_step(tokens, floats, k, st, st.program.len() as int);
}

/// `while … do … end`.
///
/// Where the compiler meets `end` while the innermost open construct is a
/// `do` with a `while` below it, the finished program holds, at the index of
/// this `end`, an `End` that jumps back to the `While`, and the `Do` jumps
/// to the instruction after that `End`. What stands between the `While` and
/// the `End` stands there as the compiler left it when it met this `end`.
pub proof fn lemma_end_closes_loop(
    tokens: Seq<Lexeme>,
    floats: Map<Seq<char>, u64>,
    k: int,
    st: CompileState,
)
    requires
        ready(tokens, k, st),
        is_word(tokens, k, "end"@),
        st.pending.len() >= 2,
        st.program[open_site(st, 0)] is Do,
        st.program[open_site(st, 1)] is While,
    ensures
        compile_from(tokens, floats, k, st) matches Ok(p) ==> ({
            let n = st.program.len();
            &&& n < p.len()
            &&& p[n as int] == Instr::End(open_site(st, 1) as usize)
            &&& p[open_site(st, 0)] == Instr::Do((n + 1) as usize)
            &&& p[open_site(st, 1)] is While
            &&& forall|j: int|
                open_site(st, 1) < j < n && j != open_site(st, 0) ==> #[trigger] p[j]
                    == st.program[j]
        }),
{
    lemma_words_differ();
    let m = st.pending.len() as int;
    assert(st.pending[m - 2].at < st.pending[m - 1].at);
    assert(word_step(tokens, k, st) is Ok);
    lemma_popped_not_pending(st, m - 2, m - 1);
    lemma_popped_not_pending(st, m - 2, m - 2);
    lemma_final_after_step(tokens, floats, k, st, open_site(st, 0));
    lemma_final_after_step(tokens, floats, k, st, open_site(st, 1));
    lemma_final_after_step(tokens, floats, k, st, st.program.len() as int);
    if let Ok(p) = compile_from(tokens, floats, k, st) {
        assert forall|j: int|
            open_site(st, 1) < j < st.program.len() && j != open_site(st, 0) implies #[trigger] p[j]
                == st.program[j] by {
            assert(!is_pending(st.pending, j)) by {
                if is_pending(st.pending, j) {
                    let b = choose|b: int|
                        0 <= b < st.pending.len() && (#[trigger] st.pending[b]).at == j;
                    if b < m - 2 {
                        assert(st.pending[b].at < st.pending[m - 2].at);
                    }
                }
            }
            lemma_settled_is_final(tokens, floats, k, st, j);
        }
    }
}

/// `defword … return`.
///
/// Where the compiler meets `return` while the innermost open construct is
/// a `defword`, the finished program holds a `Return` at the index of this
/// `return`, and the `Defword` jumps to the instruction after it.
pub proof fn lemma_return_closes_word(
    tokens: Seq<Lexeme>,
    floats: Map<Seq<char>, u64>,
    k: int,
    st: CompileState,
)
    requires
        ready(tokens, k, st),
        is_word(tokens, k, "return"@),
        st.pending.len() >= 1,
        st.program[open_site(st, 0)] is Defword,
    ensures
        compile_from(tokens, floats, k, st) matches Ok(p) ==> ({
            let n = st.program.len();
            &&& n < p.len()
            &&& p[n as int] is Return
            &&& p[open_site(st, 0)] == Instr::Defword((n + 1) as usize)
        }),
{
    lemma_words_differ();
    let m = st.pending.len() as int;
    assert(word_step(tokens, k, st) is Ok);
    lemma_popped_not_pending(st, m - 1, m - 1);
    lemma_final_after_step(tokens, floats, k, st, open_site(st, 0));
    lemma_final_after_step(tokens, floats, k, st, st.program.len() as int);
}

/// `defword NAME`.
///
/// Where the compiler meets `defword` and a token after it, it emits a
/// `Defword`, takes the text of that token as the name of the word, and from
/// then on knows the name as the address of the instruction after the
/// `Defword`: before it compiles the first token of the body.
pub proof fn lemma_defword_binds(
    tokens: Seq<Lexeme>,
    floats: Map<Seq<char>, u64>,
    k: int,
    st: CompileState,
)
    requires
        ready(tokens, k, st),
        is_word(tokens, k, "defword"@),
        k + 1 < tokens.len(),
    ensures
        token_step(tokens, floats, k, st) matches Ok((next, k2)) && ({
            &&& k2 == k + 2
            &&& next.program.len() == st.program.len() + 1
            &&& next.program[st.program.len() as int] is Defword
            &&& next.words == st.words.insert(
                tokens[k + 1].text,
                (st.program.len() + 1) as usize,
            )
            &&& compile_from(tokens, floats, k, st) == compile_from(tokens, floats, k + 2, next)
        }),
{
    lemma_words_differ();
}

/// A defined word is known until it is defined again: a step that is not
/// that of a `defword` leaves the dictionary as it is.
pub proof fn lemma_words_kept(
    tokens: Seq<Lexeme>,
    floats: Map<Seq<char>, u64>,
    k: int,
    st: CompileState,
)
    requires
        0 <= k < tokens.len(),
        !is_word(tokens, k, "defword"@),
    ensures
        token_step(tokens, floats, k, st) matches Ok((next, _)) ==> next.words == st.words,
{
}

/// A call.
///
/// Where the compiler meets a word that is no word of the language and
/// that it knows as a defined word, the finished program holds, at the
/// index at which the compiler stands, a `Call` to the address under which
/// it knows the word.
pub proof fn lemma_call_compiles(
    tokens: Seq<Lexeme>,
    floats: Map<Seq<char>, u64>,
    k: int,
    st: CompileState,
)
    requires
        ready(tokens, k, st),
        tokens[k].kind == TokenKind::Word,
        !is_reserved(tokens[k].text),
        st.words.contains_key(tokens[k].text),
    ensures
        compile_from(tokens, floats, k, st) matches Ok(p) ==> st.program.len() < p.len()
            && p[st.program.len() as int] == Instr::Call(st.words[tokens[k].text]),
{
    let next = token_step(tokens, floats, k, st)->Ok_0.0;
    lemma_step_shaped(tokens, floats, k, st);
    assert(next.pending == st.pending);
    assert(!is_pending(next.pending, st.program.len() as int)) by {
        if is_pending(next.pending, st.program.len() as int) {
            let b = choose|b: int|
                0 <= b < st.pending.len() && (#[trigger] st.pending[b]).at == st.program.len();
        }
    }
    lemma_final_after_step(tokens, floats, k, st, st.program.len() as int);
}

/// A word may call itself.
///
/// Where the first token of the body of `defword NAME` is `NAME` itself,
/// and `NAME` is no word of the language, the finished program holds a
/// `Call` to the first instruction of the body as the first instruction of
/// the body.
pub proof fn lemma_word_calls_itself(
    tokens: Seq<Lexeme>,
    floats: Map<Seq<char>, u64>,
    k: int,
    st: CompileState,
)
    requires
        ready(tokens, k, st),
        is_word(tokens, k, "defword"@),
        k + 2 < tokens.len(),
        tokens[k + 2].kind == TokenKind::Word,
        tokens[k + 2].text == tokens[k + 1].text,
        !is_reserved(tokens[k + 1].text),
    ensures
        compile_from(tokens, floats, k, st) matches Ok(p) ==> st.program.len() + 1 < p.len()
            && p[(st.program.len() + 1) as int] == Instr::Call((st.program.len() + 1) as usize),
{
    lemma_defword_binds(tokens, floats, k, st);
    lemma_step_shaped(tokens, floats, k, st);
    let next = token_step(tokens, floats, k, st)->Ok_0.0;
    lemma_call_compiles(tokens, floats, k + 2, next);
}

/// The word that emits the opener `opener`.
pub open spec fn opener_word(opener: Opener) -> Seq<char> {
    match opener {
        Opener::If => "if"@,
        Opener::Ifstar => "if*"@,
        Opener::Else => "else"@,
        Opener::While => "while"@,
        Opener::Do => "do"@,
        Opener::Defword => "defword"@,
        Opener::Other => Seq::empty(),
    }
}

/// Whether every pending site names the token that opened it: one of the
/// tokens before `k`, the word that emits the opener at the site, and that
/// token's line and column.
pub open spec fn sited(tokens: Seq<Lexeme>, k: int, st: CompileState) -> bool {
    forall|a: int|
        0 <= a < st.pending.len() ==> {
            let site = #[trigger] st.pending[a];
            &&& site.token < k
            &&& is_word(
                tokens,
                site.token as int,
                opener_word(opener_of(st.program[site.at as int])),
            )
            &&& site.line == tokens[site.token as int].line as usize
            &&& site.column == tokens[site.token as int].column as usize
        }
}

/// Whether `kind` says that a construct was not closed.
pub open spec fn is_unclosed(kind: CompileErrorKind) -> bool {
    ||| kind == CompileErrorKind::UnclosedIf
    ||| kind == CompileErrorKind::UnclosedElse
    ||| kind == CompileErrorKind::UnclosedDo
    ||| kind == CompileErrorKind::UnclosedWhile
    ||| kind == CompileErrorKind::UnclosedWord
}

/// The words that an error of kind `kind` about a construct that was not
/// closed can be about.
pub open spec fn unclosed_word(kind: CompileErrorKind, word: Seq<char>) -> bool {
    match kind {
        CompileErrorKind::UnclosedIf => word == "if"@ || word == "if*"@,
        CompileErrorKind::UnclosedElse => word == "else"@,
        CompileErrorKind::UnclosedDo => word == "do"@,
        CompileErrorKind::UnclosedWhile => word == "while"@,
        CompileErrorKind::UnclosedWord => word == "defword"@,
        _ => true,
    }
}

/// A step keeps every pending site naming the token that opened it.
pub proof fn lemma_step_sited(
    tokens: Seq<Lexeme>,
    floats: Map<Seq<char>, u64>,
    k: int,
    st: CompileState,
)
    requires
        ready(tokens, k, st),
        sited(tokens, k, st),
    ensures
        token_step(tokens, floats, k, st) matches Ok((next, k2)) ==> sited(tokens, k2, next),
        token_step(tokens, floats, k, st) matches Err(e) ==> !is_unclosed(e.kind) && e.token == k
            && e.line == tokens[k].line as usize && e.column == tokens[k].column as usize,
{
    lemma_words_differ();
    if let Ok((next, k2)) = token_step(tokens, floats, k, st) {
        lemma_step_shaped(tokens, floats, k, st);
        lemma_step_extends(tokens, floats, k, st);
        let n = st.program.len() as int;
        let m = st.pending.len() as int;
        assert forall|a: int| 0 <= a < next.pending.len() implies ({
            let site = #[trigger] next.pending[a];
            &&& site.token < k2
            &&& is_word(
                tokens,
                site.token as int,
                opener_word(opener_of(next.program[site.at as int])),
            )
            &&& site.line == tokens[site.token as int].line as usize
            &&& site.column == tokens[site.token as int].column as usize
        }) by {
            let site = next.pending[a];
            if site.at == n {
            } else {
                assert(a < m && site == st.pending[a]);
                assert(similar(st.program[site.at as int], next.program[site.at as int]));
            }
        }
    }
}

/// A compile-time error is at a token; one about a construct that was not
/// closed is at the token that opened the construct.
pub proof fn lemma_error_is_at_token(
    tokens: Seq<Lexeme>,
    floats: Map<Seq<char>, u64>,
    k: int,
    st: CompileState,
)
    requires
        shaped(st),
        sited(tokens, k, st),
        0 <= k,
        tokens.len() <= usize::MAX,
        st.program.len() <= k,
    ensures
        compile_from(tokens, floats, k, st) matches Err(e) ==> {
            &&& e.token < tokens.len()
            &&& e.line == tokens[e.token as int].line as usize
            &&& e.column == tokens[e.token as int].column as usize
            &&& is_unclosed(e.kind) ==> tokens[e.token as int].kind == TokenKind::Word
                && unclosed_word(e.kind, tokens[e.token as int].text)
        },
    decreases tokens.len() - k,
{
    if k < tokens.len() {
        lemma_step_sited(tokens, floats, k, st);
        lemma_step_shaped(tokens, floats, k, st);
        if let Ok((next, k2)) = token_step(tokens, floats, k, st) {
            lemma_error_is_at_token(tokens, floats, k2, next);
        }
    } else if st.pending.len() > 0 {
        let site = st.pending[0];
        assert(site.token < k);
    }
}

/// Every compile-time error carries the index, the line and the column of
/// a token of the stream. An error about a construct that was not closed
/// carries those of the word that opened the construct: `UnclosedIf` those
/// of an `if` or an `if*`, `UnclosedElse` those of an `else`, `UnclosedDo`
/// those of a `do`, `UnclosedWhile` those of a `while`, and `UnclosedWord`
/// those of a `defword`.
pub proof fn lemma_errors_cite_tokens(tokens: Seq<Lexeme>, floats: Map<Seq<char>, u64>)
    requires
        tokens.len() <= usize::MAX,
    ensures
        compiled(tokens, floats) matches Err(e) ==> {
            &&& e.token < tokens.len()
            &&& e.line == tokens[e.token as int].line as usize
            &&& e.column == tokens[e.token as int].column as usize
            &&& is_unclosed(e.kind) ==> tokens[e.token as int].kind == TokenKind::Word
                && unclosed_word(e.kind, tokens[e.token as int].text)
        },
{
    lemma_error_is_at_token(tokens, floats, 0, initial());
}

/// Whether token `k` takes the token after it as a name: it is `defword`
/// or `defvar`, and it is not the last token.
pub open spec fn takes_name(tokens: Seq<Lexeme>, k: int) -> bool {
    (is_word(tokens, k, "defword"@) || is_word(tokens, k, "defvar"@)) && k + 1 < tokens.len()
}

/// The number of instructions that the tokens from `k` on stand for: one
/// for each token, but none for the name that follows `defword` or `defvar`.
pub open spec fn instructions_from(tokens: Seq<Lexeme>, k: int) -> nat
    decreases tokens.len() - k,
{
    if !(0 <= k < tokens.len()) {
        0
    } else if takes_name(tokens, k) {
        1 + instructions_from(tokens, k + 2)
    } else {
        1 + instructions_from(tokens, k + 1)
    }
}

/// A step moves on by two tokens where the token takes a name, else by one.
pub proof fn lemma_step_moves(
    tokens: Seq<Lexeme>,
    floats: Map<Seq<char>, u64>,
    k: int,
    st: CompileState,
)
    requires
        0 <= k < tokens.len(),
    ensures
        token_step(tokens, floats, k, st) matches Ok((_, k2)) ==> k2 == if takes_name(tokens, k) {
            k + 2
        } else {
            k + 1
        },
{
    lemma_words_differ();
}

/// The length of the program that the compiler returns from `st` for the
/// tokens from `k` on.
pub proof fn lemma_length_from(
    tokens: Seq<Lexeme>,
    floats: Map<Seq<char>, u64>,
    k: int,
    st: CompileState,
)
    requires
        shaped(st),
        0 <= k,
        tokens.len() <= usize::MAX,
        st.program.len() <= k,
    ensures
        compile_from(tokens, floats, k, st) matches Ok(p) ==> p.len() == st.program.len()
            + instructions_from(tokens, k) + 1,
    decreases tokens.len() - k,
{
    if k < tokens.len() {
        lemma_step_shaped(tokens, floats, k, st);
        lemma_step_moves(tokens, floats, k, st);
        if let Ok((next, k2)) = token_step(tokens, floats, k, st) {
            lemma_length_from(tokens, floats, k2, next);
        }
    }
}

/// A compiled program holds one instruction for each token, but none for the
/// name that follows `defword` or `defvar`, and `EndOfProgram` at its end.
pub proof fn lemma_compiled_length(tokens: Seq<Lexeme>, floats: Map<Seq<char>, u64>)
    requires
        tokens.len() <= usize::MAX,
    ensures
        compiled(tokens, floats) matches Ok(p) ==> p.len() == instructions_from(tokens, 0) + 1,
{
    lemma_length_from(tokens, floats, 0, initial());
}

} // verus!
