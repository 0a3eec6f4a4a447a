//! What holds of every program that the compiler returns: each jump is
//! resolved, and lands where the construct that it belongs to says.

use crate::compiler::{
    close_else, close_end, close_return, compile_from, compiled, emit, finish, initial, literal_op,
    open, opener_of, patched, plain_op, site_of, token_step, CompileState, Instr, Opener, Site,
};
use crate::lexer::{Lexeme, TokenKind};
use vstd::prelude::*;

verus! {

/// Whether the instruction at `j` is on the stack of pending sites.
pub open spec fn is_pending(pending: Seq<Site>, j: int) -> bool {
    exists|a: int| 0 <= a < pending.len() && (#[trigger] pending[a]).at == j
}

/// Whether the instruction at `j` is resolved and lands where it should.
///
/// - `If` and `Ifstar` jump forward, to the instruction after the `Else`
///   that closes them or to the `End` that does, and that `End` goes on to
///   the instruction after itself.
/// - `Else` jumps forward, to the `End` that closes it, which goes on to the
///   instruction after itself, or to the next `Else` of its chain.
/// - `Do` jumps forward, past the `End` that closes the loop, and that `End`
///   jumps back to the `While` before the `Do`.
/// - `End` goes on to the instruction after itself, or jumps back to a
///   `While`.
/// - `Defword` jumps forward, past the `Return` that closes the word.
/// - `Call` lands on the instruction after a `Defword`.
pub open spec fn settled(p: Seq<Instr>, j: int) -> bool {
    match p[j] {
        Instr::If(t) | Instr::Ifstar(t) => j < t <= p.len() && ((j < t - 1 && p[t - 1] is Else) || (
        t < p.len() && p[t as int] == Instr::End((t + 1) as usize))),
        Instr::Else(t) => j < t < p.len() && (p[t as int] == Instr::End((t + 1) as usize)
            || p[t as int] is Else),
        Instr::Do(t) => j + 1 < t <= p.len() && (p[t - 1] matches Instr::End(w) && w < j
            && p[w as int] is While),
        Instr::End(l) => l == j + 1 || (l < j && p[l as int] is While),
        Instr::Defword(t) => j + 1 < t <= p.len() && p[t - 1] is Return,
        Instr::Call(a) => 1 <= a <= p.len() && p[a - 1] is Defword,
        _ => true,
    }
}

/// The jump target of an instruction, if it has one.
pub open spec fn target_of(op: Instr) -> Option<usize> {
    match op {
        Instr::If(t) => Some(t),
        Instr::Ifstar(t) => Some(t),
        Instr::Else(t) => Some(t),
        Instr::End(t) => Some(t),
        Instr::Do(t) => Some(t),
        Instr::Defword(t) => Some(t),
        Instr::Call(t) => Some(t),
        _ => None,
    }
}

/// Whether every jump of `p` is resolved: it lands inside `p`, where the
/// construct that it belongs to says.
pub open spec fn resolved(p: Seq<Instr>) -> bool {
    forall|j: int|
        0 <= j < p.len() ==> #[trigger] settled(p, j) && (target_of(p[j]) matches Some(t) ==> t
            < p.len())
}

/// Whether `op`, if it jumps, jumps to an instruction from `first` to `last`.
/// `EndOfProgram` is not inside anything.
pub open spec fn inside(op: Instr, first: int, last: int) -> bool {
    match op {
        Instr::If(t) | Instr::Ifstar(t) | Instr::Else(t) | Instr::End(t) | Instr::Do(t)
        | Instr::Defword(t) => first <= t <= last,
        Instr::EndOfProgram => false,
        _ => true,
    }
}

/// Whether the loop of the `Do` at `d` is closed in itself: of the
/// instructions from the loop's `While` to its `End`, only the `Do` jumps
/// out of that range. `Call` and `Return` are left aside.
pub open spec fn loop_closed(p: Seq<Instr>, d: int) -> bool {
    p[d] matches Instr::Do(t) ==> forall|x: int|
        p[t - 1]->End_0 <= x <= t - 1 && x != d ==> inside(
            #[trigger] p[x],
            p[t - 1]->End_0 as int,
            t - 1,
        )
}

/// Whether every loop of `p` is closed in itself, and `EndOfProgram` stands
/// at the end of `p` and nowhere else.
pub open spec fn enclosed(p: Seq<Instr>) -> bool {
    &&& forall|d: int| 0 <= d < p.len() ==> #[trigger] loop_closed(p, d)
    &&& forall|j: int| 0 <= j < p.len() - 1 ==> !(#[trigger] p[j] is EndOfProgram)
    &&& p.len() > 0 && p[p.len() - 1] is EndOfProgram
}

/// What holds of the compiler's state between two tokens: the pending
/// sites are openers, in the order in which they were emitted; every other
/// instruction is settled; every defined word's address follows a
/// `Defword`; no pending site lies between an `End` and the `While` that it
/// jumps back to; every loop that is closed is closed in itself; and no
/// `EndOfProgram` has been emitted.
pub open spec fn shaped(st: CompileState) -> bool {
    &&& forall|a: int|
        0 <= a < st.pending.len() ==> (#[trigger] st.pending[a]).at < st.program.len()
            && opener_of(st.program[st.pending[a].at as int]) != Opener::Other
    &&& forall|a: int, b: int|
        0 <= a < b < st.pending.len() ==> (#[trigger] st.pending[a]).at < (
        #[trigger] st.pending[b]).at
    &&& forall|j: int|
        0 <= j < st.program.len() && !is_pending(st.pending, j) ==> #[trigger] settled(
            st.program,
            j,
        )
    &&& forall|name: Seq<char>|
        st.words.contains_key(name) ==> 1 <= #[trigger] st.words[name] <= st.program.len()
            && st.program[st.words[name] - 1] is Defword
    &&& forall|j: int, a: int|
        0 <= j < st.program.len() && 0 <= a < st.pending.len() && (
        #[trigger] st.program[j] matches Instr::End(l) && l < j) ==> (
        #[trigger] st.pending[a]).at < st.program[j]->End_0 || st.pending[a].at > j
    &&& forall|d: int|
        0 <= d < st.program.len() && !is_pending(st.pending, d) ==> #[trigger] loop_closed(
            st.program,
            d,
        )
    &&& forall|j: int| 0 <= j < st.program.len() ==> !(#[trigger] st.program[j] is EndOfProgram)
}

/// Whether `b` may stand where `a` stood without unsettling anything: the
/// same opener with another target, or the same instruction.
pub open spec fn similar(a: Instr, b: Instr) -> bool {
    opener_of(a) == opener_of(b) && (opener_of(a) == Opener::Other ==> a == b)
}

/// Whether `q` is `p` with openers patched and instructions added.
pub open spec fn extends(p: Seq<Instr>, q: Seq<Instr>) -> bool {
    p.len() <= q.len() && forall|x: int| 0 <= x < p.len() ==> similar(p[x], #[trigger] q[x])
}

/// A settled instruction stays settled while openers are patched and
/// instructions are added.
pub proof fn lemma_settled_persists(p: Seq<Instr>, q: Seq<Instr>, j: int)
    requires
        0 <= j < p.len(),
        settled(p, j),
        q[j] == p[j],
        extends(p, q),
    ensures
        settled(q, j),
{
    match p[j] {
        Instr::If(t) | Instr::Ifstar(t) => {
            if j < t - 1 && p[t - 1] is Else {
                assert(similar(p[t - 1], q[t - 1]));
            } else {
                assert(similar(p[t as int], q[t as int]));
            }
        },
        Instr::Else(t) => {
            assert(similar(p[t as int], q[t as int]));
        },
        Instr::Do(t) => {
            assert(similar(p[t - 1], q[t - 1]));
            let w = p[t - 1]->End_0;
            assert(similar(p[w as int], q[w as int]));
        },
        Instr::End(l) => {
            if l != j + 1 {
                assert(similar(p[l as int], q[l as int]));
            }
        },
        Instr::Defword(t) => {
            assert(similar(p[t - 1], q[t - 1]));
        },
        Instr::Call(a) => {
            assert(similar(p[a - 1], q[a - 1]));
        },
        _ => {},
    }
}

/// Patching an opener and adding an instruction extends the program.
pub proof fn lemma_patch_extends(p: Seq<Instr>, at: int, target: int, op: Instr)
    requires
        0 <= at < p.len(),
        opener_of(p[at]) != Opener::Other,
    ensures
        extends(p, patched(p, at, target)),
        extends(p, patched(p, at, target).push(op)),
        extends(patched(p, at, target), patched(p, at, target).push(op)),
        extends(p, p.push(op)),
        opener_of(patched(p, at, target)[at]) == opener_of(p[at]),
        target_of(patched(p, at, target)[at]) == Some(target as usize) || p[at] is While,
{
    let q = patched(p, at, target);
    assert forall|x: int| 0 <= x < p.len() implies similar(p[x], #[trigger] q[x]) by {}
    assert forall|x: int| 0 <= x < p.len() implies similar(p[x], #[trigger] q.push(op)[x]) by {}
    assert forall|x: int| 0 <= x < q.len() implies similar(q[x], #[trigger] q.push(op)[x]) by {}
    assert forall|x: int| 0 <= x < p.len() implies similar(p[x], #[trigger] p.push(op)[x]) by {}
}

/// Extending twice extends.
pub proof fn lemma_extends_twice(p: Seq<Instr>, q: Seq<Instr>, r: Seq<Instr>)
    requires
        extends(p, q),
        extends(q, r),
    ensures
        extends(p, r),
{
    assert forall|x: int| 0 <= x < p.len() implies similar(p[x], #[trigger] r[x]) by {
        assert(similar(p[x], q[x]));
        assert(similar(q[x], r[x]));
    }
}

/// Whether the step from `st` to `next` left every instruction alone that
/// was not pending, and made none of them pending.
pub open spec fn keeps(st: CompileState, next: CompileState) -> bool {
    &&& st.program.len() <= next.program.len()
    &&& forall|j: int|
        0 <= j < st.program.len() && !is_pending(st.pending, j) ==> #[trigger] next.program[j]
            == st.program[j] && !is_pending(next.pending, j)
}

/// The state after sites are popped, openers among them are patched, and
/// one instruction is added is shaped, if the popped sites and the added
/// instruction are settled or pending in it.
///
/// `st` is the state before, `q` the program after, `kept` the number of
/// pending sites that stay, and `added` the sites put on top of them.
pub proof fn lemma_reshaped(st: CompileState, q: Seq<Instr>, kept: int, added: Seq<Site>)
    requires
        shaped(st),
        0 <= kept <= st.pending.len(),
        q.len() == st.program.len() + 1,
        extends(st.program, q),
        forall|j: int|
            0 <= j < st.program.len() && !is_pending(st.pending, j) ==> q[j] == st.program[j],
        forall|a: int| 0 <= a < kept ==> q[(#[trigger] st.pending[a]).at as int] == st.program[st.pending[a].at as int],
        forall|a: int| kept <= a < st.pending.len() ==> settled(q, (#[trigger] st.pending[a]).at as int),
        added.len() == 0 ==> settled(q, st.program.len() as int),
        added.len() <= 1,
        added.len() == 1 ==> added[0].at == st.program.len() && opener_of(q[st.program.len() as int]) != Opener::Other,
        added.len() == 0 ==> opener_of(q[st.program.len() as int]) == Opener::Other,
        !(q[st.program.len() as int] is EndOfProgram),
        (q[st.program.len() as int] matches Instr::End(l) && l < st.program.len()) ==> kept
            < st.pending.len() && q[st.program.len() as int]->End_0 == st.pending[kept].at,
        forall|a: int| kept <= a < st.pending.len() ==> loop_closed(q, (#[trigger] st.pending[a]).at as int),
    ensures
        shaped(CompileState { program: q, pending: st.pending.take(kept) + added, words: st.words }),
        keeps(
            st,
            CompileState { program: q, pending: st.pending.take(kept) + added, words: st.words },
        ),
{
    let p = st.program;
    let n = p.len() as int;
    let pend = st.pending.take(kept) + added;
    let after = CompileState { program: q, pending: pend, words: st.words };
    assert forall|j: int| 0 <= j < n && !is_pending(st.pending, j) implies !is_pending(
        pend,
        j,
    ) by {
        if is_pending(pend, j) {
            let a = choose|a: int| 0 <= a < pend.len() && (#[trigger] pend[a]).at == j;
            if a < kept {
                assert(pend[a] == st.pending[a]);
            } else {
                assert(pend[a] == added[0]);
            }
        }
    }
    assert forall|a: int| 0 <= a < pend.len() implies (#[trigger] pend[a]).at < q.len()
        && opener_of(q[pend[a].at as int]) != Opener::Other by {
        if a < kept {
            assert(pend[a] == st.pending[a]);
            assert(similar(p[st.pending[a].at as int], q[st.pending[a].at as int]));
        } else {
            assert(pend[a] == added[0]);
        }
    }
    assert forall|a: int, b: int| 0 <= a < b < pend.len() implies (#[trigger] pend[a]).at < (
    #[trigger] pend[b]).at by {
        assert(pend[a] == st.pending[a]);
        if b < kept {
            assert(pend[b] == st.pending[b]);
        } else {
            assert(pend[b] == added[0]);
        }
    }
    assert forall|j: int| 0 <= j < q.len() && !is_pending(pend, j) implies #[trigger] settled(
        q,
        j,
    ) by {
        if j == n {
            if added.len() == 1 {
                assert(pend[kept] == added[0]);
                assert(is_pending(pend, j));
            }
        } else if is_pending(st.pending, j) {
            let a = choose|a: int| 0 <= a < st.pending.len() && (#[trigger] st.pending[a]).at == j;
            if a < kept {
                assert(pend[a] == st.pending[a]);
                assert(is_pending(pend, j));
            }
        } else {
            assert(settled(p, j));
            lemma_settled_persists(p, q, j);
        }
    }
    assert forall|name: Seq<char>| st.words.contains_key(name) implies 1
        <= #[trigger] st.words[name] <= q.len() && q[st.words[name] - 1] is Defword by {
        assert(similar(p[st.words[name] - 1], q[st.words[name] - 1]));
    }
    assert forall|j: int, a: int|
        0 <= j < q.len() && 0 <= a < pend.len() && (#[trigger] q[j] matches Instr::End(l) && l
            < j) implies (#[trigger] pend[a]).at < q[j]->End_0 || pend[a].at > j by {
        if j < n {
            assert(similar(p[j], q[j]));
            if a < kept {
                assert(pend[a] == st.pending[a]);
            } else {
                assert(pend[a] == added[0]);
            }
        } else {
            assert(pend[a] == st.pending[a]);
        }
    }
    assert forall|d: int| 0 <= d < q.len() && !is_pending(pend, d) implies #[trigger] loop_closed(
        q,
        d,
    ) by {
        if d == n {
            if added.len() == 1 {
                assert(pend[kept] == added[0]);
                assert(is_pending(pend, d));
            }
        } else if is_pending(st.pending, d) {
            let a = choose|a: int| 0 <= a < st.pending.len() && (#[trigger] st.pending[a]).at == d;
            if a < kept {
                assert(pend[a] == st.pending[a]);
                assert(is_pending(pend, d));
            }
        } else {
            lemma_loop_persists(st, q, d);
        }
    }
    assert forall|j: int| 0 <= j < q.len() implies !(#[trigger] q[j] is EndOfProgram) by {
        if j < n {
            assert(similar(p[j], q[j]));
        }
    }
}

/// A loop that is closed stays closed in itself while openers are patched
/// and instructions are added.
pub proof fn lemma_loop_persists(st: CompileState, q: Seq<Instr>, d: int)
    requires
        shaped(st),
        0 <= d < st.program.len(),
        !is_pending(st.pending, d),
        st.program.len() <= q.len(),
        forall|j: int|
            0 <= j < st.program.len() && !is_pending(st.pending, j) ==> q[j] == st.program[j],
    ensures
        loop_closed(q, d),
{
    let p = st.program;
    if let Instr::Do(t) = p[d] {
        assert(settled(p, d));
        assert(loop_closed(p, d));
        let e = t - 1;
        let w = p[e]->End_0 as int;
        assert(p[e] is End);
        assert forall|x: int| w <= x <= e implies !is_pending(st.pending, x) by {
            if is_pending(st.pending, x) {
                let a = choose|a: int| 0 <= a < st.pending.len() && (#[trigger] st.pending[a]).at == x;
                assert(st.pending[a].at < p[e]->End_0 || st.pending[a].at > e);
            }
        }
        assert forall|x: int| w <= x <= e && x != d implies inside(#[trigger] q[x], w, e) by {
            assert(q[x] == p[x]);
            assert(inside(p[x], w, e));
        }
        assert(q[e] == p[e]);
        assert(q[d] == p[d]);
    }
}

/// Emitting a settled instruction keeps the state shaped.
pub proof fn lemma_emit_shaped(st: CompileState, op: Instr)
    requires
        shaped(st),
        settled(st.program.push(op), st.program.len() as int),
        opener_of(op) == Opener::Other,
        !(op is End),
        !(op is EndOfProgram),
    ensures
        shaped(emit(st, op)),
        keeps(st, emit(st, op)),
{
    let q = st.program.push(op);
    assert forall|x: int| 0 <= x < st.program.len() implies similar(
        st.program[x],
        #[trigger] q[x],
    ) by {}
    lemma_reshaped(st, q, st.pending.len() as int, Seq::empty());
    assert(st.pending.take(st.pending.len() as int) + Seq::<Site>::empty() =~= st.pending);
}

/// Emitting an opener and putting its site on the pending sites keeps the
/// state shaped.
pub proof fn lemma_open_shaped(st: CompileState, op: Instr, site: Site)
    requires
        shaped(st),
        opener_of(op) != Opener::Other,
        site.at == st.program.len(),
    ensures
        shaped(open(st, op, site)),
        keeps(st, open(st, op, site)),
{
    let q = st.program.push(op);
    assert forall|x: int| 0 <= x < st.program.len() implies similar(
        st.program[x],
        #[trigger] q[x],
    ) by {}
    lemma_reshaped(st, q, st.pending.len() as int, seq![site]);
    assert(st.pending.take(st.pending.len() as int) + seq![site] =~= st.pending.push(site));
}

/// `else` keeps the state shaped.
pub proof fn lemma_else_shaped(st: CompileState, site: Site)
    requires
        shaped(st),
        site.at == st.program.len(),
        st.program.len() < usize::MAX,
        close_else(st, site) is Ok,
    ensures
        shaped(close_else(st, site)->Ok_0),
        keeps(st, close_else(st, site)->Ok_0),
{
    let p = st.program;
    let n = p.len() as int;
    let k = st.pending.len() as int;
    let top = st.pending[k - 1];
    let after = close_else(st, site)->Ok_0;
    let q = after.program;
    assert(opener_of(p[top.at as int]) != Opener::Other);
    if p[top.at as int] is If {
        lemma_patch_extends(p, top.at as int, n + 1, Instr::Else(0));
        assert forall|a: int| 0 <= a < k - 1 implies q[(#[trigger] st.pending[a]).at as int]
            == p[st.pending[a].at as int] by {
            assert(st.pending[a].at < st.pending[k - 1].at);
        }
        assert forall|j: int| 0 <= j < n && !is_pending(st.pending, j) implies q[j] == p[j] by {
            assert(st.pending[k - 1].at != j);
        }
        lemma_reshaped(st, q, k - 1, seq![site]);
        assert(st.pending.take(k - 1) + seq![site] =~= st.pending.take(k - 1).push(site));
    } else {
        let under = st.pending[k - 2];
        assert(under.at < top.at);
        let once = patched(p, top.at as int, n + 1);
        lemma_patch_extends(p, top.at as int, n + 1, Instr::Else(0));
        lemma_patch_extends(once, under.at as int, n, Instr::Else(0));
        lemma_extends_twice(p, once, q);
        assert forall|a: int| 0 <= a < k - 2 implies q[(#[trigger] st.pending[a]).at as int]
            == p[st.pending[a].at as int] by {
            assert(st.pending[a].at < st.pending[k - 2].at);
            assert(st.pending[a].at < st.pending[k - 1].at);
        }
        assert forall|j: int| 0 <= j < n && !is_pending(st.pending, j) implies q[j] == p[j] by {
            assert(st.pending[k - 1].at != j);
            assert(st.pending[k - 2].at != j);
        }
        assert forall|a: int| k - 2 <= a < k implies settled(
            q,
            (#[trigger] st.pending[a]).at as int,
        ) by {
            if a == k - 2 {
                assert(q[under.at as int] == Instr::Else(n as usize));
            } else {
                assert(q[top.at as int] == Instr::Ifstar((n + 1) as usize));
            }
        }
        lemma_reshaped(st, q, k - 2, seq![site]);
        assert(st.pending.take(k - 2) + seq![site] =~= st.pending.take(k - 2).push(site));
    }
}

/// `end` keeps the state shaped.
pub proof fn lemma_end_shaped(st: CompileState)
    requires
        shaped(st),
        st.program.len() < usize::MAX,
        close_end(st) is Ok,
    ensures
        shaped(close_end(st)->Ok_0),
        keeps(st, close_end(st)->Ok_0),
{
    let p = st.program;
    let n = p.len() as int;
    let k = st.pending.len() as int;
    let top = st.pending[k - 1];
    let after = close_end(st)->Ok_0;
    let q = after.program;
    assert(opener_of(p[top.at as int]) != Opener::Other);
    if p[top.at as int] is If || p[top.at as int] is Else {
        lemma_patch_extends(p, top.at as int, n, Instr::End((n + 1) as usize));
        assert forall|a: int| 0 <= a < k - 1 implies q[(#[trigger] st.pending[a]).at as int]
            == p[st.pending[a].at as int] by {
            assert(st.pending[a].at < st.pending[k - 1].at);
        }
        assert forall|j: int| 0 <= j < n && !is_pending(st.pending, j) implies q[j] == p[j] by {
            assert(st.pending[k - 1].at != j);
        }
        lemma_reshaped(st, q, k - 1, Seq::empty());
        assert(st.pending.take(k - 1) + Seq::<Site>::empty() =~= st.pending.take(k - 1));
    } else if p[top.at as int] is Ifstar {
        let under = st.pending[k - 2];
        assert(under.at < top.at);
        let once = patched(p, top.at as int, n);
        lemma_patch_extends(p, top.at as int, n, Instr::End((n + 1) as usize));
        lemma_patch_extends(once, under.at as int, n, Instr::End((n + 1) as usize));
        lemma_extends_twice(p, once, q);
        assert forall|a: int| 0 <= a < k - 2 implies q[(#[trigger] st.pending[a]).at as int]
            == p[st.pending[a].at as int] by {
            assert(st.pending[a].at < st.pending[k - 2].at);
            assert(st.pending[a].at < st.pending[k - 1].at);
        }
        assert forall|j: int| 0 <= j < n && !is_pending(st.pending, j) implies q[j] == p[j] by {
            assert(st.pending[k - 1].at != j);
            assert(st.pending[k - 2].at != j);
        }
        assert forall|a: int| k - 2 <= a < k implies settled(
            q,
            (#[trigger] st.pending[a]).at as int,
        ) by {
            if a == k - 2 {
                assert(q[under.at as int] == Instr::Else(n as usize));
            } else {
                assert(q[top.at as int] == Instr::Ifstar(n as usize));
            }
        }
        lemma_reshaped(st, q, k - 2, Seq::empty());
        assert(st.pending.take(k - 2) + Seq::<Site>::empty() =~= st.pending.take(k - 2));
    } else {
        assert(p[top.at as int] is Do);
        let under = st.pending[k - 2];
        assert(under.at < top.at);
        lemma_patch_extends(p, top.at as int, n + 1, Instr::End(under.at));
        assert forall|a: int| 0 <= a < k - 2 implies q[(#[trigger] st.pending[a]).at as int]
            == p[st.pending[a].at as int] by {
            assert(st.pending[a].at < st.pending[k - 1].at);
        }
        assert forall|j: int| 0 <= j < n && !is_pending(st.pending, j) implies q[j] == p[j] by {
            assert(st.pending[k - 1].at != j);
        }
        assert forall|a: int| k - 2 <= a < k implies settled(
            q,
            (#[trigger] st.pending[a]).at as int,
        ) by {
            if a == k - 2 {
                assert(q[under.at as int] == p[under.at as int]);
            } else {
                assert(q[top.at as int] == Instr::Do((n + 1) as usize));
                assert(q[n] == Instr::End(under.at));
            }
        }
        assert(settled(q, n));
        let w = under.at as int;
        assert forall|x: int| w <= x <= n && x != top.at implies inside(#[trigger] q[x], w, n) by {
            if x == n {
            } else if x == w {
                assert(q[x] == p[x]);
            } else {
                assert(!is_pending(st.pending, x)) by {
                    if is_pending(st.pending, x) {
                        let a = choose|a: int|
                            0 <= a < st.pending.len() && (#[trigger] st.pending[a]).at == x;
                        if a < k - 2 {
                            assert(st.pending[a].at < st.pending[k - 2].at);
                        }
                    }
                }
                assert(q[x] == p[x]);
                assert(settled(p, x));
                assert(!(p[x] is EndOfProgram));
                if p[x] matches Instr::End(l) && l < x {
                    assert(st.pending[k - 2].at < p[x]->End_0 || st.pending[k - 2].at > x);
                }
            }
        }
        assert(loop_closed(q, top.at as int));
        assert forall|a: int| k - 2 <= a < k implies loop_closed(
            q,
            (#[trigger] st.pending[a]).at as int,
        ) by {
            if a == k - 2 {
                assert(q[under.at as int] is While);
            }
        }
        lemma_reshaped(st, q, k - 2, Seq::empty());
        assert(st.pending.take(k - 2) + Seq::<Site>::empty() =~= st.pending.take(k - 2));
    }
}

/// `return` keeps the state shaped.
pub proof fn lemma_return_shaped(st: CompileState)
    requires
        shaped(st),
        st.program.len() < usize::MAX,
        close_return(st) is Ok,
    ensures
        shaped(close_return(st)->Ok_0),
        keeps(st, close_return(st)->Ok_0),
{
    let p = st.program;
    let n = p.len() as int;
    let k = st.pending.len() as int;
    let top = st.pending[k - 1];
    let q = close_return(st)->Ok_0.program;
    lemma_patch_extends(p, top.at as int, n + 1, Instr::Return);
    assert forall|a: int| 0 <= a < k - 1 implies q[(#[trigger] st.pending[a]).at as int]
        == p[st.pending[a].at as int] by {
        assert(st.pending[a].at < st.pending[k - 1].at);
    }
    assert forall|j: int| 0 <= j < n && !is_pending(st.pending, j) implies q[j] == p[j] by {
        assert(st.pending[k - 1].at != j);
    }
    lemma_reshaped(st, q, k - 1, Seq::empty());
    assert(st.pending.take(k - 1) + Seq::<Site>::empty() =~= st.pending.take(k - 1));
}

/// A step of the compiler keeps the state shaped, emits one instruction,
/// and moves on by one or two tokens.
pub proof fn lemma_step_shaped(
    tokens: Seq<Lexeme>,
    floats: Map<Seq<char>, u64>,
    k: int,
    st: CompileState,
)
    requires
        shaped(st),
        0 <= k < tokens.len(),
        st.program.len() <= k,
        tokens.len() <= usize::MAX,
    ensures
        token_step(tokens, floats, k, st) matches Ok((next, k2)) ==> shaped(next) && k < k2
            <= tokens.len() && next.program.len() == st.program.len() + 1 && keeps(st, next),
{
    let p = st.program;
    let n = p.len() as int;
    let site = site_of(tokens, k, st);
    let text = tokens[k].text;
    if let Ok((next, k2)) = token_step(tokens, floats, k, st) {
        if tokens[k].kind == TokenKind::Word {
            if plain_op(text) is Some {
                lemma_emit_shaped(st, plain_op(text)->Some_0);
            } else if text == "defvar"@ {
                lemma_emit_shaped(st, Instr::Defvar(tokens[k + 1].text));
            } else if text == "if"@ {
                lemma_open_shaped(st, Instr::If(0), site);
            } else if text == "if*"@ {
                lemma_open_shaped(st, Instr::Ifstar(0), site);
            } else if text == "else"@ {
                lemma_else_shaped(st, site);
            } else if text == "end"@ {
                lemma_end_shaped(st);
            } else if text == "while"@ {
                lemma_open_shaped(st, Instr::While, site);
            } else if text == "do"@ {
                lemma_open_shaped(st, Instr::Do(0), site);
            } else if text == "defword"@ {
                lemma_open_shaped(st, Instr::Defword(0), site);
                let opened = open(st, Instr::Defword(0), site);
                assert forall|name: Seq<char>| next.words.contains_key(name) implies 1
                    <= #[trigger] next.words[name] <= next.program.len()
                    && next.program[next.words[name] - 1] is Defword by {
                    if name != tokens[k + 1].text {
                        assert(opened.words.contains_key(name));
                    }
                }
            } else if text == "return"@ {
                lemma_return_shaped(st);
            } else {
                lemma_emit_shaped(st, Instr::Call(st.words[text]));
            }
        } else {
            lemma_emit_shaped(st, literal_op(tokens[k], floats)->Ok_0);
        }
    }
}

/// A program that the compiler returns from a shaped state is resolved, and
/// its loops are closed in themselves.
pub proof fn lemma_compile_resolved(
    tokens: Seq<Lexeme>,
    floats: Map<Seq<char>, u64>,
    k: int,
    st: CompileState,
)
    requires
        shaped(st),
        0 <= k,
        st.program.len() <= k,
        tokens.len() <= usize::MAX,
    ensures
        compile_from(tokens, floats, k, st) matches Ok(p) ==> resolved(p) && enclosed(p),
    decreases tokens.len() - k,
{
    if k < tokens.len() {
        lemma_step_shaped(tokens, floats, k, st);
        if let Ok((next, k2)) = token_step(tokens, floats, k, st) {
            lemma_compile_resolved(tokens, floats, k2, next);
        }
    } else {
        lemma_finish_resolved(st);
    }
}

/// The program that ends in a shaped state with nothing pending is
/// resolved, and its loops are closed in themselves.
pub proof fn lemma_finish_resolved(st: CompileState)
    requires
        shaped(st),
    ensures
        finish(st) matches Ok(p) ==> resolved(p) && enclosed(p),
{
    if let Ok(q) = finish(st) {
        let p = st.program;
        assert forall|x: int| 0 <= x < p.len() implies similar(p[x], #[trigger] q[x]) by {}
        assert forall|j: int| 0 <= j < q.len() implies #[trigger] settled(q, j) && (target_of(
            q[j],
        ) matches Some(t) ==> t < q.len()) by {
            if j < p.len() {
                assert(!is_pending(st.pending, j));
                assert(settled(p, j));
                lemma_settled_persists(p, q, j);
            }
        }
        assert forall|d: int| 0 <= d < q.len() implies #[trigger] loop_closed(q, d) by {
            if d < p.len() {
                assert(!is_pending(st.pending, d));
                lemma_loop_persists(st, q, d);
            }
        }
        assert forall|j: int| 0 <= j < q.len() - 1 implies !(#[trigger] q[j] is EndOfProgram) by {
            assert(q[j] == p[j]);
        }
    }
}

/// Every jump of a compiled program is resolved: it lands inside the
/// program, where the construct that it belongs to says. Every loop is
/// closed in itself, and `EndOfProgram` is the last instruction and no
/// other.
pub proof fn lemma_compiled_resolved(tokens: Seq<Lexeme>, floats: Map<Seq<char>, u64>)
    requires
        tokens.len() <= usize::MAX,
    ensures
        compiled(tokens, floats) matches Ok(p) ==> resolved(p) && enclosed(p),
{
    lemma_compile_resolved(tokens, floats, 0, initial());
}

} // verus!
