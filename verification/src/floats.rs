//! The floating-point literals of a token stream: the texts whose values
//! the compiler asks its caller for.

use crate::compiler::{
    compile_from, compiled, fail, initial, token_step, CompileErrorKind, CompileState,
};
use crate::lexer::{Lexeme, Token, TokenKind};
use crate::literal::{
    nested_from, piece_value, pieces, space_brackets, spaced, split_str_to_list, texts,
    LiteralError,
};
use crate::text::{chars_of, integer_value, is_float, is_float_literal, parse_integer};
use crate::types::Value;
use vstd::prelude::*;

verus! {

/// Whether `text` is a numeric literal that is not an integer.
pub open spec fn is_float_only(text: Seq<char>) -> bool {
    integer_value(text) is None && is_float_literal(text)
}

/// The texts among `parts`, from index `j` on, that are numeric literals
/// but not integers.
pub open spec fn floats_among(parts: Seq<Seq<char>>, j: int) -> Seq<Seq<char>>
    decreases parts.len() - j,
{
    if !(0 <= j < parts.len()) {
        Seq::empty()
    } else if is_float_only(parts[j]) {
        seq![parts[j]] + floats_among(parts, j + 1)
    } else {
        floats_among(parts, j + 1)
    }
}

/// The floating-point literals of one token: the text of a number that is
/// not an integer, and the pieces of a list literal that are such numbers.
pub open spec fn floats_in(token: Lexeme) -> Seq<Seq<char>> {
    match token.kind {
        TokenKind::Num => if is_float_only(token.text) {
            seq![token.text]
        } else {
            Seq::empty()
        },
        TokenKind::List => match pieces(spaced(token.text)) {
            Ok(parts) => floats_among(parts, 0),
            Err(_) => Seq::empty(),
        },
        _ => Seq::empty(),
    }
}

/// The floating-point literals of the tokens from index `k` on, in the
/// order of the source.
pub open spec fn floats_from(tokens: Seq<Lexeme>, k: int) -> Seq<Seq<char>>
    decreases tokens.len() - k,
{
    if !(0 <= k < tokens.len()) {
        Seq::empty()
    } else {
        floats_in(tokens[k]) + floats_from(tokens, k + 1)
    }
}

/// The floating-point literals of a token stream.
pub open spec fn floats_of(tokens: Seq<Lexeme>) -> Seq<Seq<char>> {
    floats_from(tokens, 0)
}

/// Tells whether `text` is a numeric literal that is not an integer.
pub fn float_only(text: &str) -> (r: bool)
    ensures
        r == is_float_only(text@),
{
    let chars = chars_of(text);
    parse_integer(&chars).is_none() && is_float(&chars)
}

/// Adds the floating-point literals of `token` to `found`.
pub fn collect(token: &Token, found: &mut Vec<String>)
    ensures
        texts(final(found)@) == texts(old(found)@) + floats_in(token.deep_view()),
{
    let ghost before = texts(found@);
    match token.kind {
        TokenKind::Num => {
            if float_only(token.text.as_str()) {
                found.push(token.text.clone());
                assert(texts(found@) =~= before + seq![token.text@]);
            } else {
                assert(texts(found@) =~= before + Seq::<Seq<char>>::empty());
            }
        },
        TokenKind::List => {
            let prepared = space_brackets(token.text.as_str());
            match split_str_to_list(prepared.as_str()) {
                Err(_) => {
                    assert(texts(found@) =~= before + Seq::<Seq<char>>::empty());
                },
                Ok(parts) => {
                    let ghost all = texts(parts@);
                    let mut j: usize = 0;
                    assert(before + floats_among(all, 0) =~= texts(found@) + floats_among(
                        all,
                        0,
                    ));
                    while j < parts.len()
                        invariant
                            j <= parts.len(),
                            all == texts(parts@),
                            before + floats_among(all, 0) == texts(found@) + floats_among(
                                all,
                                j as int,
                            ),
                        decreases parts.len() - j,
                    {
                        let ghost so_far = texts(found@);
                        assert(all[j as int] == parts@[j as int]@);
                        if float_only(parts[j].as_str()) {
                            found.push(parts[j].clone());
                            assert(texts(found@) =~= so_far.push(all[j as int]));
                            assert(so_far + (seq![all[j as int]] + floats_among(all, j + 1))
                                =~= texts(found@) + floats_among(all, j + 1));
                        }
                        j += 1;
                    }
                    assert(texts(found@) + floats_among(all, j as int) =~= texts(found@));
                },
            }
        },
        _ => {
            assert(texts(found@) =~= before + Seq::<Seq<char>>::empty());
        },
    }
}

/// Lists the floating-point literals of a token stream, in the order of the
/// source: the numbers that are not integers, also those inside list
/// literals. These are the texts whose bit patterns `parse_to_program` looks
/// up.
pub fn float_literals(tokens: &Vec<Token>) -> (r: Vec<String>)
    ensures
        texts(r@) == floats_of(tokens.deep_view()),
{
    let mut found: Vec<String> = Vec::new();
    let mut k: usize = 0;
    let ghost all = tokens.deep_view();
    assert(texts(found@) + floats_from(all, 0) =~= floats_of(all));
    while k < tokens.len()
        invariant
            k <= tokens.len(),
            all == tokens.deep_view(),
            floats_of(all) == texts(found@) + floats_from(all, k as int),
        decreases tokens.len() - k,
    {
        let ghost before = texts(found@);
        collect(&tokens[k], &mut found);
        assert(before + (floats_in(all[k as int]) + floats_from(all, k + 1)) =~= texts(found@)
            + floats_from(all, k + 1));
        k += 1;
    }
    assert(texts(found@) + floats_from(all, k as int) =~= texts(found@));
    found
}

/// A floating-point literal among the pieces from `j` on is among those
/// from any earlier index on.
pub proof fn lemma_among(parts: Seq<Seq<char>>, from: int, j: int)
    requires
        0 <= from <= j < parts.len(),
        is_float_only(parts[j]),
    ensures
        floats_among(parts, from).contains(parts[j]),
    decreases j - from,
{
    if from < j {
        lemma_among(parts, from + 1, j);
        let rest = floats_among(parts, from + 1);
        let i = choose|i: int| 0 <= i < rest.len() && rest[i] == parts[j];
        if is_float_only(parts[from]) {
            assert((seq![parts[from]] + rest)[i + 1] == parts[j]);
        }
    } else {
        assert((seq![parts[j]] + floats_among(parts, j + 1))[0] == parts[j]);
    }
}

/// A floating-point literal of token `k` is among those of the tokens from
/// any earlier index on.
pub proof fn lemma_listed(tokens: Seq<Lexeme>, from: int, k: int, text: Seq<char>)
    requires
        0 <= from <= k < tokens.len(),
        floats_in(tokens[k]).contains(text),
    ensures
        floats_from(tokens, from).contains(text),
    decreases k - from,
{
    let own = floats_in(tokens[from]);
    let rest = floats_from(tokens, from + 1);
    if from < k {
        lemma_listed(tokens, from + 1, k, text);
        let i = choose|i: int| 0 <= i < rest.len() && rest[i] == text;
        assert((own + rest)[own.len() + i] == text);
    } else {
        let i = choose|i: int| 0 <= i < own.len() && own[i] == text;
        assert((own + rest)[i] == text);
    }
}

/// Where a list fails for want of a value, one of its pieces is a
/// floating-point literal that `floats` does not hold.
pub proof fn lemma_nested_unresolved(
    parts: Seq<Seq<char>>,
    k: int,
    floats: Map<Seq<char>, u64>,
)
    requires
        0 <= k,
        nested_from(parts, k, floats) == Err::<(Seq<Value>, int), LiteralError>(
            LiteralError::UnresolvedFloat,
        ),
    ensures
        exists|j: int|
            0 <= j < parts.len() && is_float_only(#[trigger] parts[j]) && !floats.contains_key(
                parts[j],
            ),
    decreases parts.len() - k,
{
    if k < parts.len() {
        if parts[k] == "["@ {
            match nested_from(parts, k + 1, floats) {
                Err(_) => {
                    lemma_nested_unresolved(parts, k + 1, floats);
                },
                Ok((inner, k2)) => {
                    if k < k2 <= parts.len() {
                        lemma_nested_unresolved(parts, k2, floats);
                    }
                },
            }
        } else if parts[k] == "]"@ {
        } else {
            match piece_value(parts[k], floats) {
                Err(e) => {
                    assert(is_float_only(parts[k]) && !floats.contains_key(parts[k]));
                },
                Ok(v) => {
                    lemma_nested_unresolved(parts, k + 1, floats);
                },
            }
        }
    }
}

/// Where the compiler fails for want of a value, a floating-point literal
/// of the tokens is missing in `floats`.
pub proof fn lemma_unresolved_is_listed(
    tokens: Seq<Lexeme>,
    floats: Map<Seq<char>, u64>,
    k: int,
    st: CompileState,
)
    requires
        0 <= k,
        compile_from(tokens, floats, k, st) matches Err(e) && e.kind
            == CompileErrorKind::UnresolvedFloat,
    ensures
        exists|j: int|
            0 <= j < floats_from(tokens, k).len() && !floats.contains_key(
                #[trigger] floats_from(tokens, k)[j],
            ),
    decreases tokens.len() - k,
{
    if k < tokens.len() {
        match token_step(tokens, floats, k, st) {
            Err(e) => {
                let token = tokens[k];
                assert(token.kind != TokenKind::Word);
                let missing: Seq<char> = if token.kind == TokenKind::Num {
                    token.text
                } else {
                    let parts = pieces(spaced(token.text))->Ok_0;
                    lemma_nested_unresolved(parts, 0, floats);
                    let j = choose|j: int|
                        0 <= j < parts.len() && is_float_only(#[trigger] parts[j])
                            && !floats.contains_key(parts[j]);
                    lemma_among(parts, 0, j);
                    parts[j]
                };
                if token.kind == TokenKind::Num {
                    assert(floats_in(token)[0] == missing);
                }
                assert(floats_in(token).contains(missing));
                lemma_listed(tokens, k, k, missing);
                let all = floats_from(tokens, k);
                let i = choose|i: int| 0 <= i < all.len() && all[i] == missing;
                assert(!floats.contains_key(all[i]));
            },
            Ok((next, k2)) => {
                if k < k2 {
                    lemma_unresolved_is_listed(tokens, floats, k2, next);
                    let later = floats_from(tokens, k2);
                    let j = choose|j: int|
                        0 <= j < later.len() && !floats.contains_key(#[trigger] later[j]);
                    lemma_later_listed(tokens, k, k2, later[j]);
                    let all = floats_from(tokens, k);
                    let i = choose|i: int| 0 <= i < all.len() && all[i] == later[j];
                    assert(!floats.contains_key(all[i]));
                }
            },
        }
    }
}

/// A floating-point literal of the tokens from `later` on is among those
/// from any earlier index on.
pub proof fn lemma_later_listed(tokens: Seq<Lexeme>, from: int, later: int, text: Seq<char>)
    requires
        0 <= from <= later,
        floats_from(tokens, later).contains(text),
    ensures
        floats_from(tokens, from).contains(text),
    decreases later - from,
{
    if from < later {
        lemma_later_listed(tokens, from + 1, later, text);
        if from < tokens.len() {
            let own = floats_in(tokens[from]);
            let rest = floats_from(tokens, from + 1);
            let i = choose|i: int| 0 <= i < rest.len() && rest[i] == text;
            assert((own + rest)[own.len() + i] == text);
        }
    }
}

/// Where `floats` holds a value for every floating-point literal of the
/// tokens, the compiler does not fail for want of one.
pub proof fn lemma_listed_floats_suffice(tokens: Seq<Lexeme>, floats: Map<Seq<char>, u64>)
    requires
        forall|j: int|
            0 <= j < floats_of(tokens).len() ==> floats.contains_key(
                #[trigger] floats_of(tokens)[j],
            ),
    ensures
        !(compiled(tokens, floats) matches Err(e) && e.kind == CompileErrorKind::UnresolvedFloat),
{
    if compiled(tokens, floats) matches Err(e) && e.kind == CompileErrorKind::UnresolvedFloat {
        lemma_unresolved_is_listed(tokens, floats, 0, initial());
        let all = floats_from(tokens, 0);
        let j = choose|j: int| 0 <= j < all.len() && !floats.contains_key(#[trigger] all[j]);
        assert(floats_of(tokens)[j] == all[j]);
    }
}

} // verus!
