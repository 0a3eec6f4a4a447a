//! List literals: from the text between the outer brackets to a list of
//! values.

use crate::lexer::{
    after, lemma_after_end, lemma_after_nothing, lemma_after_push, lemma_next_quote_bounds,
    scan_string, string_end, LexErrorKind,
};
use crate::table::{same_str, Table};
use crate::text::{
    chars_of, integer_value, is_float, is_float_literal, is_number, is_space, is_whitespace,
    parse_integer,
};
use crate::types::{lemma_list_view, lemma_push_view, Num, Type, Value};
use vstd::prelude::*;
use vstd::string::*;

verus! {

/// What is wrong with a literal.
#[derive(Clone, Copy, Debug, PartialEq, Eq, Structural)]
pub enum LiteralError {
    /// The text is not a literal of the language.
    Malformed,
    /// The text is a floating-point literal whose value the caller has not
    /// supplied.
    UnresolvedFloat,
}

/// `s` from position `i` on, with a space after every opening bracket and
/// before every closing bracket that stands outside quotes. `quoted` tells
/// whether position `i` lies inside quotes.
pub open spec fn spaced_from(s: Seq<char>, i: int, quoted: bool) -> Seq<char>
    decreases s.len() - i,
{
    if !(0 <= i < s.len()) {
        Seq::empty()
    } else if s[i] == '"' {
        seq!['"'] + spaced_from(s, i + 1, !quoted)
    } else if !quoted && s[i] == '[' {
        seq!['[', ' '] + spaced_from(s, i + 1, quoted)
    } else if !quoted && s[i] == ']' {
        seq![' ', ']'] + spaced_from(s, i + 1, quoted)
    } else {
        seq![s[i]] + spaced_from(s, i + 1, quoted)
    }
}

/// The text of a list literal made ready for splitting: brackets outside
/// quotes set apart by spaces, and a space at the end.
pub open spec fn spaced(s: Seq<char>) -> Seq<char> {
    spaced_from(s, 0, false) + seq![' ']
}

/// Sets the brackets of a list literal apart by spaces, but for those inside
/// quotes, and adds a space at the end.
pub fn space_brackets(text: &str) -> (r: String)
    ensures
        r@ == spaced(text@),
{
    let chars = chars_of(text);
    let n = chars.len();
    let ghost s = text@;
    let mut r = String::new();
    let mut i: usize = 0;
    let mut quoted = false;
    assert(r@ + spaced_from(s, 0, false) =~= spaced_from(s, 0, false));
    while i < n
        invariant
            i <= n,
            n == chars.len(),
            chars@ == s,
            s == text@,
            spaced_from(s, 0, false) == r@ + spaced_from(s, i as int, quoted),
        decreases n - i,
    {
        let c = chars[i];
        let ghost before = r@;
        let ghost rest = spaced_from(s, i + 1, if c == '"' {
            !quoted
        } else {
            quoted
        });
        if c == '"' {
            r.append("\"");
            proof {
                reveal_strlit("\"");
                assert("\""@ =~= seq!['"']);
                assert(before + (seq!['"'] + rest) =~= r@ + rest);
            }
            quoted = !quoted;
        } else if !quoted && c == '[' {
            r.append("[ ");
            proof {
                reveal_strlit("[ ");
                assert("[ "@ =~= seq!['[', ' ']);
                assert(before + (seq!['[', ' '] + rest) =~= r@ + rest);
            }
        } else if !quoted && c == ']' {
            r.append(" ]");
            proof {
                reveal_strlit(" ]");
                assert(" ]"@ =~= seq![' ', ']']);
                assert(before + (seq![' ', ']'] + rest) =~= r@ + rest);
            }
        } else {
            r.append(text.substring_char(i, i + 1));
            proof {
                assert(s.subrange(i as int, i + 1) =~= seq![c]);
                assert(before + (seq![c] + rest) =~= r@ + rest);
            }
        }
        i += 1;
    }
    let ghost body = r@;
    r.append(" ");
    proof {
        reveal_strlit(" ");
        assert(" "@ =~= seq![' ']);
        assert(body + spaced_from(s, n as int, quoted) =~= body);
    }
    r
}

/// Where the piece that starts at `i` stops: at white space, at a quote, or
/// at the end of the text.
pub open spec fn piece_stop(s: Seq<char>, i: int) -> int
    decreases s.len() - i,
{
    if 0 <= i < s.len() && !is_space(s[i]) && s[i] != '"' {
        piece_stop(s, i + 1)
    } else if i < s.len() {
        i
    } else {
        s.len() as int
    }
}

/// The pieces of `s` from position `i` on.
pub open spec fn pieces_from(s: Seq<char>, i: int) -> Result<Seq<Seq<char>>, LexErrorKind>
    decreases s.len() - i,
{
    if !(0 <= i < s.len()) {
        Ok(Seq::empty())
    } else if is_space(s[i]) {
        pieces_from(s, i + 1)
    } else if s[i] == '"' {
        match string_end(s, i + 1) {
            Err(kind) => Err(kind),
            Ok(j) => {
                proof {
                    lemma_next_quote_bounds(s, i + 1);
                }
                after(seq![s.subrange(i, j + 1)], pieces_from(s, j + 1))
            },
        }
    } else {
        let j = piece_stop(s, i);
        proof {
            lemma_piece_stop_bounds(s, i);
        }
        if j < s.len() && s[j] == '"' {
            Err(LexErrorKind::UnexpectedCharacter)
        } else {
            after(seq![s.subrange(i, j)], pieces_from(s, j))
        }
    }
}

/// The pieces of a text: its runs of characters other than white space, and
/// its quoted strings, quotes included. A quoted string must be followed by
/// white space or by the end of the text, and no quote may stand inside a
/// run.
pub open spec fn pieces(s: Seq<char>) -> Result<Seq<Seq<char>>, LexErrorKind> {
    pieces_from(s, 0)
}

/// A piece that starts at a character that is neither white space nor a
/// quote stops after that character.
pub proof fn lemma_piece_stop_bounds(s: Seq<char>, i: int)
    requires
        0 <= i,
    ensures
        i <= piece_stop(s, i) || piece_stop(s, i) == s.len(),
        piece_stop(s, i) <= s.len(),
        i < s.len() && !is_space(s[i]) && s[i] != '"' ==> i < piece_stop(s, i),
    decreases s.len() - i,
{
    if i < s.len() && !is_space(s[i]) && s[i] != '"' {
        lemma_piece_stop_bounds(s, i + 1);
    }
}

/// The texts of a vector of strings.
pub open spec fn texts(v: Seq<String>) -> Seq<Seq<char>> {
    Seq::new(v.len(), |i: int| v[i]@)
}

/// What `split_str_to_list` returned, in terms of the model.
pub open spec fn split(r: Result<Vec<String>, LexErrorKind>) -> Result<
    Seq<Seq<char>>,
    LexErrorKind,
> {
    match r {
        Ok(v) => Ok(texts(v@)),
        Err(kind) => Err(kind),
    }
}

/// Splits the text of a list literal at white space, keeping each quoted
/// string, quotes included, as one piece.
pub fn split_str_to_list(list_as_str: &str) -> (r: Result<Vec<String>, LexErrorKind>)
    ensures
        split(r) == pieces(list_as_str@),
{
    let chars = chars_of(list_as_str);
    let n = chars.len();
    let ghost s = list_as_str@;
    let mut result: Vec<String> = Vec::new();
    let mut i: usize = 0;
    proof {
        assert(texts(result@) =~= Seq::<Seq<char>>::empty());
        lemma_after_nothing(pieces_from(s, 0));
    }
    while i < n
        invariant
            i <= n,
            n == chars.len(),
            chars@ == s,
            s == list_as_str@,
            pieces(s) == after(texts(result@), pieces_from(s, i as int)),
        decreases n - i,
    {
        let c = chars[i];
        let ghost before = result@;
        if is_whitespace(c) {
            i += 1;
        } else if c == '"' {
            match scan_string(&chars, i + 1) {
                Err(kind) => {
                    return Err(kind);
                },
                Ok(j) => {
                    let piece = list_as_str.substring_char(i, j + 1).to_owned();
                    result.push(piece);
                    proof {
                        assert(texts(result@) =~= texts(before).push(piece@));
                        lemma_after_push(texts(before), piece@, pieces_from(s, j + 1));
                    }
                    i = j + 1;
                },
            }
        } else {
            let mut j: usize = i;
            while j < n && !is_whitespace(chars[j]) && chars[j] != '"'
                invariant
                    i <= j <= n,
                    n == chars.len(),
                    piece_stop(chars@, i as int) == piece_stop(chars@, j as int),
                decreases n - j,
            {
                j += 1;
            }
            proof {
                lemma_piece_stop_bounds(s, i as int);
            }
            if j < n && chars[j] == '"' {
                return Err(LexErrorKind::UnexpectedCharacter);
            }
            let piece = list_as_str.substring_char(i, j).to_owned();
            result.push(piece);
            proof {
                assert(texts(result@) =~= texts(before).push(piece@));
                lemma_after_push(texts(before), piece@, pieces_from(s, j as int));
            }
            i = j;
        }
    }
    proof {
        lemma_after_end::<Seq<char>, LexErrorKind>(texts(result@));
    }
    Ok(result)
}

/// Whether a piece is a quoted string: it starts and ends with a quote.
pub open spec fn is_quoted(s: Seq<char>) -> bool {
    s.len() >= 1 && s[0] == '"' && s[s.len() - 1] == '"'
}

/// Tells whether `s` starts and ends with a quote.
pub fn is_str(s: &str) -> (r: bool)
    ensures
        r == is_quoted(s@),
{
    let chars = chars_of(s);
    let n = chars.len();
    n >= 1 && chars[0] == '"' && chars[n - 1] == '"'
}

/// The number that the text `n` writes: the integer if it writes one, else
/// the floating-point number whose bit pattern `floats` gives for it.
pub open spec fn number_of(n: Seq<char>, floats: Map<Seq<char>, u64>) -> Result<
    Num,
    LiteralError,
> {
    match integer_value(n) {
        Some(v) => Ok(Num::Integer(v)),
        None => if !is_float_literal(n) {
            Err(LiteralError::Malformed)
        } else if floats.contains_key(n) {
            Ok(Num::Float(floats[n]))
        } else {
            Err(LiteralError::UnresolvedFloat)
        },
    }
}

/// Reads a numeric literal. An integer is read as it stands. For any other
/// number, `floats` must hold the binary64 bit pattern under the literal's
/// text.
pub fn parse_to_num(n: &str, floats: &Table<u64>) -> (r: Result<Num, LiteralError>)
    ensures
        r == number_of(n@, floats@),
{
    let chars = chars_of(n);
    match parse_integer(&chars) {
        Some(v) => Ok(Num::Integer(v)),
        None => {
            if !is_float(&chars) {
                Err(LiteralError::Malformed)
            } else {
                match floats.get(n) {
                    Some(bits) => Ok(Num::Float(*bits)),
                    None => Err(LiteralError::UnresolvedFloat),
                }
            }
        },
    }
}

/// The value that a piece other than a bracket writes: a number, a quoted
/// string, or a boolean.
pub open spec fn piece_value(p: Seq<char>, floats: Map<Seq<char>, u64>) -> Result<
    Value,
    LiteralError,
> {
    if is_number(p) {
        match number_of(p, floats) {
            Ok(n) => Ok(Value::Number(n)),
            Err(e) => Err(e),
        }
    } else if is_quoted(p) {
        if p.len() >= 2 {
            Ok(Value::Str(p.subrange(1, p.len() - 1)))
        } else {
            Err(LiteralError::Malformed)
        }
    } else if p == "true"@ {
        Ok(Value::Boolean(true))
    } else if p == "false"@ {
        Ok(Value::Boolean(false))
    } else {
        Err(LiteralError::Malformed)
    }
}

/// What a function that reads one value returned, in terms of the model.
pub open spec fn read(r: Result<Type, LiteralError>) -> Result<Value, LiteralError> {
    match r {
        Ok(t) => Ok(t.deep_view()),
        Err(e) => Err(e),
    }
}

/// Reads the value that a piece other than a bracket writes.
pub fn parse_piece(piece: &str, floats: &Table<u64>) -> (r: Result<Type, LiteralError>)
    ensures
        read(r) == piece_value(piece@, floats@),
{
    let chars = chars_of(piece);
    let n = chars.len();
    if parse_integer(&chars).is_some() || is_float(&chars) {
        match parse_to_num(piece, floats) {
            Ok(num) => Ok(Type::Number(num)),
            Err(e) => Err(e),
        }
    } else if n >= 1 && chars[0] == '"' && chars[n - 1] == '"' {
        if n >= 2 {
            Ok(Type::Str(piece.substring_char(1, n - 1).to_owned()))
        } else {
            Err(LiteralError::Malformed)
        }
    } else if same_str(piece, "true") {
        Ok(Type::Boolean(true))
    } else if same_str(piece, "false") {
        Ok(Type::Boolean(false))
    } else {
        Err(LiteralError::Malformed)
    }
}

/// `first`, then the values of `rest`; the position is that of `rest`.
pub open spec fn and_more(first: Seq<Value>, rest: Result<(Seq<Value>, int), LiteralError>) -> Result<
    (Seq<Value>, int),
    LiteralError,
> {
    match rest {
        Ok((values, k)) => Ok((first + values, k)),
        Err(e) => Err(e),
    }
}

/// The values that the pieces from index `k` on write, up to the closing
/// bracket of the list that holds them or to the last piece, and the index
/// after that bracket. An opening bracket starts a nested list.
pub open spec fn nested_from(pieces: Seq<Seq<char>>, k: int, floats: Map<Seq<char>, u64>) -> Result<
    (Seq<Value>, int),
    LiteralError,
>
    decreases pieces.len() - k,
{
    if !(0 <= k < pieces.len()) {
        Ok((Seq::empty(), pieces.len() as int))
    } else if pieces[k] == "["@ {
        match nested_from(pieces, k + 1, floats) {
            Err(e) => Err(e),
            Ok((inner, k2)) => if k < k2 <= pieces.len() {
                and_more(seq![Value::List(inner)], nested_from(pieces, k2, floats))
            } else {
                Err(LiteralError::Malformed)
            },
        }
    } else if pieces[k] == "]"@ {
        Ok((Seq::empty(), k + 1))
    } else {
        match piece_value(pieces[k], floats) {
            Err(e) => Err(e),
            Ok(v) => and_more(seq![v], nested_from(pieces, k + 1, floats)),
        }
    }
}

/// A list of values ends after the piece at which it starts.
pub proof fn lemma_nested_bounds(pieces: Seq<Seq<char>>, k: int, floats: Map<Seq<char>, u64>)
    requires
        0 <= k,
    ensures
        nested_from(pieces, k, floats) matches Ok((_, end)) ==> end <= pieces.len() && (k
            < pieces.len() ==> k < end),
    decreases pieces.len() - k,
{
    if k < pieces.len() {
        if pieces[k] == "["@ {
            lemma_nested_bounds(pieces, k + 1, floats);
            if let Ok((inner, k2)) = nested_from(pieces, k + 1, floats) {
                lemma_nested_bounds(pieces, k2, floats);
            }
        } else if pieces[k] == "]"@ {
        } else {
            lemma_nested_bounds(pieces, k + 1, floats);
        }
    }
}

/// What `get_nested_list` returned, in terms of the model.
pub open spec fn nested(r: Result<(Vec<Type>, usize), LiteralError>) -> Result<
    (Seq<Value>, int),
    LiteralError,
> {
    match r {
        Ok((values, k)) => Ok((values.deep_view(), k as int)),
        Err(e) => Err(e),
    }
}

/// Values read so far, one more, and the rest: the same as all but the
/// rest, and the rest.
pub proof fn lemma_more_push(
    done: Seq<Value>,
    next: Value,
    rest: Result<(Seq<Value>, int), LiteralError>,
)
    ensures
        and_more(done, and_more(seq![next], rest)) == and_more(done.push(next), rest),
{
    if let Ok((values, k)) = rest {
        assert(done + (seq![next] + values) =~= done.push(next) + values);
    }
}

/// Reads the pieces of a list literal from index `start` on into values, up
/// to the closing bracket of the list that holds them, and returns them with
/// the index after that bracket. An opening bracket starts a nested list.
pub fn get_nested_list(split: &Vec<String>, start: usize, floats: &Table<u64>) -> (r: Result<
    (Vec<Type>, usize),
    LiteralError,
>)
    ensures
        nested(r) == nested_from(texts(split@), start as int, floats@),
    decreases split.len() - start,
{
    let ghost pieces = texts(split@);
    let mut nested_list: Vec<Type> = Vec::new();
    let mut k: usize = start;
    proof {
        assert(nested_list.deep_view() =~= Seq::<Value>::empty());
        let whole = nested_from(pieces, start as int, floats@);
        if let Ok((values, end)) = whole {
            assert(Seq::<Value>::empty() + values =~= values);
        }
    }
    while k < split.len()
        invariant
            start <= k,
            pieces == texts(split@),
            nested_from(pieces, start as int, floats@) == and_more(
                nested_list.deep_view(),
                nested_from(pieces, k as int, floats@),
            ),
        decreases split.len() - k,
    {
        let current = split[k].as_str();
        assert(pieces[k as int] == current@);
        let ghost before = nested_list;
        if same_str(current, "[") {
            match get_nested_list(split, k + 1, floats) {
                Err(e) => {
                    return Err(e);
                },
                Ok((inner, after_inner)) => {
                    proof {
                        lemma_nested_bounds(pieces, k + 1, floats@);
                        lemma_list_view(inner);
                    }
                    let item = Type::List(inner);
                    nested_list.push(item);
                    proof {
                        lemma_push_view(before, nested_list, item);
                        lemma_more_push(
                            before.deep_view(),
                            item.deep_view(),
                            nested_from(pieces, after_inner as int, floats@),
                        );
                    }
                    k = after_inner;
                },
            }
        } else if same_str(current, "]") {
            proof {
                assert(nested_list.deep_view() + Seq::<Value>::empty()
                    =~= nested_list.deep_view());
            }
            return Ok((nested_list, k + 1));
        } else {
            match parse_piece(current, floats) {
                Err(e) => {
                    return Err(e);
                },
                Ok(item) => {
                    nested_list.push(item);
                    proof {
                        lemma_push_view(before, nested_list, item);
                        lemma_more_push(
                            before.deep_view(),
                            item.deep_view(),
                            nested_from(pieces, k + 1, floats@),
                        );
                    }
                    k += 1;
                },
            }
        }
    }
    proof {
        assert(nested_list.deep_view() + Seq::<Value>::empty() =~= nested_list.deep_view());
    }
    Ok((nested_list, split.len()))
}

/// The items of the list that the text of a list literal writes.
pub open spec fn list_items(text: Seq<char>, floats: Map<Seq<char>, u64>) -> Result<
    Seq<Value>,
    LiteralError,
> {
    match pieces(spaced(text)) {
        Err(_) => Err(LiteralError::Malformed),
        Ok(parts) => match nested_from(parts, 0, floats) {
            Err(e) => Err(e),
            Ok((values, _)) => if values.len() > 0 && values[0] is List {
                Ok(values[0]->List_0)
            } else {
                Err(LiteralError::Malformed)
            },
        },
    }
}

/// What `parse_list` returned, in terms of the model.
pub open spec fn items_read(r: Result<Vec<Type>, LiteralError>) -> Result<
    Seq<Value>,
    LiteralError,
> {
    match r {
        Ok(values) => Ok(values.deep_view()),
        Err(e) => Err(e),
    }
}

/// Reads the text of a list literal, outer brackets included, into the
/// items of the list.
pub fn parse_list(text: &str, floats: &Table<u64>) -> (r: Result<Vec<Type>, LiteralError>)
    ensures
        items_read(r) == list_items(text@, floats@),
{
    let prepared = space_brackets(text);
    match split_str_to_list(prepared.as_str()) {
        Err(_) => Err(LiteralError::Malformed),
        Ok(parts) => match get_nested_list(&parts, 0, floats) {
            Err(e) => Err(e),
            Ok((mut values, _)) => {
                if values.len() == 0 {
                    return Err(LiteralError::Malformed);
                }
                let ghost all = values;
                let first = values.swap_remove(0);
                assert(first == all@[0]);
                match first {
                    Type::List(items) => {
                        proof {
                            lemma_list_view(items);
                        }
                        Ok(items)
                    },
                    _ => Err(LiteralError::Malformed),
                }
            },
        },
    }
}

} // verus!
