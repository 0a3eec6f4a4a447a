//! From source text to tokens.

use crate::text::{chars_of, is_float, is_number, is_space, is_whitespace, parse_integer, spells};
use crate::types::lemma_push_view;
use vstd::prelude::*;

verus! {

/// What a token is.
#[derive(Clone, Copy, Debug, PartialEq, Eq, Structural)]
pub enum TokenKind {
    /// An integer or floating-point literal.
    Num,
    /// `true` or `false`.
    Bool,
    /// A string literal; the token's text is what stands between the quotes.
    Str,
    /// A word of the language or the name of a defined word.
    Word,
    /// `@name`, which writes a variable, or `!name`, which reads one.
    VarOp,
    /// A list literal; the token's text includes the outer brackets.
    List,
}

/// A token: its text, the line and column at which it starts (both counted
/// from 1), and its kind.
#[derive(Clone, Debug, PartialEq, Eq)]
pub struct Token {
    pub text: String,
    pub line: usize,
    pub column: usize,
    pub kind: TokenKind,
}

/// The mathematical model of a [`Token`].
pub ghost struct Lexeme {
    pub text: Seq<char>,
    pub line: int,
    pub column: int,
    pub kind: TokenKind,
}

impl DeepView for Token {
    type V = Lexeme;

    open spec fn deep_view(&self) -> Lexeme {
        Lexeme {
            text: self.text@,
            line: self.line as int,
            column: self.column as int,
            kind: self.kind,
        }
    }
}

/// What is wrong with a source text.
#[derive(Clone, Copy, Debug, PartialEq, Eq, Structural)]
pub enum LexErrorKind {
    /// A string literal has no closing quote.
    UnterminatedString,
    /// A list literal has no closing bracket.
    UnterminatedList,
    /// A string or list literal is followed by something other than white
    /// space.
    MalformedToken,
    /// A quote or an opening bracket stands inside a word.
    UnexpectedCharacter,
}

/// A lexical error and where it is: for an unexpected character the
/// position of that character, else the position at which the literal starts.
#[derive(Clone, Copy, Debug, PartialEq, Eq, Structural)]
pub struct LexError {
    pub kind: LexErrorKind,
    pub line: usize,
    pub column: usize,
}

/// The number of the line that holds position `i`: one more than the number
/// of newlines before it.
pub open spec fn line_of(s: Seq<char>, i: int) -> int
    decreases i,
{
    if i <= 0 {
        1
    } else if s[i - 1] == '\n' {
        line_of(s, i - 1) + 1
    } else {
        line_of(s, i - 1)
    }
}

/// The column of position `i`: one more than the number of characters
/// between it and the start of its line.
pub open spec fn column_of(s: Seq<char>, i: int) -> int
    decreases i,
{
    if i <= 0 {
        1
    } else if s[i - 1] == '\n' {
        1
    } else {
        column_of(s, i - 1) + 1
    }
}

/// The index of the first quote at or after `i`, or the length of `s` if
/// there is none.
pub open spec fn next_quote(s: Seq<char>, i: int) -> int
    decreases s.len() - i,
{
    if 0 <= i < s.len() && s[i] != '"' {
        next_quote(s, i + 1)
    } else if i < s.len() {
        i
    } else {
        s.len() as int
    }
}

/// Whether the closer at index `j` is followed by white space or by the end
/// of the text.
pub open spec fn ends_cleanly(s: Seq<char>, j: int) -> bool {
    j + 1 >= s.len() || is_space(s[j + 1])
}

/// Where the string literal whose first character is at `i` ends: the index
/// of its closing quote.
pub open spec fn string_end(s: Seq<char>, i: int) -> Result<int, LexErrorKind> {
    let j = next_quote(s, i);
    if j >= s.len() {
        Err(LexErrorKind::UnterminatedString)
    } else if !ends_cleanly(s, j) {
        Err(LexErrorKind::MalformedToken)
    } else {
        Ok(j)
    }
}

/// The index of the bracket that closes a list, scanning from `i` with
/// `extra` more lists open inside it; the length of `s` if there is none.
pub open spec fn list_close(s: Seq<char>, i: int, extra: nat) -> int
    decreases s.len() - i,
{
    if !(0 <= i < s.len()) {
        s.len() as int
    } else if s[i] == ']' {
        if extra == 0 {
            i
        } else {
            list_close(s, i + 1, (extra - 1) as nat)
        }
    } else if s[i] == '[' {
        list_close(s, i + 1, extra + 1)
    } else {
        list_close(s, i + 1, extra)
    }
}

/// Where the list literal whose opening bracket is just before `i` ends:
/// the index of the bracket that closes it.
pub open spec fn list_end(s: Seq<char>, i: int) -> Result<int, LexErrorKind> {
    let j = list_close(s, i, 0);
    if j >= s.len() {
        Err(LexErrorKind::UnterminatedList)
    } else if !ends_cleanly(s, j) {
        Err(LexErrorKind::MalformedToken)
    } else {
        Ok(j)
    }
}

/// A character that starts a literal and may not stand inside a word.
pub open spec fn is_opener(c: char) -> bool {
    c == '"' || c == '['
}

/// Where the word that starts at `i` stops: at white space, at a quote or
/// an opening bracket, or at the end of the text.
pub open spec fn word_stop(s: Seq<char>, i: int) -> int
    decreases s.len() - i,
{
    if 0 <= i < s.len() && !is_space(s[i]) && !is_opener(s[i]) {
        word_stop(s, i + 1)
    } else if i < s.len() {
        i
    } else {
        s.len() as int
    }
}

/// The kind of a word: a number if it reads as an integer or as a
/// floating-point literal, else a boolean if it is `true` or `false`, else a
/// variable operation if it starts with `@` or `!`, else a plain word.
pub open spec fn word_kind(text: Seq<char>) -> TokenKind {
    if is_number(text) {
        TokenKind::Num
    } else if text == "true"@ || text == "false"@ {
        TokenKind::Bool
    } else if text.len() > 0 && (text[0] == '@' || text[0] == '!') {
        TokenKind::VarOp
    } else {
        TokenKind::Word
    }
}

/// `first` followed by the items of `rest`, or the error of `rest`.
pub open spec fn after<T, E>(first: Seq<T>, rest: Result<Seq<T>, E>) -> Result<Seq<T>, E> {
    match rest {
        Ok(items) => Ok(first + items),
        Err(e) => Err(e),
    }
}

/// The error of kind `kind` at position `i` of `s`.
pub open spec fn error_at(s: Seq<char>, i: int, kind: LexErrorKind) -> LexError {
    LexError { kind, line: line_of(s, i) as usize, column: column_of(s, i) as usize }
}

/// The token of kind `kind` that starts at `i` and has the text `text`.
pub open spec fn lexeme_at(s: Seq<char>, i: int, text: Seq<char>, kind: TokenKind) -> Lexeme {
    Lexeme { text, line: line_of(s, i), column: column_of(s, i), kind }
}

/// What a scanner found, in terms of the model.
pub open spec fn found(r: Result<usize, LexErrorKind>) -> Result<int, LexErrorKind> {
    match r {
        Ok(j) => Ok(j as int),
        Err(kind) => Err(kind),
    }
}

/// The tokens of `s` from position `i` on.
pub open spec fn lex_from(s: Seq<char>, i: int) -> Result<Seq<Lexeme>, LexError>
    decreases s.len() - i,
{
    if !(0 <= i < s.len()) {
        Ok(Seq::empty())
    } else if is_space(s[i]) {
        lex_from(s, i + 1)
    } else if s[i] == '"' {
        match string_end(s, i + 1) {
            Err(kind) => Err(error_at(s, i, kind)),
            Ok(j) => {
                proof {
                    lemma_next_quote_bounds(s, i + 1);
                }
                after(
                    seq![lexeme_at(s, i, s.subrange(i + 1, j), TokenKind::Str)],
                    lex_from(s, j + 1),
                )
            },
        }
    } else if s[i] == '[' {
        match list_end(s, i + 1) {
            Err(kind) => Err(error_at(s, i, kind)),
            Ok(j) => {
                proof {
                    lemma_list_close_bounds(s, i + 1, 0);
                }
                after(
                    seq![lexeme_at(s, i, s.subrange(i, j + 1), TokenKind::List)],
                    lex_from(s, j + 1),
                )
            },
        }
    } else {
        let j = word_stop(s, i);
        proof {
            lemma_word_stop_bounds(s, i);
        }
        if j < s.len() && is_opener(s[j]) {
            Err(error_at(s, j, LexErrorKind::UnexpectedCharacter))
        } else {
            after(
                seq![lexeme_at(s, i, s.subrange(i, j), word_kind(s.subrange(i, j)))],
                lex_from(s, j),
            )
        }
    }
}

/// The tokens of a source text, or the first lexical error in it.
pub open spec fn lex(s: Seq<char>) -> Result<Seq<Lexeme>, LexError> {
    lex_from(s, 0)
}

/// The first quote at or after `i` lies between `i` and the end of the
/// text, with no quote before it.
pub proof fn lemma_next_quote_bounds(s: Seq<char>, i: int)
    requires
        0 <= i,
    ensures
        i <= next_quote(s, i) || next_quote(s, i) == s.len(),
        next_quote(s, i) <= s.len(),
        next_quote(s, i) < s.len() ==> s[next_quote(s, i)] == '"',
        forall|k: int| i <= k < next_quote(s, i) ==> s[k] != '"',
    decreases s.len() - i,
{
    if i < s.len() && s[i] != '"' {
        lemma_next_quote_bounds(s, i + 1);
    }
}

/// The bracket that closes a list lies between `i` and the end of the text.
pub proof fn lemma_list_close_bounds(s: Seq<char>, i: int, extra: nat)
    requires
        0 <= i,
    ensures
        i <= list_close(s, i, extra) || list_close(s, i, extra) == s.len(),
        list_close(s, i, extra) <= s.len(),
        list_close(s, i, extra) < s.len() ==> s[list_close(s, i, extra)] == ']',
    decreases s.len() - i,
{
    if i < s.len() {
        if s[i] == ']' {
            if extra > 0 {
                lemma_list_close_bounds(s, i + 1, (extra - 1) as nat);
            }
        } else if s[i] == '[' {
            lemma_list_close_bounds(s, i + 1, extra + 1);
        } else {
            lemma_list_close_bounds(s, i + 1, extra);
        }
    }
}

/// A word that starts at a character that is neither white space nor an
/// opener stops after that character, and holds no white space and no opener.
pub proof fn lemma_word_stop_bounds(s: Seq<char>, i: int)
    requires
        0 <= i,
    ensures
        i <= word_stop(s, i) || word_stop(s, i) == s.len(),
        word_stop(s, i) <= s.len(),
        i < s.len() && !is_space(s[i]) && !is_opener(s[i]) ==> i < word_stop(s, i),
        forall|k: int| i <= k < word_stop(s, i) ==> !is_space(s[k]) && !is_opener(s[k]),
        word_stop(s, i) < s.len() ==> is_space(s[word_stop(s, i)]) || is_opener(
            s[word_stop(s, i)],
        ),
    decreases s.len() - i,
{
    if i < s.len() && !is_space(s[i]) && !is_opener(s[i]) {
        lemma_word_stop_bounds(s, i + 1);
    }
}

/// Line and column never exceed the position by more than one.
pub proof fn lemma_position_bounds(s: Seq<char>, i: int)
    requires
        0 <= i,
    ensures
        1 <= line_of(s, i) <= i + 1,
        1 <= column_of(s, i) <= i + 1,
    decreases i,
{
    if i > 0 {
        lemma_position_bounds(s, i - 1);
    }
}

/// Finds the closing quote of the string literal whose first character is
/// at `idx` of `chars`.
pub fn scan_string(chars: &Vec<char>, idx: usize) -> (r: Result<usize, LexErrorKind>)
    ensures
        found(r) == string_end(chars@, idx as int),
        r matches Ok(j) ==> idx <= j < chars.len(),
{
    let n = chars.len();
    let mut j: usize = idx;
    while j < n && chars[j] != '"'
        invariant
            idx <= j,
            n == chars.len(),
            next_quote(chars@, idx as int) == next_quote(chars@, j as int),
        decreases n - j,
    {
        j += 1;
    }
    if j >= n {
        Err(LexErrorKind::UnterminatedString)
    } else if j + 1 < n && !is_whitespace(chars[j + 1]) {
        Err(LexErrorKind::MalformedToken)
    } else {
        Ok(j)
    }
}

/// Finds the bracket that closes the list literal whose opening bracket is
/// just before `idx` of `chars`.
pub fn scan_list(chars: &Vec<char>, idx: usize) -> (r: Result<usize, LexErrorKind>)
    ensures
        found(r) == list_end(chars@, idx as int),
        r matches Ok(j) ==> idx <= j < chars.len(),
{
    let n = chars.len();
    let mut j: usize = idx;
    let mut extra: usize = 0;
    while j < n && !(chars[j] == ']' && extra == 0)
        invariant
            idx <= j,
            n == chars.len(),
            extra <= j - idx,
            list_close(chars@, idx as int, 0) == list_close(chars@, j as int, extra as nat),
        decreases n - j,
    {
        if chars[j] == ']' {
            extra -= 1;
        } else if chars[j] == '[' {
            extra += 1;
        }
        j += 1;
    }
    if j >= n {
        Err(LexErrorKind::UnterminatedList)
    } else if j + 1 < n && !is_whitespace(chars[j + 1]) {
        Err(LexErrorKind::MalformedToken)
    } else {
        Ok(j)
    }
}

/// Finds where the word that starts at `idx` of `chars` stops.
fn scan_word(chars: &Vec<char>, idx: usize) -> (r: usize)
    requires
        idx <= chars.len(),
    ensures
        r == word_stop(chars@, idx as int),
        idx <= r <= chars.len(),
{
    let n = chars.len();
    let mut j: usize = idx;
    while j < n && !is_whitespace(chars[j]) && chars[j] != '"' && chars[j] != '['
        invariant
            idx <= j <= n,
            n == chars.len(),
            word_stop(chars@, idx as int) == word_stop(chars@, j as int),
        decreases n - j,
    {
        j += 1;
    }
    j
}

/// Finds the closing quote of the string literal whose first character is
/// at `idx` of `source`.
pub fn find_end_str(source: &str, idx: usize) -> (r: Result<usize, LexErrorKind>)
    ensures
        found(r) == string_end(source@, idx as int),
        r matches Ok(j) ==> {
            &&& idx <= j < source@.len()
            &&& source@[j as int] == '"'
            &&& forall|k: int| idx <= k < j ==> source@[k] != '"'
            &&& ends_cleanly(source@, j as int)
        },
        r == Err::<usize, _>(LexErrorKind::UnterminatedString) <==> forall|k: int|
            idx <= k < source@.len() ==> source@[k] != '"',
{
    let chars = chars_of(source);
    proof {
        lemma_next_quote_bounds(source@, idx as int);
    }
    scan_string(&chars, idx)
}

/// Finds the bracket that closes the list literal whose opening bracket is
/// just before `idx` of `source`.
pub fn find_end_list(source: &str, idx: usize) -> (r: Result<usize, LexErrorKind>)
    ensures
        found(r) == list_end(source@, idx as int),
        r matches Ok(j) ==> {
            &&& idx <= j < source@.len()
            &&& source@[j as int] == ']'
            &&& ends_cleanly(source@, j as int)
        },
{
    let chars = chars_of(source);
    proof {
        lemma_list_close_bounds(source@, idx as int, 0);
    }
    scan_list(&chars, idx)
}

/// What `tokenize` returned, in terms of the model.
pub open spec fn lexed(r: Result<Vec<Token>, LexError>) -> Result<Seq<Lexeme>, LexError> {
    match r {
        Ok(tokens) => Ok(tokens.deep_view()),
        Err(e) => Err(e),
    }
}

/// Items found so far, one more, and the rest: the same as all but the
/// rest, and the rest.
pub proof fn lemma_after_push<T, E>(done: Seq<T>, next: T, rest: Result<Seq<T>, E>)
    ensures
        after(done, after(seq![next], rest)) == after(done.push(next), rest),
{
    if let Ok(items) = rest {
        assert(done + (seq![next] + items) =~= done.push(next) + items);
    }
}

/// Nothing, and the rest: the rest.
pub proof fn lemma_after_nothing<T, E>(rest: Result<Seq<T>, E>)
    ensures
        after(Seq::<T>::empty(), rest) == rest,
{
    if let Ok(items) = rest {
        assert(Seq::<T>::empty() + items =~= items);
    }
}

/// Items, and then nothing more: the items.
pub proof fn lemma_after_end<T, E>(done: Seq<T>)
    ensures
        after(done, Ok::<Seq<T>, E>(Seq::<T>::empty())) == Ok::<Seq<T>, E>(done),
{
    assert(done + Seq::<T>::empty() =~= done);
}

/// Line and column, both counted from 0, after the characters from `from`
/// up to `to`.
fn advance(chars: &Vec<char>, from: usize, to: usize, line0: usize, col0: usize) -> (r: (
    usize,
    usize,
))
    requires
        from <= to <= chars.len(),
        line0 + 1 == line_of(chars@, from as int),
        col0 + 1 == column_of(chars@, from as int),
    ensures
        r.0 + 1 == line_of(chars@, to as int),
        r.1 + 1 == column_of(chars@, to as int),
{
    let mut line: usize = line0;
    let mut col: usize = col0;
    let mut k: usize = from;
    while k < to
        invariant
            from <= k <= to <= chars.len(),
            line + 1 == line_of(chars@, k as int),
            col + 1 == column_of(chars@, k as int),
        decreases to - k,
    {
        proof {
            lemma_position_bounds(chars@, k as int);
        }
        if chars[k] == '\n' {
            line += 1;
            col = 0;
        } else {
            col += 1;
        }
        k += 1;
    }
    (line, col)
}

/// The characters of `chars` from `from` up to `to`.
fn slice_of(chars: &Vec<char>, from: usize, to: usize) -> (r: Vec<char>)
    requires
        from <= to <= chars.len(),
    ensures
        r@ == chars@.subrange(from as int, to as int),
{
    let mut r: Vec<char> = Vec::new();
    let mut k: usize = from;
    while k < to
        invariant
            from <= k <= to <= chars.len(),
            r@ == chars@.subrange(from as int, k as int),
        decreases to - k,
    {
        r.push(chars[k]);
        assert(r@ =~= chars@.subrange(from as int, k + 1));
        k += 1;
    }
    r
}

/// The kind of the word `word`.
pub fn classify(word: &Vec<char>) -> (r: TokenKind)
    ensures
        r == word_kind(word@),
{
    if parse_integer(word).is_some() || is_float(word) {
        TokenKind::Num
    } else if spells(word, "true") || spells(word, "false") {
        TokenKind::Bool
    } else if word.len() > 0 && (word[0] == '@' || word[0] == '!') {
        TokenKind::VarOp
    } else {
        TokenKind::Word
    }
}

/// Every token starts on a line and in a column of at least 1, at a
/// position of the text from `i` on.
pub proof fn lemma_tokens_are_placed(s: Seq<char>, i: int)
    requires
        0 <= i,
    ensures
        lex_from(s, i) matches Ok(tokens) ==> forall|j: int|
            0 <= j < tokens.len() ==> (#[trigger] tokens[j]).line >= 1 && tokens[j].column >= 1
                && exists|at: int|
                i <= at < s.len() && tokens[j].line == line_of(s, at) && tokens[j].column
                    == column_of(s, at),
    decreases s.len() - i,
{
    if i < s.len() {
        lemma_position_bounds(s, i);
        let rest: int = if is_space(s[i]) {
            i + 1
        } else if s[i] == '"' {
            lemma_next_quote_bounds(s, i + 1);
            match string_end(s, i + 1) {
                Ok(j) => j + 1,
                Err(_) => i + 1,
            }
        } else if s[i] == '[' {
            lemma_list_close_bounds(s, i + 1, 0);
            match list_end(s, i + 1) {
                Ok(j) => j + 1,
                Err(_) => i + 1,
            }
        } else {
            lemma_word_stop_bounds(s, i);
            word_stop(s, i)
        };
        lemma_tokens_are_placed(s, rest);
        if let Ok(tokens) = lex_from(s, i) {
            if !is_space(s[i]) {
                let later = lex_from(s, rest)->Ok_0;
                assert forall|j: int| 0 <= j < tokens.len() implies (#[trigger] tokens[j]).line
                    >= 1 && tokens[j].column >= 1 && exists|at: int|
                    i <= at < s.len() && tokens[j].line == line_of(s, at) && tokens[j].column
                        == column_of(s, at) by {
                    if j == 0 {
                        assert(tokens[0].line == line_of(s, i));
                    } else {
                        assert(tokens[j] == later[j - 1]);
                        let at = choose|at: int|
                            rest <= at < s.len() && later[j - 1].line == line_of(s, at) && later[j
                                - 1].column == column_of(s, at);
                        assert(i <= at);
                    }
                }
            } else {
                assert forall|j: int| 0 <= j < tokens.len() implies (#[trigger] tokens[j]).line
                    >= 1 && tokens[j].column >= 1 && exists|at: int|
                    i <= at < s.len() && tokens[j].line == line_of(s, at) && tokens[j].column
                        == column_of(s, at) by {
                    let at = choose|at: int|
                        rest <= at < s.len() && tokens[j].line == line_of(s, at)
                            && tokens[j].column == column_of(s, at);
                    assert(i <= at);
                }
            }
        }
    }
}

/// Whether `token` is the word that runs from `a` to `b` in `s`: a run of
/// characters other than white space that white space or an end of the text
/// bounds on both sides.
pub open spec fn is_run(s: Seq<char>, from: int, token: Lexeme, a: int, b: int) -> bool {
    &&& from <= a < b <= s.len()
    &&& a == from || is_space(s[a - 1])
    &&& b == s.len() || is_space(s[b])
    &&& forall|c: int| a <= c < b ==> !is_space(#[trigger] s[c])
    &&& token == lexeme_at(s, a, s.subrange(a, b), word_kind(s.subrange(a, b)))
}

/// Whether `token` is a word of `s` that starts at or after `from`.
pub open spec fn run_in(s: Seq<char>, from: int, token: Lexeme) -> bool {
    exists|a: int, b: int| #[trigger] is_run(s, from, token, a, b)
}

/// Whether every one of `tokens` is a word of `s` that starts at or after
/// `from`.
pub open spec fn all_runs(s: Seq<char>, from: int, tokens: Seq<Lexeme>) -> bool {
    forall|t: int| 0 <= t < tokens.len() ==> run_in(s, from, #[trigger] tokens[t])
}

/// A text without quotes and opening brackets is split into its words.
///
/// Where no character of `s` from `i` on is a quote or an opening bracket,
/// the tokens from `i` on are there without an error, and each is a run of
/// characters other than white space, bounded by white space or by an end
/// of the text, with the kind of that word.
pub proof fn lemma_words_only(s: Seq<char>, i: int)
    requires
        0 <= i,
        forall|j: int| i <= j < s.len() ==> !is_opener(#[trigger] s[j]),
    ensures
        lex_from(s, i) is Ok,
        all_runs(s, i, lex_from(s, i)->Ok_0),
    decreases s.len() - i,
{
    if i >= s.len() {
        assert(lex_from(s, i)->Ok_0.len() == 0);
    } else {
        assert(!is_opener(s[i]));
        if is_space(s[i]) {
            lemma_words_only(s, i + 1);
            let tokens = lex_from(s, i)->Ok_0;
            assert forall|t: int| 0 <= t < tokens.len() implies #[trigger] run_in(
                s,
                i,
                tokens[t],
            ) by {
                assert(run_in(s, i + 1, tokens[t]));
                let (a, b) = choose|a: int, b: int| #[trigger] is_run(s, i + 1, tokens[t], a, b);
                assert(is_run(s, i, tokens[t], a, b));
            }
        } else {
            let j = word_stop(s, i);
            lemma_word_stop_bounds(s, i);
            if j < s.len() {
                assert(!is_opener(s[j]));
            }
            lemma_words_only(s, j);
            let first = lexeme_at(s, i, s.subrange(i, j), word_kind(s.subrange(i, j)));
            let later = lex_from(s, j)->Ok_0;
            let tokens = lex_from(s, i)->Ok_0;
            assert(tokens == seq![first] + later);
            assert forall|t: int| 0 <= t < tokens.len() implies #[trigger] run_in(
                s,
                i,
                tokens[t],
            ) by {
                if t == 0 {
                    assert(tokens[0] == first);
                    assert(is_run(s, i, first, i, j));
                } else {
                    assert(tokens[t] == later[t - 1]);
                    assert(run_in(s, j, later[t - 1]));
                    let (a, b) = choose|a: int, b: int| #[trigger] is_run(s, j, later[t - 1], a, b);
                    if a == j {
                        assert(!is_space(s[a]));
                    }
                    assert(is_run(s, i, tokens[t], a, b));
                }
            }
        }
    }
}

/// Splits a source text into tokens.
///
/// White space separates tokens. A quote starts a string literal, which
/// runs to the next quote; an opening bracket starts a list literal, which
/// runs to the bracket that closes it; both must be followed by white space
/// or by the end of the text. Any other character starts a word, which runs
/// to the next white space and may hold neither a quote nor an opening
/// bracket.
pub fn tokenize(source: &str) -> (r: Result<Vec<Token>, LexError>)
    ensures
        lexed(r) == lex(source@),
        r matches Ok(tokens) ==> forall|j: int|
            0 <= j < tokens.len() ==> (#[trigger] tokens[j]).line >= 1 && tokens[j].column >= 1,
{
    let chars = chars_of(source);
    let n = chars.len();
    let ghost s = source@;
    let mut tokens: Vec<Token> = Vec::new();
    let mut i: usize = 0;
    let mut line0: usize = 0;
    let mut col0: usize = 0;
    assert(tokens.deep_view() =~= Seq::<Lexeme>::empty());
    assert(after(Seq::<Lexeme>::empty(), lex_from(s, 0)) == lex_from(s, 0)) by {
        if let Ok(all) = lex_from(s, 0) {
            assert(Seq::<Lexeme>::empty() + all =~= all);
        }
    }
    while i < n
        invariant
            i <= n,
            n == chars.len(),
            chars@ == s,
            s == source@,
            line0 + 1 == line_of(s, i as int),
            col0 + 1 == column_of(s, i as int),
            lex(s) == after(tokens.deep_view(), lex_from(s, i as int)),
        decreases n - i,
    {
        proof {
            lemma_position_bounds(s, i as int);
        }
        let c = chars[i];
        let ghost before = tokens;
        if is_whitespace(c) {
            if c == '\n' {
                line0 += 1;
                col0 = 0;
            } else {
                col0 += 1;
            }
            i += 1;
        } else if c == '"' {
            match scan_string(&chars, i + 1) {
                Err(kind) => {
                    return Err(LexError { kind, line: line0 + 1, column: col0 + 1 });
                },
                Ok(j) => {
                    let text = source.substring_char(i + 1, j).to_owned();
                    let token = Token { text, line: line0 + 1, column: col0 + 1, kind: TokenKind::Str };
                    tokens.push(token);
                    proof {
                        lemma_push_view(before, tokens, token);
                        lemma_after_push(
                            before.deep_view(),
                            token.deep_view(),
                            lex_from(s, j + 1),
                        );
                    }
                    let (l, k) = advance(&chars, i, j + 1, line0, col0);
                    line0 = l;
                    col0 = k;
                    i = j + 1;
                },
            }
        } else if c == '[' {
            match scan_list(&chars, i + 1) {
                Err(kind) => {
                    return Err(LexError { kind, line: line0 + 1, column: col0 + 1 });
                },
                Ok(j) => {
                    let text = source.substring_char(i, j + 1).to_owned();
                    let token = Token { text, line: line0 + 1, column: col0 + 1, kind: TokenKind::List };
                    tokens.push(token);
                    proof {
                        lemma_push_view(before, tokens, token);
                        lemma_after_push(
                            before.deep_view(),
                            token.deep_view(),
                            lex_from(s, j + 1),
                        );
                    }
                    let (l, k) = advance(&chars, i, j + 1, line0, col0);
                    line0 = l;
                    col0 = k;
                    i = j + 1;
                },
            }
        } else {
            let j = scan_word(&chars, i);
            proof {
                lemma_word_stop_bounds(s, i as int);
            }
            let (l, k) = advance(&chars, i, j, line0, col0);
            if j < n && (chars[j] == '"' || chars[j] == '[') {
                proof {
                    lemma_position_bounds(s, j as int);
                }
                return Err(
                    LexError { kind: LexErrorKind::UnexpectedCharacter, line: l + 1, column: k + 1 },
                );
            }
            let word = slice_of(&chars, i, j);
            let kind = classify(&word);
            let text = source.substring_char(i, j).to_owned();
            let token = Token { text, line: line0 + 1, column: col0 + 1, kind };
            tokens.push(token);
            proof {
                lemma_push_view(before, tokens, token);
                lemma_after_push(before.deep_view(), token.deep_view(), lex_from(s, j as int));
            }
            line0 = l;
            col0 = k;
            i = j;
        }
    }
    assert(after(tokens.deep_view(), lex_from(s, n as int)) == Ok::<Seq<Lexeme>, LexError>(
        tokens.deep_view(),
    )) by {
        assert(tokens.deep_view() + Seq::<Lexeme>::empty() =~= tokens.deep_view());
    }
    proof {
        lemma_tokens_are_placed(s, 0);
        assert forall|j: int| 0 <= j < tokens.len() implies (#[trigger] tokens[j]).line >= 1
            && tokens[j].column >= 1 by {
            assert(tokens.deep_view()[j].line >= 1);
        }
    }
    Ok(tokens)
}

/// The index of the first newline at or after `i`, or the length of `s` if
/// there is none.
pub open spec fn line_stop(s: Seq<char>, i: int) -> int
    decreases s.len() - i,
{
    if 0 <= i < s.len() && s[i] != '\n' {
        line_stop(s, i + 1)
    } else if i < s.len() {
        i
    } else {
        s.len() as int
    }
}

/// Where the content of the line that starts at `i` stops: at its newline,
/// or before the carriage return that precedes the newline.
pub open spec fn content_stop(s: Seq<char>, i: int) -> int {
    let e = line_stop(s, i);
    if i < e < s.len() && s[e - 1] == '\r' {
        e - 1
    } else {
        e
    }
}

/// The index of the first `//` that lies between `i` and `stop`, or `stop`
/// if there is none.
pub open spec fn comment_start(s: Seq<char>, i: int, stop: int) -> int
    decreases stop - i,
{
    if i + 1 < stop {
        if s[i] == '/' && s[i + 1] == '/' {
            i
        } else {
            comment_start(s, i + 1, stop)
        }
    } else {
        stop
    }
}

/// The lines of `s` from position `i` on, each cut at its first `//` and
/// ended by a newline.
pub open spec fn without_comments_from(s: Seq<char>, i: int) -> Seq<char>
    decreases s.len() - i,
{
    if !(0 <= i < s.len()) {
        Seq::empty()
    } else {
        let next = line_stop(s, i) + 1;
        proof {
            lemma_line_stop_bounds(s, i);
        }
        let rest = if next < s.len() {
            without_comments_from(s, next)
        } else {
            Seq::empty()
        };
        s.subrange(i, comment_start(s, i, content_stop(s, i))) + seq!['\n'] + rest
    }
}

/// A source text without its comments: every line cut at its first `//`
/// and ended by a single newline.
pub open spec fn without_comments(s: Seq<char>) -> Seq<char> {
    without_comments_from(s, 0)
}

/// The newline that ends a line lies between the line's start and the end
/// of the text.
pub proof fn lemma_line_stop_bounds(s: Seq<char>, i: int)
    requires
        0 <= i,
    ensures
        i <= line_stop(s, i) || line_stop(s, i) == s.len(),
        line_stop(s, i) <= s.len(),
    decreases s.len() - i,
{
    if i < s.len() && s[i] != '\n' {
        lemma_line_stop_bounds(s, i + 1);
    }
}

/// Whether `r` holds no `//`.
pub open spec fn has_no_comment(r: Seq<char>) -> bool {
    forall|j: int| 0 <= j < r.len() - 1 ==> !(#[trigger] r[j] == '/' && r[j + 1] == '/')
}

/// Before the place at which a comment starts there is no `//`.
pub proof fn lemma_comment_start_is_first(s: Seq<char>, i: int, stop: int)
    requires
        0 <= i <= stop <= s.len(),
    ensures
        i <= comment_start(s, i, stop) <= stop,
        forall|x: int|
            i <= x && x + 1 < comment_start(s, i, stop) ==> !(#[trigger] s[x] == '/' && s[x + 1]
                == '/'),
    decreases stop - i,
{
    if i + 1 < stop && !(s[i] == '/' && s[i + 1] == '/') {
        lemma_comment_start_is_first(s, i + 1, stop);
    }
}

/// A text without its comments holds no `//`, and ends with a newline
/// unless it is empty.
pub proof fn lemma_no_comment_left(s: Seq<char>, i: int)
    requires
        0 <= i,
    ensures
        has_no_comment(without_comments_from(s, i)),
        without_comments_from(s, i).len() > 0 ==> without_comments_from(s, i).last() == '\n',
    decreases s.len() - i,
{
    if i < s.len() {
        lemma_line_stop_bounds(s, i);
        let stop = content_stop(s, i);
        let cut = comment_start(s, i, stop);
        lemma_comment_start_is_first(s, i, stop);
        let next = line_stop(s, i) + 1;
        let code = s.subrange(i, cut);
        let rest = if next < s.len() {
            without_comments_from(s, next)
        } else {
            Seq::empty()
        };
        if next < s.len() {
            lemma_no_comment_left(s, next);
        }
        let head = code + seq!['\n'];
        let r = without_comments_from(s, i);
        assert(r == head + rest);
        assert(head.len() == code.len() + 1);
        assert(head[code.len() as int] == '\n');
        assert forall|j: int| 0 <= j < r.len() - 1 implies !(#[trigger] r[j] == '/' && r[j + 1]
            == '/') by {
            if j + 1 < code.len() {
                assert(r[j] == s[i + j] && r[j + 1] == s[i + j + 1]);
            } else if j + 1 == code.len() {
                assert(r[j + 1] == '\n');
            } else if j == code.len() {
                assert(r[j] == '\n');
            } else {
                assert(r[j] == rest[j - head.len()]);
                assert(r[j + 1] == rest[j + 1 - head.len()]);
            }
        }
        if rest.len() > 0 {
            assert(r.last() == rest.last());
        } else {
            assert(r =~= head);
        }
    }
}

/// Removes the comments of a source text: what follows `//` on a line, and
/// the `//` itself. Every line of the result ends with a single newline.
pub fn remove_comments(source: &str) -> (result: String)
    ensures
        result@ == without_comments(source@),
        has_no_comment(result@),
        result@.len() > 0 ==> result@.last() == '\n',
{
    proof {
        lemma_no_comment_left(source@, 0);
    }
    let chars = chars_of(source);
    let n = chars.len();
    let ghost s = source@;
    let mut result = String::new();
    let mut i: usize = 0;
    assert(result@ + without_comments_from(s, 0) =~= without_comments(s));
    while i < n
        invariant
            n == chars.len(),
            chars@ == s,
            s == source@,
            i < n ==> without_comments(s) == result@ + without_comments_from(s, i as int),
            i >= n ==> without_comments(s) == result@,
        decreases n - i,
    {
        let mut e: usize = i;
        while e < n && chars[e] != '\n'
            invariant
                i <= e <= n,
                n == chars.len(),
                line_stop(chars@, i as int) == line_stop(chars@, e as int),
            decreases n - e,
        {
            e += 1;
        }
        let stop: usize = if i < e && e < n && chars[e - 1] == '\r' {
            e - 1
        } else {
            e
        };
        let mut cut: usize = i;
        while stop - cut >= 2 && !(chars[cut] == '/' && chars[cut + 1] == '/')
            invariant
                i <= cut <= stop <= n,
                n == chars.len(),
                comment_start(chars@, i as int, stop as int) == comment_start(
                    chars@,
                    cut as int,
                    stop as int,
                ),
            decreases stop - cut,
        {
            cut += 1;
        }
        if stop - cut < 2 {
            cut = stop;
        }
        let ghost before = result@;
        result.append(source.substring_char(i, cut));
        result.append("\n");
        proof {
            reveal_strlit("\n");
            assert("\n"@ =~= seq!['\n']);
            let rest = without_comments_from(s, e + 1);
            assert(result@ + rest =~= before + (s.subrange(i as int, cut as int) + seq!['\n']
                + rest));
            if e + 1 >= n {
                assert(rest =~= Seq::<char>::empty());
                assert(result@ + rest =~= result@);
            }
        }
        if e >= n {
            i = n;
        } else {
            i = e + 1;
        }
    }
    if n == 0 {
        assert(without_comments(s) =~= result@);
    }
    result
}

} // verus!
