//! Characters and the literals that the language reads: what counts as
//! white space, as an integer, as a floating-point literal, as a boolean.

use vstd::prelude::*;

verus! {

/// Unicode white space: the characters with the `White_Space` property.
pub open spec fn is_space(c: char) -> bool {
    let n = c as u32;
    ||| 0x09 <= n <= 0x0D
    ||| n == 0x20
    ||| n == 0x85
    ||| n == 0xA0
    ||| n == 0x1680
    ||| 0x2000 <= n <= 0x200A
    ||| n == 0x2028
    ||| n == 0x2029
    ||| n == 0x202F
    ||| n == 0x205F
    ||| n == 0x3000
}

/// Tells whether `c` is white space.
pub fn is_whitespace(c: char) -> (r: bool)
    ensures
        r == is_space(c),
{
    let n: u32 = c as u32;
    (0x09 <= n && n <= 0x0D) || n == 0x20 || n == 0x85 || n == 0xA0 || n == 0x1680 || (0x2000 <= n
        && n <= 0x200A) || n == 0x2028 || n == 0x2029 || n == 0x202F || n == 0x205F || n == 0x3000
}

/// A decimal digit.
pub open spec fn is_digit(c: char) -> bool {
    '0' <= c <= '9'
}

/// The number that a decimal digit stands for.
pub open spec fn digit_value(c: char) -> int {
    c as u32 - 48
}

/// Whether every character of `s` is a decimal digit.
pub open spec fn all_digits(s: Seq<char>) -> bool {
    forall|i: int| 0 <= i < s.len() ==> is_digit(#[trigger] s[i])
}

/// The number written by a run of decimal digits, most significant first.
pub open spec fn decimal(s: Seq<char>) -> int
    decreases s.len(),
{
    if s.len() == 0 {
        0
    } else {
        decimal(s.drop_last()) * 10 + digit_value(s.last())
    }
}

/// Whether `s` starts with a plus or a minus sign.
pub open spec fn has_sign(s: Seq<char>) -> bool {
    s.len() > 0 && (s[0] == '+' || s[0] == '-')
}

/// `s` without its leading sign, if it has one.
pub open spec fn unsigned_part(s: Seq<char>) -> Seq<char> {
    if has_sign(s) {
        s.subrange(1, s.len() as int)
    } else {
        s
    }
}

/// The integer that `s` writes: an optional sign and one or more decimal
/// digits whose value fits in 64 bits. `None` for any other text.
pub open spec fn integer_value(s: Seq<char>) -> Option<i64> {
    let digits = unsigned_part(s);
    let value = if has_sign(s) && s[0] == '-' {
        -decimal(digits)
    } else {
        decimal(digits)
    };
    if digits.len() > 0 && all_digits(digits) && i64::MIN <= value <= i64::MAX {
        Some(value as i64)
    } else {
        None
    }
}

/// The index at which the run of decimal digits that starts at `i` ends.
pub open spec fn digit_run(s: Seq<char>, i: int) -> int
    decreases s.len() - i,
{
    if 0 <= i < s.len() && is_digit(s[i]) {
        digit_run(s, i + 1)
    } else {
        i
    }
}

/// Whether `c` is the lower-case ASCII letter `letter` or its upper-case form.
pub open spec fn is_letter(c: char, letter: char) -> bool {
    c == letter || c as u32 + 32 == letter as u32
}

/// `inf`, `infinity` or `nan`, in any mix of upper and lower case.
pub open spec fn is_special_float(b: Seq<char>) -> bool {
    ||| b.len() == 3 && is_letter(b[0], 'i') && is_letter(b[1], 'n') && is_letter(b[2], 'f')
    ||| b.len() == 3 && is_letter(b[0], 'n') && is_letter(b[1], 'a') && is_letter(b[2], 'n')
    ||| b.len() == 8 && is_letter(b[0], 'i') && is_letter(b[1], 'n') && is_letter(b[2], 'f')
        && is_letter(b[3], 'i') && is_letter(b[4], 'n') && is_letter(b[5], 'i') && is_letter(
        b[6],
        't',
    ) && is_letter(b[7], 'y')
}

/// An exponent: `e` or `E`, an optional sign, one or more digits.
pub open spec fn is_exponent(e: Seq<char>) -> bool {
    &&& e.len() >= 1
    &&& (e[0] == 'e' || e[0] == 'E')
    &&& unsigned_part(e.subrange(1, e.len() as int)).len() >= 1
    &&& all_digits(unsigned_part(e.subrange(1, e.len() as int)))
}

/// Where the mantissa of an unsigned decimal literal ends: after the
/// digits, and after a point and the digits that follow it.
pub open spec fn mantissa_end(b: Seq<char>) -> int {
    let whole = digit_run(b, 0);
    if whole < b.len() && b[whole] == '.' {
        digit_run(b, whole + 1)
    } else {
        whole
    }
}

/// How many digits the mantissa of an unsigned decimal literal holds.
pub open spec fn mantissa_digits(b: Seq<char>) -> int {
    let whole = digit_run(b, 0);
    if whole < b.len() && b[whole] == '.' {
        mantissa_end(b) - 1
    } else {
        whole
    }
}

/// An unsigned decimal literal: digits with an optional point among them,
/// at least one digit in all, and an optional exponent.
pub open spec fn is_decimal_float(b: Seq<char>) -> bool {
    &&& mantissa_digits(b) >= 1
    &&& (mantissa_end(b) == b.len() || is_exponent(b.subrange(mantissa_end(b), b.len() as int)))
}

/// Whether `s` is a floating-point literal: an optional sign, then `inf`,
/// `infinity`, `nan` or a decimal literal.
pub open spec fn is_float_literal(s: Seq<char>) -> bool {
    is_special_float(unsigned_part(s)) || is_decimal_float(unsigned_part(s))
}

/// Whether `s` is a numeric literal of either kind.
pub open spec fn is_number(s: Seq<char>) -> bool {
    integer_value(s) is Some || is_float_literal(s)
}

/// The characters of a string, one by one.
pub fn chars_of(s: &str) -> (v: Vec<char>)
    ensures
        v@ == s@,
{
    let mut v: Vec<char> = Vec::new();
    for c in it: s.chars()
        invariant
            v@ == it.seq().take(it.index() as int),
            it.seq() == s@,
    {
        v.push(c);
    }
    v
}

/// Tells whether `chars` spells the string `word`.
pub fn spells(chars: &Vec<char>, word: &str) -> (r: bool)
    ensures
        r == (chars@ == word@),
{
    let n = word.unicode_len();
    if n != chars.len() {
        return false;
    }
    let mut i: usize = 0;
    while i < n
        invariant
            i <= n,
            n == chars@.len(),
            n == word@.len(),
            forall|j: int| 0 <= j < i ==> chars@[j] == word@[j],
        decreases n - i,
    {
        if chars[i] != word.get_char(i) {
            return false;
        }
        i += 1;
    }
    assert(chars@ =~= word@);
    true
}

/// A prefix of a run of digits writes a number that is not larger.
pub proof fn lemma_decimal_grows(s: Seq<char>, n: int)
    requires
        all_digits(s),
        0 <= n <= s.len(),
    ensures
        0 <= decimal(s.take(n)) <= decimal(s),
    decreases s.len() - n,
{
    lemma_decimal_nonnegative(s.take(n));
    if n < s.len() {
        lemma_decimal_grows(s, n + 1);
        let longer = s.take(n + 1);
        assert(longer.drop_last() =~= s.take(n));
        assert(is_digit(s[n]));
        assert(longer.last() == s[n]);
    } else {
        assert(s.take(n) =~= s);
    }
}

/// A run of digits writes a number that is not negative.
pub proof fn lemma_decimal_nonnegative(s: Seq<char>)
    requires
        all_digits(s),
    ensures
        0 <= decimal(s),
    decreases s.len(),
{
    if s.len() > 0 {
        lemma_decimal_nonnegative(s.drop_last());
        assert(is_digit(s.last()));
    }
}

/// Reads the integer that `chars` writes, if it writes one.
pub fn parse_integer(chars: &Vec<char>) -> (r: Option<i64>)
    ensures
        r == integer_value(chars@),
{
    let n = chars.len();
    if n == 0 {
        return None;
    }
    let signed = chars[0] == '+' || chars[0] == '-';
    let negative = chars[0] == '-';
    let start: usize = if signed {
        1
    } else {
        0
    };
    if start == n {
        return None;
    }
    let ghost digits = unsigned_part(chars@);
    assert(digits =~= chars@.subrange(start as int, n as int));
    let mut acc: u64 = 0;
    let mut i: usize = start;
    while i < n
        invariant
            start <= i <= n,
            n == chars@.len(),
            digits == chars@.subrange(start as int, n as int),
            digits == unsigned_part(chars@),
            all_digits(digits.take(i - start)),
            acc == decimal(digits.take(i - start)),
            acc <= 0x8000_0000_0000_0000,
        decreases n - i,
    {
        let c = chars[i];
        assert(digits[i - start] == c);
        if !('0' <= c && c <= '9') {
            assert(!is_digit(digits[i - start]));
            return None;
        }
        let d: u64 = (c as u32 - 48) as u64;
        proof {
            let longer = digits.take(i - start + 1);
            assert(longer.drop_last() =~= digits.take(i - start));
            assert(longer.last() == c);
            assert(decimal(longer) == acc * 10 + d);
            assert forall|j: int| 0 <= j < longer.len() implies is_digit(#[trigger] longer[j]) by {
                if j < i - start {
                    assert(digits.take(i - start)[j] == longer[j]);
                }
            }
        }
        if acc > 922337203685477580 || acc * 10 + d > 0x8000_0000_0000_0000 {
            proof {
                if all_digits(digits) {
                    lemma_decimal_grows(digits, i - start + 1);
                }
            }
            return None;
        }
        acc = acc * 10 + d;
        i += 1;
    }
    assert(digits.take(n - start) =~= digits);
    if negative {
        if acc == 0x8000_0000_0000_0000 {
            Some(i64::MIN)
        } else {
            Some(-(acc as i64))
        }
    } else if acc == 0x8000_0000_0000_0000 {
        None
    } else {
        Some(acc as i64)
    }
}

/// The index at which the run of decimal digits that starts at `from` ends.
fn skip_digits(chars: &Vec<char>, from: usize) -> (r: usize)
    requires
        from <= chars.len(),
    ensures
        r == digit_run(chars@, from as int),
        from <= r <= chars.len(),
        forall|j: int| from <= j < r ==> is_digit(#[trigger] chars@[j]),
        r < chars.len() ==> !is_digit(chars@[r as int]),
{
    let mut i: usize = from;
    while i < chars.len() && '0' <= chars[i] && chars[i] <= '9'
        invariant
            from <= i <= chars.len(),
            digit_run(chars@, from as int) == digit_run(chars@, i as int),
            forall|j: int| from <= j < i ==> is_digit(#[trigger] chars@[j]),
        decreases chars.len() - i,
    {
        i += 1;
    }
    i
}

/// Tells whether `c` is the lower-case ASCII letter `letter` or its
/// upper-case form.
fn letter_is(c: char, letter: char) -> (r: bool)
    requires
        'a' <= letter <= 'z',
    ensures
        r == is_letter(c, letter),
{
    c == letter || (c as u32 <= 0x7f && c as u32 + 32 == letter as u32)
}

/// Tells whether `chars`, from index `from` on, spells `inf`, `infinity` or
/// `nan` in any mix of cases.
fn is_special(chars: &Vec<char>, from: usize) -> (r: bool)
    requires
        from <= chars.len(),
    ensures
        r == is_special_float(chars@.subrange(from as int, chars.len() as int)),
{
    let len = chars.len() - from;
    if len == 3 {
        (letter_is(chars[from], 'i') && letter_is(chars[from + 1], 'n') && letter_is(
            chars[from + 2],
            'f',
        )) || (letter_is(chars[from], 'n') && letter_is(chars[from + 1], 'a') && letter_is(
            chars[from + 2],
            'n',
        ))
    } else if len == 8 {
        letter_is(chars[from], 'i') && letter_is(chars[from + 1], 'n') && letter_is(
            chars[from + 2],
            'f',
        ) && letter_is(chars[from + 3], 'i') && letter_is(chars[from + 4], 'n') && letter_is(
            chars[from + 5],
            'i',
        ) && letter_is(chars[from + 6], 't') && letter_is(chars[from + 7], 'y')
    } else {
        false
    }
}

/// Tells whether `chars`, from index `from` on, is an exponent.
fn is_exponent_at(chars: &Vec<char>, from: usize) -> (r: bool)
    requires
        from <= chars.len(),
    ensures
        r == is_exponent(chars@.subrange(from as int, chars.len() as int)),
{
    let n = chars.len();
    let ghost e = chars@.subrange(from as int, n as int);
    if from == n {
        return false;
    }
    assert(e[0] == chars@[from as int]);
    if !(chars[from] == 'e' || chars[from] == 'E') {
        return false;
    }
    let ghost tail = e.subrange(1, e.len() as int);
    assert(tail =~= chars@.subrange(from + 1, n as int));
    let mut k: usize = from + 1;
    if k < n {
        assert(tail[0] == chars@[k as int]);
        if chars[k] == '+' || chars[k] == '-' {
            k += 1;
        }
    }
    let ghost d = unsigned_part(tail);
    assert(d =~= chars@.subrange(k as int, n as int));
    if k == n {
        return false;
    }
    let stop = skip_digits(chars, k);
    if stop == n {
        assert forall|j: int| 0 <= j < d.len() implies is_digit(#[trigger] d[j]) by {
            assert(d[j] == chars@[k + j]);
        }
        true
    } else {
        assert(d[stop - k] == chars@[stop as int]);
        false
    }
}

/// Tells whether `chars`, from index `from` on, is an unsigned decimal
/// literal.
fn is_decimal(chars: &Vec<char>, from: usize) -> (r: bool)
    requires
        from <= chars.len(),
    ensures
        r == is_decimal_float(chars@.subrange(from as int, chars.len() as int)),
{
    let n = chars.len();
    let ghost b = chars@.subrange(from as int, n as int);
    let whole = skip_digits(chars, from);
    proof {
        lemma_digit_run_shift(chars@, from as int, from as int);
    }
    let dotted = whole < n && chars[whole] == '.';
    let end = if dotted {
        proof {
            lemma_digit_run_shift(chars@, from as int, whole + 1);
        }
        skip_digits(chars, whole + 1)
    } else {
        whole
    };
    let digits = if dotted {
        end - from - 1
    } else {
        whole - from
    };
    assert(end - from == mantissa_end(b));
    assert(digits == mantissa_digits(b));
    if digits == 0 {
        return false;
    }
    if end == n {
        return true;
    }
    assert(b.subrange(end - from, b.len() as int) =~= chars@.subrange(end as int, n as int));
    is_exponent_at(chars, end)
}

/// Tells whether `chars` is a floating-point literal.
pub fn is_float(chars: &Vec<char>) -> (r: bool)
    ensures
        r == is_float_literal(chars@),
{
    let n = chars.len();
    let from: usize = if n > 0 && (chars[0] == '+' || chars[0] == '-') {
        1
    } else {
        0
    };
    assert(unsigned_part(chars@) =~= chars@.subrange(from as int, n as int));
    is_special(chars, from) || is_decimal(chars, from)
}

/// A run of digits is the same run in a tail of the text.
pub proof fn lemma_digit_run_shift(s: Seq<char>, from: int, i: int)
    requires
        0 <= from <= i <= s.len(),
    ensures
        digit_run(s, i) - from == digit_run(s.subrange(from, s.len() as int), i - from),
    decreases s.len() - i,
{
    let t = s.subrange(from, s.len() as int);
    if i < s.len() {
        assert(t[i - from] == s[i]);
        if is_digit(s[i]) {
            lemma_digit_run_shift(s, from, i + 1);
        }
    }
}

} // verus!
