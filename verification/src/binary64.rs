//! Binary64 floating-point numbers as bit patterns: what can be computed
//! on them with integers alone. Order and equality, the conversion from
//! an integer, and the truncation to one.

use vstd::prelude::*;

verus! {

/// The outcome of comparing two numbers.
#[derive(Clone, Copy, Debug, PartialEq, Eq, Structural)]
pub enum Order {
    Less,
    Equal,
    Greater,
}

/// Whether the sign bit of a bit pattern is set.
pub open spec fn is_negative(bits: u64) -> bool {
    bits >= 0x8000_0000_0000_0000
}

/// A bit pattern without its sign bit.
pub open spec fn magnitude(bits: u64) -> u64 {
    if bits >= 0x8000_0000_0000_0000 {
        (bits - 0x8000_0000_0000_0000) as u64
    } else {
        bits
    }
}

/// Whether a bit pattern is not a number: all exponent bits set and a
/// fraction other than zero.
pub open spec fn is_nan(bits: u64) -> bool {
    magnitude(bits) > 0x7ff0_0000_0000_0000
}

/// Where a bit pattern that is a number stands among all of them: numbers
/// are ordered as their ranks are, and both zeros have rank 0.
pub open spec fn rank(bits: u64) -> int {
    if is_negative(bits) {
        -(magnitude(bits) as int)
    } else {
        magnitude(bits) as int
    }
}

/// How two binary64 numbers compare; `None` if either is not a number.
pub open spec fn float_order(a: u64, b: u64) -> Option<Order> {
    if is_nan(a) || is_nan(b) {
        None
    } else if rank(a) < rank(b) {
        Some(Order::Less)
    } else if rank(a) == rank(b) {
        Some(Order::Equal)
    } else {
        Some(Order::Greater)
    }
}

/// Compares two binary64 numbers given as bit patterns.
pub fn compare_floats(a: u64, b: u64) -> (r: Option<Order>)
    ensures
        r == float_order(a, b),
{
    let sign: u64 = 0x8000_0000_0000_0000;
    let a_negative = a >= sign;
    let b_negative = b >= sign;
    let a_magnitude: u64 = if a_negative {
        a - sign
    } else {
        a
    };
    let b_magnitude: u64 = if b_negative {
        b - sign
    } else {
        b
    };
    if a_magnitude > 0x7ff0_0000_0000_0000 || b_magnitude > 0x7ff0_0000_0000_0000 {
        return None;
    }
    let a_rank: i128 = if a_negative {
        -(a_magnitude as i128)
    } else {
        a_magnitude as i128
    };
    let b_rank: i128 = if b_negative {
        -(b_magnitude as i128)
    } else {
        b_magnitude as i128
    };
    if a_rank < b_rank {
        Some(Order::Less)
    } else if a_rank == b_rank {
        Some(Order::Equal)
    } else {
        Some(Order::Greater)
    }
}

/// Two to the power `k`.
pub open spec fn two_to(k: nat) -> nat
    decreases k,
{
    if k == 0 {
        1
    } else {
        2 * two_to((k - 1) as nat)
    }
}

/// The position of the highest set bit of `a`: the largest `p` with
/// `two_to(p) <= a`, for `a` of at least 1.
pub open spec fn binade(a: nat) -> nat
    decreases a,
{
    if a <= 1 {
        0
    } else {
        1 + binade(a / 2)
    }
}

/// The bit pattern with the given sign, binade and 53-bit significand.
pub open spec fn assemble(negative: bool, exponent: nat, significand: nat) -> int {
    (if negative {
        0x8000_0000_0000_0000int
    } else {
        0int
    }) + (1023 + exponent) * 0x10_0000_0000_0000 + (significand - 0x10_0000_0000_0000)
}

/// The significand of `a` rounded to 53 bits, to the nearest and in a tie
/// to the even one, for `a` in a binade `p` above 52. The result may be
/// `two_to(53)`.
pub open spec fn rounded(a: nat, p: nat) -> nat {
    let unit = two_to((p - 52) as nat);
    let low = a / unit;
    let rest = a % unit;
    if 2 * rest > unit || (2 * rest == unit && low % 2 == 1) {
        low + 1
    } else {
        low
    }
}

/// The size of `n`.
pub open spec fn size(n: i64) -> nat {
    if n < 0 {
        (-n) as nat
    } else {
        n as nat
    }
}

/// The binary64 number nearest to the integer `n`, as a bit pattern. An
/// integer that lies halfway between two such numbers goes to the one whose
/// significand is even.
pub open spec fn widened(n: i64) -> u64 {
    let a = size(n);
    let p = binade(a);
    if n == 0 {
        0
    } else if p <= 52 {
        assemble(n < 0, p, a * two_to((52 - p) as nat)) as u64
    } else if rounded(a, p) == two_to(53) {
        assemble(n < 0, p + 1, two_to(52)) as u64
    } else {
        assemble(n < 0, p, rounded(a, p)) as u64
    }
}

/// Powers of two grow with the exponent, and these are some of them.
pub proof fn lemma_two_to(j: nat, k: nat)
    requires
        j <= k,
    ensures
        0 < two_to(j) <= two_to(k),
        two_to(k) == two_to(j) * two_to((k - j) as nat),
        two_to(11) == 2048,
        two_to(52) == 0x10_0000_0000_0000,
        two_to(53) == 0x20_0000_0000_0000,
        two_to(63) == 0x8000_0000_0000_0000,
    decreases k,
{
    lemma_two_to_values();
    if j < k {
        lemma_two_to(j, (k - 1) as nat);
        assert(two_to(k) == 2 * two_to((k - 1) as nat));
        assert(two_to((k - j) as nat) == 2 * two_to((k - 1 - j) as nat));
        let a = two_to(j) as int;
        let b = two_to((k - 1 - j) as nat) as int;
        assert(a * (2 * b) == 2 * (a * b)) by (nonlinear_arith);
        assert(two_to((k - 1) as nat) == a * b);
        assert(two_to(k) == a * (2 * b));
    } else {
        lemma_two_to_positive(j);
        assert(two_to(0) == 1);
        assert(two_to(j) * 1 == two_to(j));
    }
}

/// A power of two is positive.
pub proof fn lemma_two_to_positive(k: nat)
    ensures
        0 < two_to(k),
    decreases k,
{
    if k > 0 {
        lemma_two_to_positive((k - 1) as nat);
    }
}

/// Some powers of two.
pub proof fn lemma_two_to_values()
    ensures
        two_to(11) == 2048,
        two_to(52) == 0x10_0000_0000_0000,
        two_to(53) == 0x20_0000_0000_0000,
        two_to(63) == 0x8000_0000_0000_0000,
{
    reveal_with_fuel(two_to, 12);
    assert(two_to(11) == 2048);
    assert(two_to(22) == 2048 * two_to(11));
    assert(two_to(33) == 2048 * two_to(22));
    assert(two_to(44) == 2048 * two_to(33));
    assert(two_to(52) == 256 * two_to(44));
    assert(two_to(53) == 2 * two_to(52));
    assert(two_to(63) == 1024 * two_to(53));
}

/// Two to the power `k`, for `k` below 64.
fn power_of_two(k: u64) -> (r: u64)
    requires
        k < 64,
    ensures
        r == two_to(k as nat),
{
    let mut r: u64 = 1;
    let mut j: u64 = 0;
    while j < k
        invariant
            j <= k < 64,
            r == two_to(j as nat),
        decreases k - j,
    {
        proof {
            lemma_two_to((j + 1) as nat, 63);
        }
        r = r * 2;
        j += 1;
    }
    r
}

/// The position of the highest set bit of `a`.
fn highest_bit(a: u64) -> (p: u64)
    requires
        a >= 1,
    ensures
        p == binade(a as nat),
        p <= 63,
        two_to(p as nat) <= a < two_to((p + 1) as nat),
{
    let mut t: u64 = a;
    let mut p: u64 = 0;
    proof {
        assert(two_to(0) == 1);
    }
    while t > 1
        invariant
            t >= 1,
            binade(a as nat) == p + binade(t as nat),
            two_to(p as nat) * t <= a < two_to(p as nat) * (t + 1),
            a <= u64::MAX,
        decreases t,
    {
        proof {
            let w = two_to(p as nat);
            let h = (t / 2) as int;
            assert(two_to((p + 1) as nat) == 2 * w);
            assert(2 * h <= t && t + 1 <= 2 * h + 2);
            assert((2 * w) * h <= w * t) by (nonlinear_arith)
                requires
                    2 * h <= t,
                    w >= 0,
            ;
            assert(w * (t + 1) <= (2 * w) * (h + 1)) by (nonlinear_arith)
                requires
                    t + 1 <= 2 * h + 2,
                    w >= 0,
            ;
        }
        t = t / 2;
        proof {
            if p >= 63 {
                lemma_two_to(64, (p + 1) as nat);
                lemma_two_to(63, 64);
                assert(two_to((p + 1) as nat) * t >= two_to((p + 1) as nat)) by (nonlinear_arith)
                    requires
                        t >= 1,
                ;
            }
        }
        p += 1;
    }
    proof {
        assert(two_to(p as nat) * 1 == two_to(p as nat));
        assert(two_to(p as nat) * 2 == two_to((p + 1) as nat));
        if p > 63 {
            lemma_two_to(64, p as nat);
            lemma_two_to(63, 64);
        }
    }
    p
}

/// Converts an integer to the nearest binary64 number.
pub fn widen(n: i64) -> (bits: u64)
    ensures
        bits == widened(n),
{
    if n == 0 {
        return 0;
    }
    let negative = n < 0;
    let a: u64 = if n == i64::MIN {
        0x8000_0000_0000_0000
    } else if negative {
        (-n) as u64
    } else {
        n as u64
    };
    assert(a == size(n));
    let sign: u64 = if negative {
        0x8000_0000_0000_0000
    } else {
        0
    };
    let p = highest_bit(a);
    proof {
        lemma_two_to_values();
    }
    if p <= 52 {
        let shift = power_of_two(52 - p);
        proof {
            lemma_two_to((p + 1) as nat, 53);
            lemma_two_to(p as nat, 52);
            lemma_two_to_positive((52 - p) as nat);
            let w = two_to(p as nat) as int;
            let s = shift as int;
            assert(two_to(53) == 2 * two_to(52));
            assert(two_to((p + 1) as nat) == 2 * w);
            let x = a as int;
            assert(w * s <= x * s < (2 * w) * s) by (nonlinear_arith)
                requires
                    w <= x < 2 * w,
                    s > 0,
            ;
            assert((2 * w) * s == 2 * (w * s)) by (nonlinear_arith);
        }
        let q: u64 = a * shift;
        sign + (1023 + p) * 0x10_0000_0000_0000 + (q - 0x10_0000_0000_0000)
    } else {
        let unit = power_of_two(p - 52);
        proof {
            lemma_two_to(52, p as nat);
            lemma_two_to(52, (p + 1) as nat);
            lemma_two_to((p - 52) as nat, 11);
            let u = unit as int;
            let c = two_to(52) as int;
            assert(two_to((p + 1) as nat) == 2 * two_to(p as nat));
            let x = a as int;
            assert(c * u <= x < (2 * c) * u);
            assert(c <= x / u < 2 * c) by (nonlinear_arith)
                requires
                    c * u <= x < (2 * c) * u,
                    u > 0,
            ;
        }
        let low: u64 = a / unit;
        let rest: u64 = a % unit;
        let up = 2 * rest > unit || (2 * rest == unit && low % 2 == 1);
        let q: u64 = if up {
            low + 1
        } else {
            low
        };
        assert(q == rounded(a as nat, p as nat));
        if q == 0x20_0000_0000_0000 {
            sign + (1023 + p + 1) * 0x10_0000_0000_0000
        } else {
            sign + (1023 + p) * 0x10_0000_0000_0000 + (q - 0x10_0000_0000_0000)
        }
    }
}

/// The integer that a binary64 number truncates to: its whole part,
/// or the nearest 64-bit integer where that is out of range, or 0 where the
/// bit pattern is not a number.
pub open spec fn truncated(bits: u64) -> i64 {
    let m = magnitude(bits);
    let e = m / 0x10_0000_0000_0000;
    let q = 0x10_0000_0000_0000 + m % 0x10_0000_0000_0000;
    if is_nan(bits) || e < 1023 {
        0
    } else if e >= 1086 {
        if is_negative(bits) {
            i64::MIN
        } else {
            i64::MAX
        }
    } else {
        let whole = if e >= 1075 {
            q * two_to((e - 1075) as nat)
        } else {
            q / (two_to((1075 - e) as nat) as int)
        };
        if is_negative(bits) {
            (-whole) as i64
        } else {
            whole as i64
        }
    }
}

/// Truncates a binary64 number to an integer.
pub fn truncate(bits: u64) -> (r: i64)
    ensures
        r == truncated(bits),
{
    let sign: u64 = 0x8000_0000_0000_0000;
    let negative = bits >= sign;
    let m: u64 = if negative {
        bits - sign
    } else {
        bits
    };
    let e: u64 = m / 0x10_0000_0000_0000;
    let q: u64 = 0x10_0000_0000_0000 + m % 0x10_0000_0000_0000;
    if m > 0x7ff0_0000_0000_0000 || e < 1023 {
        return 0;
    }
    if e >= 1086 {
        return if negative {
            i64::MIN
        } else {
            i64::MAX
        };
    }
    proof {
        lemma_two_to_values();
    }
    let whole: u64 = if e >= 1075 {
        let scale = power_of_two(e - 1075);
        proof {
            lemma_two_to((e - 1075) as nat, 10);
            lemma_two_to(10, 11);
            let x = q as int;
            let s = scale as int;
            assert(x * s < 0x20_0000_0000_0000 * 1024) by (nonlinear_arith)
                requires
                    0 <= x < 0x20_0000_0000_0000,
                    0 < s <= 1024,
            ;
            assert(two_to(11) == 2 * two_to(10));
        }
        q * scale
    } else {
        let scale = power_of_two(1075 - e);
        proof {
            lemma_two_to_positive((1075 - e) as nat);
        }
        q / scale
    };
    if negative {
        -(whole as i64)
    } else {
        whole as i64
    }
}

} // verus!
