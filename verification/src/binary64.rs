//! Correctly rounded binary64 arithmetic carried out on plain integers.
//!
//! A finite number is `mantissa * 2^scale` counted in units of `2^-1074`, the
//! smallest positive number of the format. Every operation returns the number
//! of the format that is nearest to the exact result, ties going to the even
//! mantissa.

use vstd::arithmetic::div_mod::{lemma_fundamental_div_mod, lemma_fundamental_div_mod_converse};
use vstd::arithmetic::power2::{
    lemma2_to64, lemma2_to64_rest, lemma_pow2_adds, lemma_pow2_pos, lemma_pow2_strictly_increases,
    lemma_pow2_unfold, pow2,
};
use vstd::prelude::*;

verus! {

/// The smallest mantissa of a number above the subnormal range: `2^52`.
pub const HIDDEN_BIT: u64 = 4503599627370496;

/// One above the largest mantissa: `2^53`.
pub const MANTISSA_LIMIT: u64 = 9007199254740992;

/// The largest scale of a finite number.
pub const MAX_SCALE: u32 = 2045;

/// A number of the binary64 format, as contracts speak of it. A finite number
/// is `mantissa * 2^scale` units of `2^-1074`, with a sign; zero has a sign too.
pub enum Number {
    Nan,
    Infinite { negative: bool },
    Finite { negative: bool, mantissa: nat, scale: nat },
}

/// How a number of the format is made up.
#[derive(Clone, Copy, Debug, PartialEq, Eq, Structural)]
pub enum Parts {
    /// Not a number.
    Nan,
    /// An infinity.
    Infinite { negative: bool },
    /// `mantissa * 2^scale` units of `2^-1074`, with a sign.
    Finite { negative: bool, mantissa: u64, scale: u32 },
}

/// A number of the binary64 format.
#[derive(Clone, Copy, Debug)]
pub struct Real {
    parts: Parts,
}

/// What may have been read as a number.
pub open spec fn read_number(x: Option<Real>) -> Option<Number> {
    match x {
        Some(n) => Some(n@),
        None => None,
    }
}

impl Real {
    #[verifier::type_invariant]
    spec fn well_formed(self) -> bool {
        self.parts@.valid()
    }
}

impl View for Parts {
    type V = Number;

    open spec fn view(&self) -> Number {
        match *self {
            Parts::Nan => Number::Nan,
            Parts::Infinite { negative } => Number::Infinite { negative },
            Parts::Finite { negative, mantissa, scale } => Number::Finite {
                negative,
                mantissa: mantissa as nat,
                scale: scale as nat,
            },
        }
    }
}

impl View for Real {
    type V = Number;

    closed spec fn view(&self) -> Number {
        self.parts@
    }
}

impl Number {
    /// The number is one that the format has, written in its one way.
    pub open spec fn valid(self) -> bool {
        match self {
            Number::Finite { mantissa, scale, .. } => {
                &&& mantissa < MANTISSA_LIMIT
                &&& scale <= MAX_SCALE
                &&& (mantissa >= HIDDEN_BIT || scale == 0)
            },
            _ => true,
        }
    }

    /// The magnitude of a finite number, in units.
    pub open spec fn units(self) -> nat {
        match self {
            Number::Finite { mantissa, scale, .. } => mantissa * pow2(scale),
            _ => 0,
        }
    }

    /// A finite number with its sign, in units.
    pub open spec fn signed(self) -> int {
        match self {
            Number::Finite { negative, .. } => if negative {
                -(self.units() as int)
            } else {
                self.units() as int
            },
            _ => 0,
        }
    }

    /// The number with the other sign.
    pub open spec fn negated(self) -> Number {
        match self {
            Number::Nan => Number::Nan,
            Number::Infinite { negative } => Number::Infinite { negative: !negative },
            Number::Finite { negative, mantissa, scale } => Number::Finite {
                negative: !negative,
                mantissa,
                scale,
            },
        }
    }
}

/// The number of units that make one.
pub open spec fn one_units() -> nat {
    pow2(1074)
}

/// Zero.
pub open spec fn zero(negative: bool) -> Number {
    Number::Finite { negative, mantissa: 0, scale: 0 }
}

// ---------------------------------------------------------------------------
// The rounding rule
// ---------------------------------------------------------------------------

/// The integer nearest to `p / d`, the even one of two equally near.
pub open spec fn round_half_even(p: nat, d: nat) -> nat {
    let quotient = p / d;
    let rest = p % d;
    if 2 * rest < d || (2 * rest == d && quotient % 2 == 0) {
        quotient
    } else {
        quotient + 1
    }
}

/// The scale at which `p / q` units have a mantissa of at most 53 bits: the
/// least `k` with `p / q < 2^(53 + k)`.
pub open spec fn scale_of(p: nat, q: nat) -> nat
    decreases p - q,
{
    if q == 0 || p < q * pow2(53) {
        0
    } else {
        proof {
            lemma_powers();
            assert(q * pow2(53) >= 2 * q) by (nonlinear_arith)
                requires
                    pow2(53) >= 2,
            ;
        }
        1 + scale_of(p, 2 * q)
    }
}

/// The number of the format nearest to `p / q` units.
pub open spec fn nearest(negative: bool, p: nat, q: nat) -> Number {
    let k = scale_of(p, q);
    let m = round_half_even(p, q * pow2(k));
    let (mantissa, scale) = if m == MANTISSA_LIMIT {
        (HIDDEN_BIT as nat, k + 1)
    } else {
        (m, k)
    };
    if scale > MAX_SCALE {
        Number::Infinite { negative }
    } else {
        Number::Finite { negative, mantissa, scale }
    }
}

/// The sum of two numbers.
pub open spec fn sum(a: Number, b: Number) -> Number {
    match (a, b) {
        (Number::Nan, _) | (_, Number::Nan) => Number::Nan,
        (Number::Infinite { negative: x }, Number::Infinite { negative: y }) => if x == y {
            a
        } else {
            Number::Nan
        },
        (Number::Infinite { .. }, _) => a,
        (_, Number::Infinite { .. }) => b,
        (Number::Finite { negative: x, .. }, Number::Finite { negative: y, .. }) => {
            let total = a.signed() + b.signed();
            if total == 0 {
                zero(x && y)
            } else if total < 0 {
                nearest(true, (-total) as nat, 1)
            } else {
                nearest(false, total as nat, 1)
            }
        },
    }
}

/// The difference of two numbers.
pub open spec fn difference(a: Number, b: Number) -> Number {
    sum(a, b.negated())
}

/// The product of two numbers.
pub open spec fn product(a: Number, b: Number) -> Number {
    match (a, b) {
        (Number::Nan, _) | (_, Number::Nan) => Number::Nan,
        (Number::Infinite { negative: x }, Number::Infinite { negative: y }) => Number::Infinite {
            negative: x != y,
        },
        (Number::Infinite { negative: x }, Number::Finite { negative: y, mantissa, .. })
        | (Number::Finite { negative: x, mantissa, .. }, Number::Infinite { negative: y }) => {
            if mantissa == 0 {
                Number::Nan
            } else {
                Number::Infinite { negative: x != y }
            }
        },
        (Number::Finite { negative: x, .. }, Number::Finite { negative: y, .. }) => {
            nearest(x != y, a.units() * b.units(), one_units())
        },
    }
}

/// The quotient of two numbers.
pub open spec fn quotient(a: Number, b: Number) -> Number {
    match (a, b) {
        (Number::Nan, _) | (_, Number::Nan) => Number::Nan,
        (Number::Infinite { .. }, Number::Infinite { .. }) => Number::Nan,
        (Number::Infinite { negative: x }, Number::Finite { negative: y, .. }) => {
            Number::Infinite { negative: x != y }
        },
        (Number::Finite { negative: x, .. }, Number::Infinite { negative: y }) => zero(x != y),
        (Number::Finite { negative: x, mantissa: m, .. }, Number::Finite {
            negative: y,
            mantissa: n,
            ..
        }) => if n == 0 {
            if m == 0 {
                Number::Nan
            } else {
                Number::Infinite { negative: x != y }
            }
        } else {
            nearest(x != y, a.units() * one_units(), b.units())
        },
    }
}

/// The number nearest to the fraction `n / d`.
pub open spec fn fraction(n: nat, d: nat) -> Number {
    nearest(false, n * one_units(), d)
}

/// The number nearest to the integer `n`.
pub open spec fn integer(n: nat) -> Number {
    fraction(n, 1)
}

/// `a < b`; no number is below or above what is not a number.
pub open spec fn below(a: Number, b: Number) -> bool {
    match (a, b) {
        (Number::Nan, _) | (_, Number::Nan) => false,
        (Number::Infinite { negative: x }, Number::Infinite { negative: y }) => x && !y,
        (Number::Infinite { negative }, _) => negative,
        (_, Number::Infinite { negative }) => !negative,
        _ => a.signed() < b.signed(),
    }
}

/// `a == b`; the two zeros are equal.
pub open spec fn same(a: Number, b: Number) -> bool {
    match (a, b) {
        (Number::Nan, _) | (_, Number::Nan) => false,
        (Number::Infinite { negative: x }, Number::Infinite { negative: y }) => x == y,
        (Number::Infinite { .. }, _) | (_, Number::Infinite { .. }) => false,
        _ => a.signed() == b.signed(),
    }
}

/// `a <= b`.
pub open spec fn at_most(a: Number, b: Number) -> bool {
    below(a, b) || same(a, b)
}

/// The number, held between the bounds; what is not a number stays.
pub open spec fn clamped(x: Number, low: Number, high: Number) -> Number {
    if below(x, low) {
        low
    } else if below(high, x) {
        high
    } else {
        x
    }
}

/// The larger of two numbers; what is not a number gives way to the other.
pub open spec fn larger(a: Number, b: Number) -> Number {
    if a is Nan || below(a, b) {
        b
    } else {
        a
    }
}

/// The number rounded to an integer, halves away from zero, and held between
/// 0 and 255; 0 for what is not a number.
pub open spec fn rounded_byte(x: Number) -> int {
    match x {
        Number::Nan => 0,
        Number::Infinite { negative } => if negative {
            0
        } else {
            255
        },
        Number::Finite { negative, .. } => {
            let whole = (2 * x.units() + one_units()) as int / (2 * one_units()) as int;
            if negative {
                0
            } else if whole > 255 {
                255
            } else {
                whole
            }
        },
    }
}

/// The least integer that is not below the number.
pub open spec fn ceiling(x: Number) -> Number {
    match x {
        Number::Finite { negative, .. } => {
            let one = one_units() as int;
            let whole = if negative {
                x.units() as int / one
            } else {
                (x.units() + one - 1) / one
            };
            nearest(negative, (whole * one) as nat, 1)
        },
        _ => x,
    }
}

/// The lowest finite number.
pub open spec fn lowest() -> Number {
    Number::Finite { negative: true, mantissa: (MANTISSA_LIMIT - 1) as nat, scale: MAX_SCALE as nat }
}

/// The highest finite number.
pub open spec fn highest() -> Number {
    Number::Finite { negative: false, mantissa: (MANTISSA_LIMIT - 1) as nat, scale: MAX_SCALE as nat }
}

/// The number that a bit pattern of the format stands for.
pub open spec fn decoded(bits: u64) -> Number {
    let negative = bits / 0x8000_0000_0000_0000 == 1;
    let exponent = (bits / HIDDEN_BIT) % 2048;
    let low = bits % HIDDEN_BIT;
    if exponent == 2047 {
        if low == 0 {
            Number::Infinite { negative }
        } else {
            Number::Nan
        }
    } else if exponent == 0 {
        Number::Finite { negative, mantissa: low as nat, scale: 0 }
    } else {
        Number::Finite { negative, mantissa: (low + HIDDEN_BIT) as nat, scale: (exponent - 1) as nat }
    }
}

/// The bit pattern of a number of the format.
pub open spec fn encoded(x: Number) -> int {
    let sign = |negative: bool| if negative {
        0x8000_0000_0000_0000int
    } else {
        0
    };
    match x {
        Number::Nan => 0x7ff8_0000_0000_0000,
        Number::Infinite { negative } => sign(negative) + 0x7ff0_0000_0000_0000,
        Number::Finite { negative, mantissa, scale } => sign(negative) + (if mantissa >= HIDDEN_BIT {
            (scale + 1) * HIDDEN_BIT + (mantissa - HIDDEN_BIT)
        } else {
            mantissa as int
        }),
    }
}

/// The integer `f` and the flag describe `p / q` at scale `x`: the quotient is
/// `f * 2^x` units, or, where `inexact`, strictly between that and
/// `(f + 1) * 2^x` units.
spec fn describes(p: nat, q: nat, f: nat, inexact: bool, x: int) -> bool {
    if x >= 0 {
        within(p, q * pow2(x as nat), f, inexact)
    } else {
        within(p * pow2((-x) as nat), q, f, inexact)
    }
}

spec fn within(p: nat, u: nat, f: nat, inexact: bool) -> bool {
    if inexact {
        f * u < p < (f + 1) * u
    } else {
        p == f * u
    }
}

/// The powers of two that the format is made of.
pub proof fn lemma_powers()
    ensures
        pow2(0) == 1,
        pow2(52) == HIDDEN_BIT,
        pow2(53) == MANTISSA_LIMIT,
        pow2(63) == 0x8000_0000_0000_0000,
        pow2(64) == 0x1_0000_0000_0000_0000,
        pow2(127) == 0x8000_0000_0000_0000_0000_0000_0000_0000,
        pow2(128) == 0x1_0000_0000_0000_0000_0000_0000_0000_0000,
{
    lemma2_to64();
    lemma2_to64_rest();
    lemma_pow2_adds(64, 63);
    lemma_pow2_adds(64, 64);
}

pub proof fn lemma_round_half_even_by(p: nat, d: nat, quotient: nat, rest: nat)
    requires
        p == quotient * d + rest,
        rest < d,
    ensures
        round_half_even(p, d) == (if 2 * rest < d || (2 * rest == d && quotient % 2 == 0) {
            quotient
        } else {
            quotient + 1
        }),
{
    lemma_fundamental_div_mod_converse(p as int, d as int, quotient as int, rest as int);
}

pub proof fn lemma_round_half_even_scaled(p: nat, d: nat, c: nat)
    requires
        d > 0,
        c > 0,
    ensures
        round_half_even(p * c, d * c) == round_half_even(p, d),
{
    let quotient = p / d;
    let rest = p % d;
    lemma_fundamental_div_mod(p as int, d as int);
    assert(p * c == quotient * (d * c) + rest * c) by (nonlinear_arith)
        requires
            p == d * quotient + rest,
    ;
    assert(rest * c < d * c) by (nonlinear_arith)
        requires
            rest < d,
            c > 0,
    ;
    assert(2 * (rest * c) < d * c <==> 2 * rest < d) by (nonlinear_arith)
        requires
            c > 0,
    ;
    assert(2 * (rest * c) == d * c <==> 2 * rest == d) by (nonlinear_arith)
        requires
            c > 0,
    ;
    lemma_round_half_even_by(p * c, d * c, quotient, rest * c);
}

proof fn lemma_scale_of(p: nat, q: nat, k: nat)
    requires
        q > 0,
        p < q * pow2(53 + k),
        k == 0 || p >= q * pow2((52 + k) as nat),
    ensures
        scale_of(p, q) == k,
    decreases k,
{
    if k > 0 {
        lemma_pow2_adds(53, (k - 1) as nat);
        lemma_pow2_pos((k - 1) as nat);
        assert(q * pow2((52 + k) as nat) >= q * pow2(53)) by (nonlinear_arith)
            requires
                pow2((52 + k) as nat) == pow2(53) * pow2((k - 1) as nat),
                pow2((k - 1) as nat) >= 1,
        ;
        lemma_pow2_unfold(53 + k);
        assert((2 * q) * pow2((52 + k) as nat) == q * pow2(53 + k)) by (nonlinear_arith)
            requires
                pow2(53 + k) == 2 * pow2((52 + k) as nat),
        ;
        if k > 1 {
            lemma_pow2_unfold((52 + k) as nat);
            assert((2 * q) * pow2((51 + k) as nat) == q * pow2((52 + k) as nat)) by (nonlinear_arith)
                requires
                    pow2((52 + k) as nat) == 2 * pow2((51 + k) as nat),
            ;
        }
        lemma_scale_of(p, 2 * q, (k - 1) as nat);
    }
}

// ---------------------------------------------------------------------------
// Rounding
// ---------------------------------------------------------------------------

/// `2^j`.
pub fn power_of_two(j: u32) -> (r: u128)
    requires
        j <= 127,
    ensures
        r == pow2(j as nat),
{
    let mut r: u128 = 1;
    let mut i: u32 = 0;
    proof {
        lemma_powers();
    }
    while i < j
        invariant
            i <= j <= 127,
            r == pow2(i as nat),
        decreases j - i,
    {
        proof {
            lemma_pow2_unfold((i + 1) as nat);
            lemma_power_below_128((i + 1) as nat);
        }
        r = r * 2;
        i = i + 1;
    }
    r
}

proof fn lemma_power_below_128(j: nat)
    requires
        j <= 127,
    ensures
        pow2(j) <= 0x8000_0000_0000_0000_0000_0000_0000_0000,
{
    lemma_powers();
    if j < 127 {
        lemma_pow2_strictly_increases(j, 127);
    }
}

/// The number of binary digits of `f`.
fn bit_length(f: u128) -> (n: u32)
    ensures
        n <= 128,
        f < pow2(n as nat),
        n > 0 ==> f >= pow2((n - 1) as nat),
        n == 0 <==> f == 0,
{
    let mut v: u128 = f;
    let mut n: u32 = 0;
    proof {
        lemma_powers();
    }
    while v > 0
        invariant
            v * pow2(n as nat) <= f < (v + 1) * pow2(n as nat),
            n > 0 ==> f >= pow2((n - 1) as nat),
            n == 0 ==> f == v,
            n > 0 ==> f > 0,
            n <= 128,
        decreases v,
    {
        proof {
            lemma_pow2_unfold((n + 1) as nat);
            let h = pow2(n as nat);
            assert((v / 2) * (2 * h) <= v * h) by (nonlinear_arith);
            assert((v + 1) * h <= (v / 2 + 1) * (2 * h)) by (nonlinear_arith);
            assert(v * h >= h) by (nonlinear_arith)
                requires
                    v >= 1,
            ;
            if n == 128 {
                lemma_powers();
            }
        }
        v = v / 2;
        n = n + 1;
    }
    proof {
        assert((v + 1) * pow2(n as nat) == pow2(n as nat)) by (nonlinear_arith)
            requires
                v == 0,
        ;
    }
    n
}

/// The mantissa that the rounding rule gives for what `f` and `inexact` describe
/// at scale `x`, when `k` is the scale of the result.
proof fn lemma_rounded_mantissa(p: nat, q: nat, f: nat, inexact: bool, x: int, k: nat, m: nat)
    requires
        q > 0,
        describes(p, q, f, inexact, x),
        k - x <= 0 ==> !inexact && m == f * pow2((x - k) as nat),
        k - x > 0 ==> ({
            let d = pow2((k - x) as nat);
            let rest = f % d;
            m == (if 2 * rest > d || (2 * rest == d && (inexact || (f / d) % 2 == 1)) {
                f / d + 1
            } else {
                f / d
            })
        }),
    ensures
        round_half_even(p, q * pow2(k)) == m,
{
    lemma_pow2_pos(k);
    let target = q * pow2(k);
    assert(target > 0) by (nonlinear_arith)
        requires
            target == q * pow2(k),
            q > 0,
            pow2(k) > 0,
    ;
    if k - x <= 0 {
        let shift = (x - k) as nat;
        lemma_pow2_adds(k, shift);
        assert(p == m * target) by (nonlinear_arith)
            requires
                p == f * (q * pow2(x as nat)),
                pow2(x as nat) == pow2(k) * pow2(shift),
                m == f * pow2(shift),
                target == q * pow2(k),
        ;
        lemma_round_half_even_by(p, target, m, 0);
    } else {
        let j = (k - x) as nat;
        let d = pow2(j);
        lemma_pow2_pos(j);
        lemma_pow2_unfold(j);
        let quotient = f / d;
        let rest = f % d;
        lemma_fundamental_div_mod(f as int, d as int);
        // In the common scale `c * p == f * u + tail` and `c * target == d * u`.
        let (c, u): (nat, nat) = if x >= 0 {
            (1, q * pow2(x as nat))
        } else {
            (pow2((-x) as nat), q)
        };
        let scaled = p * c;
        if x >= 0 {
            lemma_pow2_pos(x as nat);
            lemma_pow2_adds(x as nat, j);
            assert(u > 0) by (nonlinear_arith)
                requires
                    u == q * pow2(x as nat),
                    q > 0,
                    pow2(x as nat) > 0,
            ;
            assert(target * c == d * u) by (nonlinear_arith)
                requires
                    target == q * pow2(k),
                    pow2(k) == pow2(x as nat) * d,
                    u == q * pow2(x as nat),
                    c == 1,
            ;
        } else {
            lemma_pow2_pos((-x) as nat);
            lemma_pow2_adds(k, (-x) as nat);
            assert(target * c == d * u) by (nonlinear_arith)
                requires
                    target == q * pow2(k),
                    d == pow2(k) * c,
                    u == q,
            ;
        }
        assert(within(scaled, u, f, inexact));
        let tail = (scaled - f * u) as nat;
        assert((f + 1) * u == f * u + u) by (nonlinear_arith);
        assert(tail < u);
        assert(inexact <==> tail > 0);
        let left = rest * u + tail;
        assert(scaled == quotient * (d * u) + left) by (nonlinear_arith)
            requires
                scaled == f * u + tail,
                f == d * quotient + rest,
                left == rest * u + tail,
        ;
        assert(left < d * u) by (nonlinear_arith)
            requires
                left == rest * u + tail,
                rest + 1 <= d,
                tail < u,
        ;
        lemma_round_half_even_by(scaled, d * u, quotient, left);
        lemma_round_half_even_scaled(p, target, c);
        let half = pow2((j - 1) as nat);
        assert(d == 2 * half);
        if rest < half {
            assert(2 * left < d * u) by (nonlinear_arith)
                requires
                    left == rest * u + tail,
                    rest + 1 <= half,
                    d == 2 * half,
                    tail < u,
            ;
        } else if rest > half {
            assert(2 * left > d * u) by (nonlinear_arith)
                requires
                    left == rest * u + tail,
                    rest >= half + 1,
                    d == 2 * half,
                    u > 0,
            ;
        } else {
            assert(2 * left == d * u + 2 * tail) by (nonlinear_arith)
                requires
                    left == rest * u + tail,
                    rest == half,
                    d == 2 * half,
            ;
        }
    }
}

/// The number nearest to the described quotient.
fn round(negative: bool, f: u128, inexact: bool, x: i32, p: Ghost<nat>, q: Ghost<nat>) -> (r: Real)
    requires
        q@ > 0,
        describes(p@, q@, f as nat, inexact, x as int),
        f < 0x8000_0000_0000_0000_0000_0000_0000_0000,
        inexact ==> f >= 0x40_0000_0000_0000,
        -4000 <= x <= 4000,
    ensures
        r@ == nearest(negative, p@, q@),
{
    if f == 0 {
        proof {
            lemma_nearest_zero(negative, p@, q@, x as int);
        }
        return Real { parts: Parts::Finite { negative, mantissa: 0, scale: 0 } };
    }
    let length: u32 = bit_length(f);
    let top: i32 = length as i32 + x - 53;
    let k: i32 = if top > 0 {
        top
    } else {
        0
    };
    let j: i32 = k - x;
    proof {
        lemma_powers();
        lemma_bounds(p@, q@, f as nat, inexact, x as int, length as nat);
        lemma_scale_of(p@, q@, k as nat);
        if inexact {
            lemma_long(f as nat, length as nat);
        }
    }
    let m: u128 = if j <= 0 {
        let shift: u32 = (-j) as u32;
        proof {
            lemma_short_shift(f as nat, length as nat, x as int, k as int, shift as nat);
        }
        f * power_of_two(shift)
    } else if j > 127 {
        proof {
            if j > 128 {
                lemma_pow2_strictly_increases(128, j as nat);
            }
            lemma_fundamental_div_mod_converse(f as int, pow2(j as nat) as int, 0, f as int);
        }
        0
    } else {
        let d: u128 = power_of_two(j as u32);
        proof {
            lemma_pow2_pos(j as nat);
        }
        let quotient: u128 = f / d;
        let rest: u128 = f % d;
        proof {
            lemma_pow2_unfold(j as nat);
        }
        let half: u128 = d / 2;
        if rest > half || (rest == half && (inexact || quotient % 2 == 1)) {
            quotient + 1
        } else {
            quotient
        }
    };
    proof {
        lemma_rounded_mantissa(p@, q@, f as nat, inexact, x as int, k as nat, m as nat);
        lemma_mantissa_bound(p@, q@, k as nat);
    }
    let (mantissa, scale): (u64, i32) = if m == MANTISSA_LIMIT as u128 {
        (HIDDEN_BIT, k + 1)
    } else {
        (m as u64, k)
    };
    if scale > MAX_SCALE as i32 {
        Real { parts: Parts::Infinite { negative } }
    } else {
        Real { parts: Parts::Finite { negative, mantissa, scale: scale as u32 } }
    }
}

proof fn lemma_nearest_zero(negative: bool, p: nat, q: nat, x: int)
    requires
        q > 0,
        describes(p, q, 0, false, x),
    ensures
        nearest(negative, p, q) == zero(negative),
{
    lemma_powers();
    if x < 0 {
        let c = pow2((-x) as nat);
        lemma_pow2_pos((-x) as nat);
        assert(p == 0) by (nonlinear_arith)
            requires
                p * c == 0 * q,
                c > 0,
        ;
    } else {
        assert(0 * (q * pow2(x as nat)) == 0) by (nonlinear_arith);
    }
    assert(q * pow2(53) > 0) by (nonlinear_arith)
        requires
            q > 0,
            pow2(53) > 0,
    ;
    assert(q * pow2(0) == q) by (nonlinear_arith)
        requires
            pow2(0) == 1,
    ;
    lemma_round_half_even_by(0, q, 0, 0);
}

/// What is described by an integer of `length` binary digits lies in the binade
/// that these digits give.
proof fn lemma_bounds(p: nat, q: nat, f: nat, inexact: bool, x: int, length: nat)
    requires
        q > 0,
        describes(p, q, f, inexact, x),
        f < pow2(length),
        length > 0 ==> f >= pow2((length - 1) as nat),
        inexact ==> f > 0,
        length == 0 <==> f == 0,
    ensures
        forall|k: nat| 53 + k >= length + x ==> #[trigger] (q * pow2(53 + k)) > p,
        length + x - 53 > 0 && length > 0 ==> p >= q * pow2((length + x - 1) as nat),
{
    assert forall|k: nat| 53 + k >= length + x implies #[trigger] (q * pow2(53 + k)) > p by {
        let n = 53 + k;
        if x >= 0 {
            let u = q * pow2(x as nat);
            lemma_pow2_pos(x as nat);
            lemma_pow2_adds(length, x as nat);
            lemma_pow2_monotonic(length + x as nat, n);
            assert(q * pow2(n) > p) by (nonlinear_arith)
                requires
                    u == q * pow2(x as nat),
                    p < (f + 1) * u || p == f * u,
                    f + 1 <= pow2(length),
                    pow2(n) >= pow2(length) * pow2(x as nat),
                    q > 0,
                    pow2(x as nat) > 0,
            ;
        } else {
            let c = pow2((-x) as nat);
            lemma_pow2_pos((-x) as nat);
            lemma_pow2_adds(n, (-x) as nat);
            lemma_pow2_monotonic(length, (n - x) as nat);
            let pc = p * c;
            assert(pc < pow2(length) * q) by (nonlinear_arith)
                requires
                    pc < (f + 1) * q || pc == f * q,
                    f + 1 <= pow2(length),
                    q > 0,
            ;
            assert(p < q * pow2(n)) by (nonlinear_arith)
                requires
                    p * c < pow2(length) * q,
                    pow2(n) * c >= pow2(length),
                    c > 0,
            ;
        }
    }
    if length + x - 53 > 0 && length > 0 {
        let low = pow2((length - 1) as nat);
        let n = (length + x - 1) as nat;
        if x >= 0 {
            let u = q * pow2(x as nat);
            lemma_pow2_adds((length - 1) as nat, x as nat);
            assert(p >= q * pow2(n)) by (nonlinear_arith)
                requires
                    u == q * pow2(x as nat),
                    p >= f * u,
                    f >= low,
                    pow2(n) == low * pow2(x as nat),
            ;
        } else {
            let c = pow2((-x) as nat);
            lemma_pow2_pos((-x) as nat);
            lemma_pow2_adds(n, (-x) as nat);
            assert(p >= q * pow2(n)) by (nonlinear_arith)
                requires
                    p * c >= f * q,
                    f >= low,
                    low == pow2(n) * c,
                    c > 0,
            ;
        }
    }
}

pub proof fn lemma_pow2_monotonic(a: nat, b: nat)
    requires
        a <= b,
    ensures
        pow2(a) <= pow2(b),
{
    if a < b {
        lemma_pow2_strictly_increases(a, b);
    }
}

/// An integer of more than 54 binary digits.
proof fn lemma_long(f: nat, length: nat)
    requires
        f >= 0x40_0000_0000_0000,
        f < pow2(length),
    ensures
        length >= 54,
{
    if length < 54 {
        lemma_powers();
        lemma_pow2_monotonic(length, 53);
    }
}

/// A shift to the left keeps within 53 binary digits.
proof fn lemma_short_shift(f: nat, length: nat, x: int, k: int, shift: nat)
    requires
        f < pow2(length),
        shift == x - k,
        k >= 0,
        length + x - 53 <= k,
    ensures
        f * pow2(shift) < pow2(53),
        shift <= 127 || f == 0,
{
    lemma_pow2_pos(shift);
    lemma_pow2_adds(length, shift);
    lemma_pow2_monotonic(length + shift, 53);
    assert(f * pow2(shift) < pow2(length) * pow2(shift)) by (nonlinear_arith)
        requires
            f < pow2(length),
            pow2(shift) > 0,
    ;
    if length == 0 {
        lemma_powers();
    }
}

/// A rounded mantissa has at most 53 binary digits, or is `2^53`.
pub(crate) proof fn lemma_mantissa_bound(p: nat, q: nat, k: nat)
    requires
        q > 0,
        p < q * pow2(53 + k),
    ensures
        round_half_even(p, q * pow2(k)) <= pow2(53),
        p >= q * pow2(52 + k) ==> round_half_even(p, q * pow2(k)) >= pow2(52),
{
    let d = q * pow2(k);
    lemma_pow2_pos(k);
    lemma_pow2_adds(53, k);
    assert(d > 0) by (nonlinear_arith)
        requires
            d == q * pow2(k),
            q > 0,
            pow2(k) > 0,
    ;
    lemma_fundamental_div_mod(p as int, d as int);
    let quotient = p / d;
    assert(quotient < pow2(53)) by (nonlinear_arith)
        requires
            p == d * quotient + p % d,
            p % d >= 0,
            p < q * pow2(53 + k),
            pow2(53 + k) == pow2(53) * pow2(k),
            d == q * pow2(k),
            d > 0,
    ;
    if p >= q * pow2(52 + k) {
        lemma_pow2_adds(52, k);
        assert(quotient >= pow2(52)) by (nonlinear_arith)
            requires
                p == d * quotient + p % d,
                p % d < d,
                p >= q * pow2(52 + k),
                pow2(52 + k) == pow2(52) * pow2(k),
                d == q * pow2(k),
                d > 0,
        ;
    }
}

/// Every result of the rounding rule is a number of the format.
pub proof fn lemma_nearest_is_valid(negative: bool, p: nat, q: nat)
    requires
        q > 0,
    ensures
        nearest(negative, p, q).valid(),
{
    lemma_powers();
    lemma_scale_of_bounds(p, q);
    lemma_mantissa_bound(p, q, scale_of(p, q));
}

/// The scale of a quotient puts it in its binade.
pub(crate) proof fn lemma_scale_of_bounds(p: nat, q: nat)
    requires
        q > 0,
    ensures
        p < q * pow2(53 + scale_of(p, q)),
        scale_of(p, q) > 0 ==> p >= q * pow2((52 + scale_of(p, q)) as nat),
    decreases p - q,
{
    lemma_powers();
    if p >= q * pow2(53) {
        assert(q * pow2(53) >= 2 * q) by (nonlinear_arith)
            requires
                pow2(53) >= 2,
        ;
        lemma_scale_of_bounds(p, 2 * q);
        let k = scale_of(p, 2 * q);
        lemma_pow2_unfold(54 + k);
        assert((2 * q) * pow2(53 + k) == q * pow2(54 + k)) by (nonlinear_arith)
            requires
                pow2(54 + k) == 2 * pow2(53 + k),
        ;
        lemma_pow2_unfold(53 + k);
        assert((2 * q) * pow2((52 + k) as nat) == q * pow2(53 + k)) by (nonlinear_arith)
            requires
                pow2(53 + k) == 2 * pow2((52 + k) as nat),
        ;
    }
}

// ---------------------------------------------------------------------------
// Operations
// ---------------------------------------------------------------------------

/// The number nearest to `a / b * 2^x` units, which is `p / q` units.
fn divide(negative: bool, a: u64, b: u64, x: i32, p: Ghost<nat>, q: Ghost<nat>) -> (r: Real)
    requires
        0 < b < MANTISSA_LIMIT,
        a < MANTISSA_LIMIT,
        q@ > 0,
        -3500 <= x <= 3500,
        x >= 0 ==> p@ * b == a * (q@ * pow2(x as nat)),
        x < 0 ==> (p@ * pow2((-x) as nat)) * b == a * q@,
    ensures
        r@ == nearest(negative, p@, q@),
{
    let length: u32 = bit_length(a as u128);
    proof {
        lemma_powers();
        if length > 64 {
            lemma_pow2_monotonic(64, (length - 1) as nat);
        }
    }
    let shift: u32 = 127 - length;
    let factor: u128 = power_of_two(shift);
    proof {
        lemma_pow2_adds(length as nat, shift as nat);
        lemma_pow2_pos(shift as nat);
        assert(a * factor < pow2(127)) by (nonlinear_arith)
            requires
                a < pow2(length as nat),
                pow2(length as nat) * factor == pow2(127),
                factor > 0,
        ;
    }
    let top: u128 = a as u128 * factor;
    let f: u128 = top / b as u128;
    let rest: u128 = top % b as u128;
    let inexact: bool = rest != 0;
    let y: i32 = x - shift as i32;
    proof {
        lemma_fundamental_div_mod(top as int, b as int);
        if inexact {
            lemma_wide(a as nat, b as nat, length as nat, shift as nat, top as nat, f as nat);
        }
        assert(f <= top) by (nonlinear_arith)
            requires
                f == top / (b as u128),
                b > 0,
        ;
        lemma_divided(a as nat, b as nat, x as int, shift as nat, p@, q@, f as nat, rest as nat);
    }
    round(negative, f, inexact, y, p, q)
}

/// The quotient of a shifted mantissa has more than 54 binary digits.
proof fn lemma_wide(a: nat, b: nat, length: nat, shift: nat, top: nat, f: nat)
    requires
        0 < b < MANTISSA_LIMIT,
        top == a * pow2(shift),
        top % b != 0,
        f == top / b,
        length + shift == 127,
        length > 0 ==> a >= pow2((length - 1) as nat),
        length == 0 ==> a == 0,
    ensures
        f >= 0x40_0000_0000_0000,
{
    lemma_powers();
    if length == 0 {
        assert(top == 0) by (nonlinear_arith)
            requires
                top == a * pow2(shift),
                a == 0,
        ;
        lemma_fundamental_div_mod_converse(0, b as int, 0, 0);
    } else {
        lemma_pow2_adds((length - 1) as nat, shift);
        lemma_pow2_adds(64, 62);
        lemma2_to64_rest();
        assert(top >= pow2(126)) by (nonlinear_arith)
            requires
                top == a * pow2(shift),
                a >= pow2((length - 1) as nat),
                pow2(126) == pow2((length - 1) as nat) * pow2(shift),
        ;
        lemma_fundamental_div_mod(top as int, b as int);
        if f < 0x40_0000_0000_0000 {
            assert(b * f + b <= 0x20_0000_0000_0000 * 0x40_0000_0000_0000) by (nonlinear_arith)
                requires
                    b < 0x20_0000_0000_0000,
                    f + 1 <= 0x40_0000_0000_0000,
            ;
        }
    }
}

proof fn lemma_divided(a: nat, b: nat, x: int, shift: nat, p: nat, q: nat, f: nat, rest: nat)
    requires
        b > 0,
        q > 0,
        a * pow2(shift) == b * f + rest,
        rest < b,
        x >= 0 ==> p * b == a * (q * pow2(x as nat)),
        x < 0 ==> (p * pow2((-x) as nat)) * b == a * q,
    ensures
        describes(p, q, f, rest != 0, x - shift),
{
    let y = x - shift;
    lemma_pow2_pos(shift);
    // In the common scale the dividend times `b` is `(b * f + rest) * u`.
    let (v, u): (nat, nat) = if y >= 0 {
        (p, q * pow2(y as nat))
    } else {
        (p * pow2((-y) as nat), q)
    };
    if y >= 0 {
        lemma_pow2_adds(y as nat, shift);
        lemma_pow2_pos(y as nat);
        assert(u > 0) by (nonlinear_arith)
            requires
                u == q * pow2(y as nat),
                q > 0,
                pow2(y as nat) > 0,
        ;
        assert(v * b == (a * pow2(shift)) * u) by (nonlinear_arith)
            requires
                v * b == a * (q * pow2(x as nat)),
                pow2(x as nat) == pow2(y as nat) * pow2(shift),
                u == q * pow2(y as nat),
        ;
    } else if x >= 0 {
        lemma_pow2_adds(x as nat, (-y) as nat);
        assert(v * b == (a * pow2(shift)) * u) by (nonlinear_arith)
            requires
                p * b == a * (q * pow2(x as nat)),
                v == p * pow2((-y) as nat),
                pow2(shift) == pow2(x as nat) * pow2((-y) as nat),
                u == q,
        ;
    } else {
        lemma_pow2_adds((-x) as nat, shift);
        assert(v * b == (a * pow2(shift)) * u) by (nonlinear_arith)
            requires
                (p * pow2((-x) as nat)) * b == a * q,
                v == p * pow2((-y) as nat),
                pow2((-y) as nat) == pow2((-x) as nat) * pow2(shift),
                u == q,
        ;
    }
    assert(v * b == (b * f + rest) * u);
    assert((v - f * u) * b == rest * u) by (nonlinear_arith)
        requires
            v * b == (b * f + rest) * u,
    ;
    assert(0 <= v - f * u < u && (v == f * u <==> rest == 0)) by (nonlinear_arith)
        requires
            (v - f * u) * b == rest * u,
            0 <= rest < b,
            u > 0,
            b > 0,
    ;
    assert((f + 1) * u == f * u + u) by (nonlinear_arith);
}

impl Real {
    /// How the number is made up.
    pub fn parts(&self) -> (r: Parts)
        ensures
            r@ == self@,
            r@.valid(),
    {
        proof {
            use_type_invariant(self);
        }
        self.parts
    }

    /// The number that a bit pattern of the format stands for.
    pub fn from_bits(bits: u64) -> (r: Real)
        ensures
            r@ == decoded(bits),
    {
        let negative: bool = bits / 0x8000_0000_0000_0000 == 1;
        let exponent: u64 = (bits / HIDDEN_BIT) % 2048;
        let low: u64 = bits % HIDDEN_BIT;
        if exponent == 2047 {
            if low == 0 {
                Real { parts: Parts::Infinite { negative } }
            } else {
                Real { parts: Parts::Nan }
            }
        } else if exponent == 0 {
            Real { parts: Parts::Finite { negative, mantissa: low, scale: 0 } }
        } else {
            Real {
                parts: Parts::Finite {
                    negative,
                    mantissa: low + HIDDEN_BIT,
                    scale: (exponent - 1) as u32,
                },
            }
        }
    }

    /// The bit pattern of the number.
    pub fn to_bits(&self) -> (bits: u64)
        ensures
            bits == encoded(self@),
    {
        proof {
            use_type_invariant(self);
        }
        match self.parts {
            Parts::Nan => 0x7ff8_0000_0000_0000,
            Parts::Infinite { negative } => if negative {
                0xfff0_0000_0000_0000
            } else {
                0x7ff0_0000_0000_0000
            },
            Parts::Finite { negative, mantissa, scale } => {
                let magnitude: u64 = if mantissa >= HIDDEN_BIT {
                    (scale as u64 + 1) * HIDDEN_BIT + (mantissa - HIDDEN_BIT)
                } else {
                    mantissa
                };
                if negative {
                    0x8000_0000_0000_0000 + magnitude
                } else {
                    magnitude
                }
            },
        }
    }

    /// The lowest finite number.
    pub fn lowest() -> (r: Real)
        ensures
            r@ == lowest(),
    {
        Real { parts: Parts::Finite { negative: true, mantissa: MANTISSA_LIMIT - 1, scale: MAX_SCALE } }
    }

    /// The highest finite number.
    pub fn highest() -> (r: Real)
        ensures
            r@ == highest(),
    {
        Real { parts: Parts::Finite { negative: false, mantissa: MANTISSA_LIMIT - 1, scale: MAX_SCALE } }
    }

    /// The number nearest to an integer.
    pub fn from_u64(n: u64) -> (r: Real)
        ensures
            r@ == integer(n as nat),
    {
        proof {
            assert(1 * pow2(1074) == pow2(1074)) by (nonlinear_arith);
        }
        round(false, n as u128, false, 1074, Ghost((n * pow2(1074)) as nat), Ghost(1))
    }

    /// The number nearest to the fraction `n / d`.
    pub fn ratio(n: u64, d: u64) -> (r: Real)
        requires
            n < MANTISSA_LIMIT,
            0 < d < MANTISSA_LIMIT,
        ensures
            r@ == fraction(n as nat, d as nat),
    {
        proof {
            assert((n * pow2(1074)) * d == n * (d * pow2(1074))) by (nonlinear_arith);
        }
        divide(false, n, d, 1074, Ghost((n * pow2(1074)) as nat), Ghost(d as nat))
    }
    /// The product of two numbers.
    pub fn times(self, other: Real) -> (r: Real)
        ensures
            r@ == product(self@, other@),
    {
        proof {
            use_type_invariant(&self);
            use_type_invariant(&other);
        }
        match (self.parts, other.parts) {
            (Parts::Nan, _) | (_, Parts::Nan) => Real { parts: Parts::Nan },
            (Parts::Infinite { negative: x }, Parts::Infinite { negative: y }) => Real {
                parts: Parts::Infinite { negative: x != y },
            },
            (Parts::Infinite { negative: x }, Parts::Finite { negative: y, mantissa, .. })
            | (Parts::Finite { negative: x, mantissa, .. }, Parts::Infinite { negative: y }) => {
                if mantissa == 0 {
                    Real { parts: Parts::Nan }
                } else {
                    Real { parts: Parts::Infinite { negative: x != y } }
                }
            },
            (Parts::Finite { negative: x, mantissa: m, scale: i }, Parts::Finite {
                negative: y,
                mantissa: n,
                scale: j,
            }) => {
                let f: u128 = product_of(m, n);
                let at: i32 = i as i32 + j as i32 - 1074;
                let ghost p: nat = self@.units() * other@.units();
                proof {
                    lemma_multiplied(m as nat, n as nat, i as nat, j as nat, p, f as nat);
                    lemma_pow2_pos(1074);
                }
                round(x != y, f, false, at, Ghost(p), Ghost(pow2(1074)))
            },
        }
    }

    /// The quotient of two numbers.
    pub fn over(self, other: Real) -> (r: Real)
        ensures
            r@ == quotient(self@, other@),
    {
        proof {
            use_type_invariant(&self);
            use_type_invariant(&other);
        }
        match (self.parts, other.parts) {
            (Parts::Nan, _) | (_, Parts::Nan) => Real { parts: Parts::Nan },
            (Parts::Infinite { .. }, Parts::Infinite { .. }) => Real { parts: Parts::Nan },
            (Parts::Infinite { negative: x }, Parts::Finite { negative: y, .. }) => Real {
                parts: Parts::Infinite { negative: x != y },
            },
            (Parts::Finite { negative: x, .. }, Parts::Infinite { negative: y }) => Real {
                parts: Parts::Finite { negative: x != y, mantissa: 0, scale: 0 },
            },
            (Parts::Finite { negative: x, mantissa: m, scale: i }, Parts::Finite {
                negative: y,
                mantissa: n,
                scale: j,
            }) => if n == 0 {
                if m == 0 {
                    Real { parts: Parts::Nan }
                } else {
                    Real { parts: Parts::Infinite { negative: x != y } }
                }
            } else {
                let at: i32 = i as i32 - j as i32 + 1074;
                let ghost p: nat = self@.units() * one_units();
                let ghost q: nat = other@.units();
                proof {
                    lemma_divisor(m as nat, n as nat, i as nat, j as nat, p, q);
                }
                divide(x != y, m, n, at, Ghost(p), Ghost(q))
            },
        }
    }

    /// The number with the other sign.
    pub fn negate(self) -> (r: Real)
        ensures
            r@ == self@.negated(),
    {
        proof {
            use_type_invariant(&self);
        }
        match self.parts {
            Parts::Nan => Real { parts: Parts::Nan },
            Parts::Infinite { negative } => Real { parts: Parts::Infinite { negative: !negative } },
            Parts::Finite { negative, mantissa, scale } => Real {
                parts: Parts::Finite { negative: !negative, mantissa, scale },
            },
        }
    }

    /// The sum of two numbers.
    pub fn plus(self, other: Real) -> (r: Real)
        ensures
            r@ == sum(self@, other@),
    {
        proof {
            use_type_invariant(&self);
            use_type_invariant(&other);
        }
        match (self.parts, other.parts) {
            (Parts::Nan, _) | (_, Parts::Nan) => Real { parts: Parts::Nan },
            (Parts::Infinite { negative: x }, Parts::Infinite { negative: y }) => if x == y {
                self
            } else {
                Real { parts: Parts::Nan }
            },
            (Parts::Infinite { .. }, _) => self,
            (_, Parts::Infinite { .. }) => other,
            (Parts::Finite { negative: x, mantissa: m, scale: i }, Parts::Finite {
                negative: y,
                mantissa: n,
                scale: j,
            }) => {
                if i >= j {
                    add_aligned(x, m, i, y, n, j)
                } else {
                    add_aligned(y, n, j, x, m, i)
                }
            },
        }
    }

    /// The difference of two numbers.
    pub fn minus(self, other: Real) -> (r: Real)
        ensures
            r@ == difference(self@, other@),
    {
        self.plus(other.negate())
    }
}

fn product_of(m: u64, n: u64) -> (f: u128)
    requires
        m < MANTISSA_LIMIT,
        n < MANTISSA_LIMIT,
    ensures
        f == m * n,
        f < 0x8000_0000_0000_0000_0000_0000_0000_0000,
{
    proof {
        assert(m * n <= 0x20_0000_0000_0000 * 0x20_0000_0000_0000) by (nonlinear_arith)
            requires
                m < 0x20_0000_0000_0000,
                n < 0x20_0000_0000_0000,
        ;
    }
    m as u128 * n as u128
}

proof fn lemma_multiplied(m: nat, n: nat, i: nat, j: nat, p: nat, f: nat)
    requires
        p == (m * pow2(i)) * (n * pow2(j)),
        f == m * n,
    ensures
        describes(p, pow2(1074), f, false, i + j - 1074),
{
    let at = i + j - 1074;
    lemma_pow2_adds(i, j);
    assert(p == f * pow2(i + j)) by (nonlinear_arith)
        requires
            p == (m * pow2(i)) * (n * pow2(j)),
            f == m * n,
            pow2(i + j) == pow2(i) * pow2(j),
    ;
    if at >= 0 {
        lemma_pow2_adds(1074, at as nat);
    } else {
        lemma_pow2_adds(i + j, (-at) as nat);
        assert(p * pow2((-at) as nat) == f * pow2(1074)) by (nonlinear_arith)
            requires
                p == f * pow2(i + j),
                pow2(1074) == pow2(i + j) * pow2((-at) as nat),
        ;
    }
}

proof fn lemma_divisor(m: nat, n: nat, i: nat, j: nat, p: nat, q: nat)
    requires
        p == (m * pow2(i)) * pow2(1074),
        q == n * pow2(j),
        n > 0,
    ensures
        q > 0,
        i - j + 1074 >= 0 ==> p * n == m * (q * pow2((i - j + 1074) as nat)),
        i - j + 1074 < 0 ==> (p * pow2((-(i - j + 1074)) as nat)) * n == m * q,
{
    let at = i - j + 1074;
    lemma_pow2_pos(j);
    assert(q > 0) by (nonlinear_arith)
        requires
            q == n * pow2(j),
            n > 0,
            pow2(j) > 0,
    ;
    lemma_pow2_adds(i, 1074);
    if at >= 0 {
        lemma_pow2_adds(j, at as nat);
        assert(p * n == m * (q * pow2(at as nat))) by (nonlinear_arith)
            requires
                p == (m * pow2(i)) * pow2(1074),
                q == n * pow2(j),
                pow2(i) * pow2(1074) == pow2(j) * pow2(at as nat),
        ;
    } else {
        lemma_pow2_adds(i + 1074, (-at) as nat);
        assert((p * pow2((-at) as nat)) * n == m * q) by (nonlinear_arith)
            requires
                p == (m * pow2(i)) * pow2(1074),
                q == n * pow2(j),
                pow2(j) == (pow2(i) * pow2(1074)) * pow2((-at) as nat),
        ;
    }
}

/// Two mantissas at a common scale: the first moves up by at most 70 binary
/// digits, the second down by what is left, and `lost` says that digits fell off.
fn align(m: u64, i: u32, n: u64, j: u32) -> (r: (u128, u128, bool, u32))
    requires
        j <= i <= MAX_SCALE,
        m < MANTISSA_LIMIT,
        n < MANTISSA_LIMIT,
        i > 0 ==> m >= HIDDEN_BIT,
    ensures
        ({
            let (large, small, lost, at) = r;
            &&& at <= MAX_SCALE
            &&& m * pow2(i as nat) == large * pow2(at as nat)
            &&& within((n * pow2(j as nat)) as nat, pow2(at as nat), small as nat, lost)
            &&& large <= 0x20_0000_0000_0000 * 0x40_0000_0000_0000_0000
            &&& small < MANTISSA_LIMIT
            &&& lost ==> large >= 0x10_0000_0000_0000 * 0x40_0000_0000_0000_0000
        }),
{
    let apart: u32 = i - j;
    let shift: u32 = if apart <= 70 {
        apart
    } else {
        70
    };
    let down: u32 = apart - shift;
    let at: u32 = j + down;
    let factor: u128 = power_of_two(shift);
    proof {
        lemma_shifted(m as nat, shift as nat);
    }
    let large: u128 = m as u128 * factor;
    let (small, lost): (u128, bool) = if down >= 64 {
        (0, n != 0)
    } else {
        let step: u128 = power_of_two(down);
        proof {
            lemma_pow2_pos(down as nat);
            assert(n as int / pow2(down as nat) as int <= n) by (nonlinear_arith)
                requires
                    pow2(down as nat) >= 1,
            ;
        }
        (n as u128 / step, n as u128 % step != 0)
    };
    proof {
        lemma_aligned(m as nat, n as nat, i as nat, j as nat, shift as nat, small as nat, lost);
        if lost {
            lemma_powers();
            lemma2_to64();
            lemma_pow2_adds(64, 6);
            assert(down > 0);
            assert(large >= 0x10_0000_0000_0000 * 0x40_0000_0000_0000_0000) by (nonlinear_arith)
                requires
                    large == m * factor,
                    m >= 0x10_0000_0000_0000,
                    factor == 0x40_0000_0000_0000_0000,
            ;
        }
    }
    (large, small, lost, at)
}

/// The sum of two finite numbers, the first of which has the larger scale.
fn add_aligned(x: bool, m: u64, i: u32, y: bool, n: u64, j: u32) -> (r: Real)
    requires
        j <= i <= MAX_SCALE,
        m < MANTISSA_LIMIT,
        n < MANTISSA_LIMIT,
        i > 0 ==> m >= HIDDEN_BIT,
    ensures
        r@ == sum(
            Number::Finite { negative: x, mantissa: m as nat, scale: i as nat },
            Number::Finite { negative: y, mantissa: n as nat, scale: j as nat },
        ),
        r@ == sum(
            Number::Finite { negative: y, mantissa: n as nat, scale: j as nat },
            Number::Finite { negative: x, mantissa: m as nat, scale: i as nat },
        ),
{
    let (large, small, lost, at): (u128, u128, bool, u32) = align(m, i, n, j);
    let ghost a: nat = m as nat * pow2(i as nat);
    let ghost b: nat = n as nat * pow2(j as nat);
    let ghost u: nat = pow2(at as nat);
    proof {
        lemma_pow2_pos(at as nat);
        assert(1 * u == u);
        lemma_within_order(a, b, u, large as nat, small as nat, lost);
    }
    if x == y {
        let f: u128 = large + small;
        proof {
            assert(f * u == large * u + small * u) by (nonlinear_arith)
                requires
                    f == large + small,
            ;
            assert((f + 1) * u == f * u + u && (small + 1) * u == small * u + u) by (nonlinear_arith);
            assert(describes(a + b, 1, f as nat, lost, at as int));
            if a + b == 0 {
                lemma_nearest_zero_of(x);
            }
        }
        round(x, f, lost, at as i32, Ghost(a + b), Ghost(1))
    } else if large > small || (large == small && !lost) {
        if large == small {
            return Real { parts: Parts::Finite { negative: false, mantissa: 0, scale: 0 } };
        }
        let f: u128 = if lost {
            large - small - 1
        } else {
            large - small
        };
        proof {
            assert(f * u == large * u - small * u - (if lost { u as int } else { 0 })) by (nonlinear_arith)
                requires
                    f == large - small - (if lost { 1int } else { 0 }),
            ;
            assert((f + 1) * u == f * u + u && (small + 1) * u == small * u + u) by (nonlinear_arith);
            assert(describes((a - b) as nat, 1, f as nat, lost, at as int));
        }
        round(x, f, lost, at as i32, Ghost((a - b) as nat), Ghost(1))
    } else {
        let f: u128 = small - large;
        proof {
            assert(f * u == small * u - large * u) by (nonlinear_arith)
                requires
                    f == small - large,
            ;
            assert(describes((b - a) as nat, 1, f as nat, false, at as int));
        }
        round(y, f, false, at as i32, Ghost((b - a) as nat), Ghost(1))
    }
}

proof fn lemma_nearest_zero_of(negative: bool)
    ensures
        nearest(negative, 0, 1) == zero(negative),
{
    lemma_powers();
    lemma_nearest_zero(negative, 0, 1, 0);
}

/// A mantissa shifted up by at most 70 binary digits.
proof fn lemma_shifted(m: nat, shift: nat)
    requires
        m < MANTISSA_LIMIT,
        shift <= 70,
    ensures
        m * pow2(shift) <= 0x20_0000_0000_0000 * 0x40_0000_0000_0000_0000,
{
    lemma2_to64();
    lemma_pow2_adds(64, 6);
    lemma_pow2_monotonic(shift, 70);
    assert(m * pow2(shift) <= 0x20_0000_0000_0000 * 0x40_0000_0000_0000_0000) by (nonlinear_arith)
        requires
            m < 0x20_0000_0000_0000,
            pow2(shift) <= 0x40_0000_0000_0000_0000,
    ;
}

/// Both numbers at the common scale.
proof fn lemma_aligned(m: nat, n: nat, i: nat, j: nat, shift: nat, small: nat, lost: bool)
    requires
        j + shift <= i,
        n < MANTISSA_LIMIT,
        ({
            let down = (i - j - shift) as nat;
            if down >= 64 {
                small == 0 && lost == (n != 0)
            } else {
                small == n / pow2(down) && lost == (n % pow2(down) != 0)
            }
        }),
    ensures
        m * pow2(i) == (m * pow2(shift)) * pow2((i - shift) as nat),
        within(n * pow2(j), pow2((i - shift) as nat), small, lost),
{
    let down = (i - j - shift) as nat;
    let u = pow2((i - shift) as nat);
    lemma_pow2_adds(shift, (i - shift) as nat);
    assert(m * pow2(i) == (m * pow2(shift)) * u) by (nonlinear_arith)
        requires
            pow2(i) == pow2(shift) * u,
    ;
    lemma_pow2_adds(j, down);
    lemma_pow2_pos(j);
    lemma_pow2_pos(down);
    let step = pow2(down);
    let rest: nat = if down >= 64 {
        n
    } else {
        n % step
    };
    if down >= 64 {
        lemma_powers();
        lemma_pow2_monotonic(64, down);
        assert(n == small * step + rest) by (nonlinear_arith)
            requires
                small == 0,
                n == rest,
        ;
    } else {
        lemma_fundamental_div_mod(n as int, step as int);
        assert(n == small * step + rest) by (nonlinear_arith)
            requires
                n == step * small + rest,
        ;
    }
    assert(n * pow2(j) == small * u + rest * pow2(j)) by (nonlinear_arith)
        requires
            n == small * step + rest,
            u == pow2(j) * step,
    ;
    assert(rest * pow2(j) < u) by (nonlinear_arith)
        requires
            rest < step,
            u == pow2(j) * step,
            pow2(j) > 0,
    ;
    assert(rest * pow2(j) == 0 <==> rest == 0) by (nonlinear_arith)
        requires
            pow2(j) > 0,
    ;
    assert((small + 1) * u == small * u + u) by (nonlinear_arith);
}

/// The order of two numbers at a common scale.
proof fn lemma_within_order(a: nat, b: nat, u: nat, large: nat, small: nat, lost: bool)
    requires
        u > 0,
        a == large * u,
        within(b, u, small, lost),
    ensures
        large > small ==> a > b,
        large == small && !lost ==> a == b,
        large < small ==> a < b,
{
    if large > small {
        assert(large * u >= (small + 1) * u) by (nonlinear_arith)
            requires
                large >= small + 1,
        ;
        assert((small + 1) * u == small * u + u) by (nonlinear_arith);
    } else if large < small {
        assert(large * u < small * u) by (nonlinear_arith)
            requires
                large < small,
                u > 0,
        ;
    }
}

/// The order of two magnitudes is that of their scales, then of their mantissas.
proof fn lemma_magnitude_order(m: nat, i: nat, n: nat, j: nat)
    requires
        m < MANTISSA_LIMIT,
        n < MANTISSA_LIMIT,
        i > 0 ==> m >= HIDDEN_BIT,
        j > 0 ==> n >= HIDDEN_BIT,
    ensures
        m * pow2(i) < n * pow2(j) <==> i < j || (i == j && m < n),
        m * pow2(i) == n * pow2(j) <==> i == j && m == n,
        m * pow2(i) == 0 <==> m == 0,
        n * pow2(j) == 0 <==> n == 0,
{
    lemma_pow2_pos(i);
    lemma_pow2_pos(j);
    assert(m * pow2(i) == 0 <==> m == 0) by (nonlinear_arith)
        requires
            pow2(i) > 0,
    ;
    assert(n * pow2(j) == 0 <==> n == 0) by (nonlinear_arith)
        requires
            pow2(j) > 0,
    ;
    if i < j {
        lemma_scale_dominates(m, i, n, j);
    } else if j < i {
        lemma_scale_dominates(n, j, m, i);
    } else {
        assert(m * pow2(i) < n * pow2(i) <==> m < n) by (nonlinear_arith)
            requires
                pow2(i) > 0,
        ;
        assert(m * pow2(i) == n * pow2(i) <==> m == n) by (nonlinear_arith)
            requires
                pow2(i) > 0,
        ;
    }
}

proof fn lemma_scale_dominates(m: nat, i: nat, n: nat, j: nat)
    requires
        i < j,
        m < MANTISSA_LIMIT,
        n >= HIDDEN_BIT,
    ensures
        m * pow2(i) < n * pow2(j),
{
    lemma_pow2_pos(i);
    lemma_pow2_unfold(i + 1);
    lemma_pow2_monotonic(i + 1, j);
    assert(m * pow2(i) < n * pow2(j)) by (nonlinear_arith)
        requires
            m < 2 * 0x10_0000_0000_0000,
            n >= 0x10_0000_0000_0000,
            pow2(j) >= 2 * pow2(i),
            pow2(i) > 0,
    ;
}

impl Real {
    /// `self < other`.
    pub fn less_than(&self, other: &Real) -> (r: bool)
        ensures
            r == below(self@, other@),
    {
        proof {
            use_type_invariant(self);
            use_type_invariant(other);
        }
        match (self.parts, other.parts) {
            (Parts::Nan, _) | (_, Parts::Nan) => false,
            (Parts::Infinite { negative: x }, Parts::Infinite { negative: y }) => x && !y,
            (Parts::Infinite { negative }, _) => negative,
            (_, Parts::Infinite { negative }) => !negative,
            (Parts::Finite { negative: x, mantissa: m, scale: i }, Parts::Finite {
                negative: y,
                mantissa: n,
                scale: j,
            }) => {
                proof {
                    lemma_magnitude_order(m as nat, i as nat, n as nat, j as nat);
                    lemma_magnitude_order(n as nat, j as nat, m as nat, i as nat);
                }
                if x {
                    if y {
                        j < i || (i == j && n < m)
                    } else {
                        m != 0 || n != 0
                    }
                } else {
                    !y && (i < j || (i == j && m < n))
                }
            },
        }
    }

    /// `self == other`.
    pub fn equals(&self, other: &Real) -> (r: bool)
        ensures
            r == same(self@, other@),
    {
        proof {
            use_type_invariant(self);
            use_type_invariant(other);
        }
        match (self.parts, other.parts) {
            (Parts::Nan, _) | (_, Parts::Nan) => false,
            (Parts::Infinite { negative: x }, Parts::Infinite { negative: y }) => x == y,
            (Parts::Infinite { .. }, _) | (_, Parts::Infinite { .. }) => false,
            (Parts::Finite { negative: x, mantissa: m, scale: i }, Parts::Finite {
                negative: y,
                mantissa: n,
                scale: j,
            }) => {
                proof {
                    lemma_magnitude_order(m as nat, i as nat, n as nat, j as nat);
                }
                (m == n && i == j && x == y) || (m == 0 && n == 0)
            },
        }
    }

    /// `self <= other`.
    pub fn is_at_most(&self, other: &Real) -> (r: bool)
        ensures
            r == at_most(self@, other@),
    {
        self.less_than(other) || self.equals(other)
    }

    /// The number, held between the bounds.
    pub fn clamp(self, low: Real, high: Real) -> (r: Real)
        ensures
            r@ == clamped(self@, low@, high@),
    {
        if self.less_than(&low) {
            low
        } else if high.less_than(&self) {
            high
        } else {
            self
        }
    }

    /// The larger of two numbers.
    pub fn max(self, other: Real) -> (r: Real)
        ensures
            r@ == larger(self@, other@),
    {
        let nan: bool = match self.parts {
            Parts::Nan => true,
            _ => false,
        };
        if nan || self.less_than(&other) {
            other
        } else {
            self
        }
    }

    /// The number rounded to an integer, halves away from zero, as a byte.
    pub fn round_to_byte(&self) -> (r: u8)
        ensures
            r == rounded_byte(self@),
    {
        proof {
            use_type_invariant(self);
        }
        match self.parts {
            Parts::Nan => 0,
            Parts::Infinite { negative } => if negative {
                0
            } else {
                255
            },
            Parts::Finite { negative, mantissa, scale } => {
                if negative {
                    return 0;
                }
                if scale >= 1074 {
                    proof {
                        lemma_large_byte(mantissa as nat, scale as nat);
                    }
                    return 255;
                }
                let below_one: u32 = 1074 - scale;
                if below_one > 64 {
                    proof {
                        lemma_small_byte(mantissa as nat, scale as nat);
                    }
                    return 0;
                }
                let one: u128 = power_of_two(below_one);
                proof {
                    lemma_powers();
                    lemma_pow2_pos(below_one as nat);
                    lemma_pow2_monotonic(below_one as nat, 64);
                    lemma_byte_at_scale(mantissa as nat, scale as nat, below_one as nat);
                }
                let whole: u128 = (2 * mantissa as u128 + one) / (2 * one);
                if whole > 255 {
                    255
                } else {
                    whole as u8
                }
            },
        }
    }

    /// The least integer that is not below the number.
    pub fn ceil(self) -> (r: Real)
        ensures
            r@ == ceiling(self@),
    {
        proof {
            use_type_invariant(&self);
        }
        match self.parts {
            Parts::Finite { negative, mantissa, scale } => {
                if scale >= 1074 {
                    proof {
                        lemma_whole(mantissa as nat, scale as nat);
                        lemma_exact(self@);
                    }
                    return self;
                }
                let below_one: u32 = 1074 - scale;
                let whole: u128 = if below_one > 64 {
                    proof {
                        lemma_under_one(mantissa as nat, scale as nat);
                    }
                    if negative || mantissa == 0 {
                        0
                    } else {
                        1
                    }
                } else {
                    let one: u128 = power_of_two(below_one);
                    proof {
                        lemma_powers();
                        lemma_pow2_pos(below_one as nat);
                        lemma_pow2_monotonic(below_one as nat, 64);
                        lemma_whole_at_scale(mantissa as nat, scale as nat, below_one as nat);
                    }
                    if negative {
                        mantissa as u128 / one
                    } else {
                        (mantissa as u128 + (one - 1)) / one
                    }
                };
                proof {
                    assert(1 * pow2(1074) == pow2(1074)) by (nonlinear_arith);
                    assert(whole <= 0x20_0000_0000_0000) by {
                        if below_one <= 64 {
                            let one = pow2(below_one as nat) as int;
                            assert(mantissa as int / one <= mantissa && (mantissa as int + (one - 1)) / one
                                <= mantissa) by (nonlinear_arith)
                                requires
                                    one >= 1,
                                    mantissa >= 0,
                            ;
                        }
                    }
                }
                round(negative, whole, false, 1074, Ghost((whole * pow2(1074)) as nat), Ghost(1))
            },
            _ => self,
        }
    }
}

/// A number of the format rounds to itself.
pub proof fn lemma_exact(x: Number)
    requires
        x.valid(),
        x is Finite,
    ensures
        nearest(x->Finite_negative, x.units(), 1) == x,
{
    let m = x->mantissa;
    let k = x->scale;
    lemma_powers();
    lemma_pow2_pos(k);
    lemma_pow2_adds(53, k);
    assert(1 * pow2(53 + k) == pow2(53 + k) && 1 * pow2(k) == pow2(k));
    assert(m * pow2(k) < pow2(53 + k)) by (nonlinear_arith)
        requires
            m < pow2(53),
            pow2(53 + k) == pow2(53) * pow2(k),
            pow2(k) > 0,
    ;
    if k > 0 {
        lemma_pow2_adds(52, k);
        assert(m * pow2(k) >= 1 * pow2((52 + k) as nat)) by (nonlinear_arith)
            requires
                m >= pow2(52),
                pow2((52 + k) as nat) == pow2(52) * pow2(k),
        ;
    }
    lemma_scale_of(m * pow2(k), 1, k);
    lemma_round_half_even_by(m * pow2(k), pow2(k), m, 0);
}

proof fn lemma_large_byte(m: nat, scale: nat)
    requires
        scale >= 1074,
        m >= HIDDEN_BIT,
    ensures
        (2 * (m * pow2(scale)) + pow2(1074)) as int / (2 * pow2(1074)) as int > 255,
{
    let one = pow2(1074);
    lemma_pow2_pos(1074);
    lemma_pow2_monotonic(1074, scale);
    let top = 2 * (m * pow2(scale)) + one;
    assert(top >= 256 * (2 * one)) by (nonlinear_arith)
        requires
            top == 2 * (m * pow2(scale)) + one,
            m >= 256,
            pow2(scale) >= one,
            one > 0,
    ;
    assert(top as int / (2 * one) as int >= 256) by (nonlinear_arith)
        requires
            top >= 256 * (2 * one),
            one > 0,
    ;
}

proof fn lemma_small_byte(m: nat, scale: nat)
    requires
        scale < 1010,
        m < MANTISSA_LIMIT,
    ensures
        (2 * (m * pow2(scale)) + pow2(1074)) as int / (2 * pow2(1074)) as int == 0,
{
    let one = pow2(1074);
    lemma_powers();
    lemma_pow2_pos(scale);
    lemma_pow2_adds(scale, 64);
    lemma_pow2_monotonic(scale + 64, 1074);
    let top = 2 * (m * pow2(scale)) + one;
    assert(2 * (m * pow2(scale)) < one) by (nonlinear_arith)
        requires
            m < 0x20_0000_0000_0000,
            one >= pow2(scale) * 0x1_0000_0000_0000_0000,
            pow2(scale) > 0,
    ;
    lemma_fundamental_div_mod_converse(top as int, 2 * one as int, 0, top as int);
}

proof fn lemma_byte_at_scale(m: nat, scale: nat, below_one: nat)
    requires
        scale + below_one == 1074,
    ensures
        (2 * (m * pow2(scale)) + pow2(1074)) as int / (2 * pow2(1074)) as int == (2 * m + pow2(below_one)) as int / (2
            * pow2(below_one)) as int,
{
    let one = pow2(below_one);
    let u = pow2(scale);
    lemma_pow2_adds(scale, below_one);
    lemma_pow2_pos(scale);
    lemma_pow2_pos(below_one);
    let a = (2 * m + one) as int;
    let b = (2 * one) as int;
    assert(2 * (m * u) + u * one == u * a && 2 * (u * one) == u * b) by (nonlinear_arith)
        requires
            a == 2 * m + one,
            b == 2 * one,
    ;
    lemma_common_factor(a, b, u as int);
}

/// A common factor drops out of a quotient.
proof fn lemma_common_factor(a: int, b: int, u: int)
    requires
        a >= 0,
        b > 0,
        u > 0,
    ensures
        (u * a) / (u * b) == a / b,
{
    lemma_fundamental_div_mod(a, b);
    let q = a / b;
    let r = a % b;
    assert(u * a == q * (u * b) + u * r && 0 <= u * r < u * b) by (nonlinear_arith)
        requires
            a == b * q + r,
            0 <= r < b,
            u > 0,
    ;
    lemma_fundamental_div_mod_converse(u * a, u * b, q, u * r);
}

/// A number whose scale is at least that of one is an integer.
proof fn lemma_whole(m: nat, scale: nat)
    requires
        scale >= 1074,
    ensures
        ({
            let one = pow2(1074) as int;
            let units = (m * pow2(scale)) as int;
            (units / one) * one == units && ((units + one - 1) / one) * one == units
        }),
{
    let one = pow2(1074) as int;
    let c = pow2((scale - 1074) as nat) as int;
    lemma_pow2_adds(1074, (scale - 1074) as nat);
    lemma_pow2_pos(1074);
    let units = (m * pow2(scale)) as int;
    assert(units == (m * c) * one) by (nonlinear_arith)
        requires
            units == m * pow2(scale),
            pow2(scale) == one * c,
    ;
    lemma_fundamental_div_mod_converse(units, one, m * c, 0);
    lemma_fundamental_div_mod_converse(units + one - 1, one, m * c, one - 1);
}

proof fn lemma_under_one(m: nat, scale: nat)
    requires
        scale < 1010,
        m < MANTISSA_LIMIT,
    ensures
        ({
            let one = pow2(1074) as int;
            let units = (m * pow2(scale)) as int;
            units / one == 0 && (units + one - 1) / one == (if m == 0 {
                0int
            } else {
                1int
            })
        }),
{
    let one = pow2(1074) as int;
    let units = (m * pow2(scale)) as int;
    lemma_powers();
    lemma_pow2_pos(scale);
    lemma_pow2_adds(scale, 64);
    lemma_pow2_monotonic(scale + 64, 1074);
    assert(0 <= units < one && (units == 0 <==> m == 0)) by (nonlinear_arith)
        requires
            units == m * pow2(scale),
            m < 0x20_0000_0000_0000,
            one >= pow2(scale) * 0x1_0000_0000_0000_0000,
            pow2(scale) > 0,
    ;
    lemma_fundamental_div_mod_converse(units, one, 0, units);
    if m == 0 {
        lemma_fundamental_div_mod_converse(units + one - 1, one, 0, one - 1);
    } else {
        lemma_fundamental_div_mod_converse(units + one - 1, one, 1, units - 1);
    }
}

proof fn lemma_whole_at_scale(m: nat, scale: nat, below_one: nat)
    requires
        scale + below_one == 1074,
    ensures
        ({
            let one = pow2(1074) as int;
            let units = (m * pow2(scale)) as int;
            let small = pow2(below_one) as int;
            &&& units / one == m as int / small
            &&& (units + one - 1) / one == (m + (small - 1)) / small
        }),
{
    let one = pow2(1074) as int;
    let units = (m * pow2(scale)) as int;
    let small = pow2(below_one) as int;
    let u = pow2(scale) as int;
    lemma_pow2_adds(scale, below_one);
    lemma_pow2_pos(scale);
    lemma_pow2_pos(below_one);
    assert(units == u * m && one == u * small) by (nonlinear_arith)
        requires
            units == m * u,
            one == u * small,
    ;
    lemma_common_factor(m as int, small, u);
    let q = (m + (small - 1)) / small;
    let r = (m + (small - 1)) % small;
    lemma_fundamental_div_mod(m + (small - 1), small);
    assert(units + one - 1 == q * one + (u * r + u - 1)) by (nonlinear_arith)
        requires
            units == u * m,
            one == u * small,
            m + (small - 1) == small * q + r,
    ;
    assert(0 <= u * r + u - 1 < one) by (nonlinear_arith)
        requires
            0 <= r < small,
            one == u * small,
            u > 0,
    ;
    lemma_fundamental_div_mod_converse(units + one - 1, one, q, u * r + u - 1);
}

/// The integer zero is the zero without a sign.
pub proof fn lemma_integer_zero()
    ensures
        integer(0) == zero(false),
{
    assert(0 * one_units() == 0) by (nonlinear_arith);
    lemma_nearest_zero_of(false);
}

// ---------------------------------------------------------------------------
// Laws of rounding
// ---------------------------------------------------------------------------

/// Of two quotients the larger one has the nearest integer that is not smaller.
proof fn lemma_round_half_even_monotonic(p1: nat, d1: nat, p2: nat, d2: nat)
    requires
        d1 > 0,
        d2 > 0,
        p1 * d2 <= p2 * d1,
    ensures
        round_half_even(p1, d1) <= round_half_even(p2, d2),
{
    let a1 = p1 / d1;
    let r1 = p1 % d1;
    let a2 = p2 / d2;
    let r2 = p2 % d2;
    lemma_fundamental_div_mod(p1 as int, d1 as int);
    lemma_fundamental_div_mod(p2 as int, d2 as int);
    assert(a1 <= a2) by (nonlinear_arith)
        requires
            p1 == d1 * a1 + r1,
            p2 == d2 * a2 + r2,
            0 <= r1,
            r2 < d2,
            d1 > 0,
            d2 > 0,
            p1 * d2 <= p2 * d1,
    ;
    if a1 == a2 {
        assert(r1 * d2 <= r2 * d1) by (nonlinear_arith)
            requires
                p1 == d1 * a1 + r1,
                p2 == d2 * a2 + r2,
                a1 == a2,
                p1 * d2 <= p2 * d1,
        ;
        if 2 * r1 >= d1 {
            assert(2 * r2 >= d2) by (nonlinear_arith)
                requires
                    2 * r1 >= d1,
                    r1 * d2 <= r2 * d1,
                    d1 > 0,
            ;
            if 2 * r1 > d1 {
                assert(2 * r2 > d2) by (nonlinear_arith)
                    requires
                        2 * r1 > d1,
                        r1 * d2 <= r2 * d1,
                        d1 > 0,
                        d2 > 0,
                ;
            }
        }
    }
}

/// Rounding keeps the order: of two quotients the larger one has the nearest
/// number that is not below that of the other.
pub proof fn law_rounding_keeps_order(p1: nat, q1: nat, p2: nat, q2: nat)
    requires
        q1 > 0,
        q2 > 0,
        p1 * q2 <= p2 * q1,
    ensures
        at_most(nearest(false, p1, q1), nearest(false, p2, q2)),
{
    let k1 = scale_of(p1, q1);
    let k2 = scale_of(p2, q2);
    lemma_powers();
    lemma_scale_of_bounds(p1, q1);
    lemma_scale_of_bounds(p2, q2);
    lemma_mantissa_bound(p1, q1, k1);
    lemma_mantissa_bound(p2, q2, k2);
    let m1 = round_half_even(p1, q1 * pow2(k1));
    let m2 = round_half_even(p2, q2 * pow2(k2));
    assert(k1 <= k2) by {
        if k1 > k2 {
            lemma_pow2_monotonic(53 + k2, (52 + k1) as nat);
            let h = pow2((52 + k1) as nat);
            let l = pow2(53 + k2);
            assert(p1 * q2 >= q1 * h * q2) by (nonlinear_arith)
                requires
                    p1 >= q1 * h,
            ;
            assert(p2 * q1 < q2 * l * q1) by (nonlinear_arith)
                requires
                    p2 < q2 * l,
                    q1 > 0,
            ;
            assert(q2 * l * q1 <= q1 * h * q2) by (nonlinear_arith)
                requires
                    l <= h,
                    q1 > 0,
                    q2 > 0,
            ;
        }
    }
    // The rounded magnitudes, before the binade is settled.
    let v1 = m1 * pow2(k1);
    let v2 = m2 * pow2(k2);
    lemma_pow2_pos(k1);
    lemma_pow2_pos(k2);
    assert(v1 <= v2) by {
        if k1 == k2 {
            let c = pow2(k1);
            assert(q1 * c > 0 && q2 * c > 0) by (nonlinear_arith)
                requires
                    q1 > 0,
                    q2 > 0,
                    c > 0,
            ;
            assert(p1 * (q2 * c) <= p2 * (q1 * c)) by (nonlinear_arith)
                requires
                    p1 * q2 <= p2 * q1,
                    c > 0,
            ;
            lemma_round_half_even_monotonic(p1, q1 * c, p2, q2 * c);
            assert(m1 * c <= m2 * c) by (nonlinear_arith)
                requires
                    m1 <= m2,
            ;
        } else {
            lemma_pow2_unfold(k1 + 1);
            lemma_pow2_monotonic(k1 + 1, k2);
            assert(m1 * pow2(k1) <= m2 * pow2(k2)) by (nonlinear_arith)
                requires
                    m1 <= 2 * 0x10_0000_0000_0000,
                    m2 >= 0x10_0000_0000_0000,
                    pow2(k2) >= 2 * pow2(k1),
                    pow2(k1) > 0,
            ;
        }
    }
    let r1 = nearest(false, p1, q1);
    let r2 = nearest(false, p2, q2);
    lemma_carried(m1, k1);
    lemma_carried(m2, k2);
    if k1 < k2 && m1 == MANTISSA_LIMIT && k2 == k1 + 1 {
        assert(k1 + 1 <= k2);
    }
    if k1 == k2 && m1 == MANTISSA_LIMIT {
        assert(m2 >= m1) by (nonlinear_arith)
            requires
                m1 * pow2(k1) <= m2 * pow2(k1),
                pow2(k1) > 0,
        ;
    }
}

/// A mantissa of `2^53` is `2^52` at the next scale.
proof fn lemma_carried(m: nat, k: nat)
    ensures
        m == MANTISSA_LIMIT ==> HIDDEN_BIT * pow2(k + 1) == m * pow2(k),
{
    lemma_pow2_unfold(k + 1);
    assert(HIDDEN_BIT * (2 * pow2(k)) == (2 * HIDDEN_BIT) * pow2(k)) by (nonlinear_arith);
}

/// An integer of at most 53 binary digits is a number of the format.
pub proof fn law_integers_are_exact(n: nat)
    requires
        n <= MANTISSA_LIMIT,
    ensures
        integer(n) is Finite,
        integer(n) == nearest(false, n * one_units(), 1),
        integer(n).units() == n * one_units(),
        !integer(n)->Finite_negative,
        integer(n).valid(),
{
    let p = n * one_units();
    let k = scale_of(p, 1);
    lemma_powers();
    lemma_scale_of_bounds(p, 1);
    lemma_mantissa_bound(p, 1, k);
    lemma_pow2_pos(1074);
    assert(k <= 1075 && (k == 1075 ==> n == MANTISSA_LIMIT)) by {
        if k >= 1075 {
            lemma_pow2_monotonic(1127, (52 + k) as nat);
            lemma_pow2_adds(53, 1074);
            assert(n >= pow2(53)) by (nonlinear_arith)
                requires
                    n * pow2(1074) >= pow2(53) * pow2(1074),
                    pow2(1074) > 0,
            ;
            if k > 1075 {
                lemma_pow2_monotonic(1128, (52 + k) as nat);
                lemma_pow2_unfold(1128);
                assert(n * pow2(1074) < 2 * (pow2(53) * pow2(1074))) by (nonlinear_arith)
                    requires
                        n <= pow2(53),
                        pow2(53) > 0,
                        pow2(1074) > 0,
                ;
            }
        }
    }
    assert(1 * pow2(k) == pow2(k));
    lemma_pow2_pos(k);
    if k <= 1074 {
        let c = pow2((1074 - k) as nat);
        lemma_pow2_adds((1074 - k) as nat, k);
        assert(p == (n * c) * pow2(k)) by (nonlinear_arith)
            requires
                p == n * pow2(1074),
                pow2(1074) == c * pow2(k),
        ;
        lemma_round_half_even_by(p, pow2(k), n * c, 0);
        lemma_carried(n * c, k);
    } else {
        lemma_pow2_unfold(1075);
        assert(p == HIDDEN_BIT * pow2(1075)) by (nonlinear_arith)
            requires
                p == n * pow2(1074),
                n == 2 * HIDDEN_BIT,
                pow2(1075) == 2 * pow2(1074),
        ;
        lemma_round_half_even_by(p, pow2(k), HIDDEN_BIT as nat, 0);
    }
    lemma_nearest_is_valid(false, p, 1);
}

/// Every integer of 64 binary digits has a nearest number that is finite and not
/// above `2^64`.
pub proof fn lemma_integer_bound(n: nat)
    requires
        n <= u64::MAX,
    ensures
        integer(n) is Finite,
        !integer(n)->Finite_negative,
        integer(n).units() <= 0x1_0000_0000_0000_0000 * one_units(),
        integer(n).valid(),
{
    let top = Number::Finite { negative: false, mantissa: HIDDEN_BIT as nat, scale: 1086 };
    lemma_exact(top);
    lemma_powers();
    lemma_pow2_adds(52, 1086);
    lemma_pow2_adds(64, 1074);
    let one = one_units();
    assert(n * one * 1 <= top.units() * 1) by (nonlinear_arith)
        requires
            n <= 0x1_0000_0000_0000_0000,
            top.units() == 0x1_0000_0000_0000_0000 * one,
    ;
    law_rounding_keeps_order(n * one, 1, top.units(), 1);
    lemma_nearest_is_valid(false, n * one, 1);
}

/// A quotient of finite numbers is not above an integer that the exact quotient
/// is not above.
pub proof fn lemma_quotient_bound(a: Number, b: Number, n: nat)
    requires
        a is Finite,
        b is Finite,
        !a->Finite_negative,
        !b->Finite_negative,
        b.units() > 0,
        n <= MANTISSA_LIMIT,
        a.units() <= n * b.units(),
    ensures
        quotient(a, b) is Finite,
        !quotient(a, b)->Finite_negative,
        quotient(a, b).units() <= n * one_units(),
        quotient(a, b).valid(),
{
    law_integers_are_exact(n);
    let one = one_units();
    assert(b->mantissa != 0) by {
        if b->mantissa == 0 {
            assert(0 * pow2(b->scale) == 0) by (nonlinear_arith);
        }
    }
    assert(a.units() * one * 1 <= n * one * b.units()) by (nonlinear_arith)
        requires
            a.units() <= n * b.units(),
    ;
    law_rounding_keeps_order(a.units() * one, b.units(), n * one, 1);
    lemma_nearest_is_valid(false, a.units() * one, b.units());
}

/// A product of finite numbers is not above an integer that the exact product is
/// not above, and not below one that it is not below.
pub proof fn lemma_product_bounds(a: Number, b: Number, n: nat)
    requires
        a is Finite,
        b is Finite,
        !a->Finite_negative,
        !b->Finite_negative,
        n <= MANTISSA_LIMIT,
    ensures
        a.units() * b.units() <= n * one_units() * one_units() ==> at_most(product(a, b), integer(n)),
        a.units() * b.units() >= n * one_units() * one_units() ==> at_most(integer(n), product(a, b)),
        product(a, b).valid(),
        product(a, b) is Finite ==> !product(a, b)->Finite_negative,
        product(a, b) !is Nan,
{
    let one = one_units();
    lemma_pow2_pos(1074);
    let p = a.units() * b.units();
    if p <= n * one * one {
        assert(p * 1 <= n * one * one);
        law_rounding_keeps_order(p, one, n * one, 1);
    }
    if p >= n * one * one {
        assert(n * one * one <= p * 1);
        law_rounding_keeps_order(n * one, 1, p, one);
    }
    lemma_nearest_is_valid(false, p, one);
}

/// The least integer not below a number is not above an integer that the number
/// is not above.
pub proof fn lemma_ceiling_bound(x: Number, n: nat)
    requires
        x is Finite,
        !x->Finite_negative,
        n <= MANTISSA_LIMIT,
        x.units() <= n * one_units(),
    ensures
        ceiling(x) is Finite,
        !ceiling(x)->Finite_negative,
        ceiling(x).units() <= n * one_units(),
{
    let one = one_units() as int;
    lemma_pow2_pos(1074);
    law_integers_are_exact(n);
    let whole = (x.units() + one - 1) / one;
    assert(0 <= whole <= n) by (nonlinear_arith)
        requires
            whole == (x.units() + one - 1) / one,
            0 <= x.units() <= n * one,
            one > 0,
    ;
    assert(0 <= whole * one && (whole * one) * 1 <= (n * one) * 1) by (nonlinear_arith)
        requires
            0 <= whole <= n,
            one > 0,
    ;
    law_rounding_keeps_order((whole * one) as nat, 1, n * one_units(), 1);
}

/// Numbers are in order: of two that are numbers one is below the other, or both
/// are the same, and what is below another is below all that are not below that.
pub proof fn law_numbers_are_ordered(a: Number, b: Number, c: Number)
    requires
        a !is Nan,
        b !is Nan,
        c !is Nan,
    ensures
        below(a, b) || same(a, b) || below(b, a),
        !(below(a, b) && below(b, a)),
        below(a, b) && at_most(b, c) ==> below(a, c),
        at_most(a, b) && below(b, c) ==> below(a, c),
        at_most(a, b) && at_most(b, c) ==> at_most(a, c),
{
}

/// A number of the format comes back from its bit pattern, and a bit pattern from
/// its number, unless that is not a number.
pub proof fn law_bits_round_trip(x: Number, bits: u64)
    requires
        x.valid(),
    ensures
        0 <= encoded(x) <= u64::MAX,
        decoded(encoded(x) as u64) == x,
        decoded(bits).valid(),
        decoded(bits) !is Nan ==> encoded(decoded(bits)) == bits,
{
}

} // verus!
