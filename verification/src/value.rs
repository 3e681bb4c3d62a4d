//! Fixed-point numbers with six decimal digits and saturating arithmetic.

use vstd::prelude::*;

verus! {

/// The number of units that make up 1.
pub const SCALE: i64 = 1_000_000;

/// A fixed-point number: `micros` millionths.
#[derive(Clone, Copy, Debug, PartialEq, Eq, Structural, Hash)]
pub struct Value {
    pub micros: i64,
}

impl View for Value {
    type V = int;

    open spec fn view(&self) -> int {
        self.micros as int
    }
}

/// `x` brought into the range of `i64`.
pub open spec fn saturate(x: int) -> int {
    if x < i64::MIN {
        i64::MIN as int
    } else if x > i64::MAX {
        i64::MAX as int
    } else {
        x
    }
}

/// The quotient of `a` by a positive `b`, rounded toward zero.
pub open spec fn trunc_div(a: int, b: int) -> int
    recommends
        b > 0,
{
    if a >= 0 {
        a / b
    } else {
        -((-a) / b)
    }
}

/// The sum of two fixed-point numbers.
pub open spec fn add_spec(a: int, b: int) -> int {
    saturate(a + b)
}

/// The negation of a fixed-point number.
pub open spec fn neg_spec(a: int) -> int {
    saturate(-a)
}

/// The product of two fixed-point numbers, rounded toward zero.
pub open spec fn mul_spec(a: int, b: int) -> int {
    saturate(trunc_div(a * b, SCALE as int))
}

/// A fixed-point number divided by a positive count, rounded toward zero.
pub open spec fn div_count_spec(a: int, n: int) -> int
    recommends
        n > 0,
{
    trunc_div(a, n)
}

/// The fraction `n / d` as a fixed-point number, rounded down.
pub open spec fn ratio_spec(n: nat, d: nat) -> int
    recommends
        d > 0,
{
    saturate((n * SCALE) / (d as int))
}

/// Whether `r` is the integer square root of `x`.
pub open spec fn is_isqrt(x: nat, r: nat) -> bool {
    r * r <= x && x < (r + 1) * (r + 1)
}

/// The integer square root of `x`: the largest `r` with `r * r <= x`.
pub open spec fn isqrt(x: nat) -> nat {
    choose|r: nat| is_isqrt(x, r)
}

/// The square root of a count as a fixed-point number, rounded down.
pub open spec fn sqrt_count_spec(n: nat) -> int {
    isqrt((n * SCALE * SCALE) as nat) as int
}

/// The greatest common divisor of two numbers, and 0 for 0 and 0.
pub open spec fn gcd_spec(a: nat, b: nat) -> nat
    decreases b,
{
    if b == 0 {
        a
    } else {
        gcd_spec(b, a % b)
    }
}

/// Squares grow with their roots.
pub proof fn lemma_square_monotonic(a: nat, b: nat)
    requires
        a <= b,
    ensures
        a * a <= b * b,
{
    assert(a * a <= a * b) by (nonlinear_arith)
        requires
            a <= b,
    ;
    assert(a * b <= b * b) by (nonlinear_arith)
        requires
            a <= b,
    ;
}

/// At most one number is the integer square root of `x`.
pub proof fn lemma_isqrt_unique(x: nat, r: nat, s: nat)
    requires
        is_isqrt(x, r),
        is_isqrt(x, s),
    ensures
        r == s,
{
    if r < s {
        lemma_square_monotonic(r + 1, s);
    } else if s < r {
        lemma_square_monotonic(s + 1, r);
    }
}

/// A number that squares around `x` is the integer square root of `x`.
pub proof fn lemma_isqrt_is(x: nat, r: nat)
    requires
        is_isqrt(x, r),
    ensures
        isqrt(x) == r,
{
    lemma_isqrt_unique(x, r, isqrt(x));
}

/// The greatest common divisor of two numbers that are not both 0 divides
/// both, and every number that divides both divides it.
pub proof fn lemma_gcd(a: nat, b: nat)
    requires
        a > 0 || b > 0,
    ensures
        gcd_spec(a, b) > 0,
        a % gcd_spec(a, b) == 0,
        b % gcd_spec(a, b) == 0,
        forall|d: nat| d > 0 && a % d == 0 && b % d == 0 ==> #[trigger] (gcd_spec(a, b) % d) == 0,
    decreases b,
{
    if b > 0 {
        let r = a % b;
        let q = a / b;
        let g = gcd_spec(b, r);
        lemma_gcd(b, r);
        vstd::arithmetic::div_mod::lemma_fundamental_div_mod(a as int, b as int);
        vstd::arithmetic::div_mod::lemma_fundamental_div_mod(b as int, g as int);
        vstd::arithmetic::div_mod::lemma_fundamental_div_mod(r as int, g as int);
        let k = (b / g) * q + r / g;
        assert(a == k * g) by (nonlinear_arith)
            requires
                a == b * q + r,
                b == g * (b / g),
                r == g * (r / g),
                k == (b / g) * q + r / g,
        ;
        vstd::arithmetic::div_mod::lemma_mod_multiples_basic(k as int, g as int);
        assert forall|d: nat| d > 0 && a % d == 0 && b % d == 0 implies #[trigger] (gcd_spec(a, b)
            % d) == 0 by {
            vstd::arithmetic::div_mod::lemma_fundamental_div_mod(a as int, d as int);
            vstd::arithmetic::div_mod::lemma_fundamental_div_mod(b as int, d as int);
            let m = (a / d) as int - (b / d) * q;
            assert(r == m * d) by (nonlinear_arith)
                requires
                    a == b * q + r,
                    a == d * (a / d),
                    b == d * (b / d),
                    m == (a / d) as int - (b / d) * q,
            ;
            vstd::arithmetic::div_mod::lemma_mod_multiples_basic(m, d as int);
            assert(gcd_spec(b, r) % d == 0);
        }
    } else {
        assert forall|d: nat| d > 0 && a % d == 0 && b % d == 0 implies #[trigger] (gcd_spec(a, b)
            % d) == 0 by {}
    }
}

fn clamp(x: i128) -> (r: i64)
    ensures
        r as int == saturate(x as int),
{
    if x < i64::MIN as i128 {
        i64::MIN
    } else if x > i64::MAX as i128 {
        i64::MAX
    } else {
        x as i64
    }
}

/// The greatest common divisor of two numbers.
pub fn gcd(a: u32, b: u32) -> (g: u32)
    ensures
        g == gcd_spec(a as nat, b as nat),
{
    let mut x: u32 = a;
    let mut y: u32 = b;
    while y != 0
        invariant
            gcd_spec(x as nat, y as nat) == gcd_spec(a as nat, b as nat),
        decreases y,
    {
        let r = x % y;
        x = y;
        y = r;
    }
    x
}

/// The integer square root of `x`, found by bisection.
fn integer_sqrt(x: u128) -> (r: u64)
    requires
        x < 0x100_0000_0000_0000_0000_0000_0000u128,
    ensures
        is_isqrt(x as nat, r as nat),
        isqrt(x as nat) == r,
        r < 0x10_0000_0000_0000u64,
{
    let mut lo: u128 = 0;
    let mut hi: u128 = 0x10_0000_0000_0000u128;
    assert(0x10_0000_0000_0000u128 * 0x10_0000_0000_0000u128
        == 0x100_0000_0000_0000_0000_0000_0000u128);
    while hi - lo > 1
        invariant
            lo < hi,
            hi <= 0x10_0000_0000_0000u128,
            lo * lo <= x,
            x < hi * hi,
        decreases hi - lo,
    {
        let mid: u128 = lo + (hi - lo) / 2;
        proof {
            lemma_square_monotonic(mid as nat, 0x10_0000_0000_0000u128 as nat);
        }
        if mid * mid <= x {
            lo = mid;
        } else {
            hi = mid;
        }
    }
    proof {
        assert(hi == lo + 1);
        lemma_isqrt_is(x as nat, lo as nat);
    }
    lo as u64
}

impl Value {
    /// The number 0.
    pub fn zero() -> (r: Value)
        ensures
            r@ == 0,
    {
        Value { micros: 0 }
    }

    /// The number 1.
    pub fn one() -> (r: Value)
        ensures
            r@ == SCALE,
    {
        Value { micros: SCALE }
    }

    /// The number of `micros` millionths.
    pub fn from_micros(micros: i64) -> (r: Value)
        ensures
            r@ == micros,
    {
        Value { micros }
    }

    /// This number in millionths.
    pub fn micros(&self) -> (m: i64)
        ensures
            m == self@,
    {
        self.micros
    }

    /// The saturating sum.
    pub fn add(self, other: Value) -> (r: Value)
        ensures
            r@ == add_spec(self@, other@),
    {
        Value { micros: clamp(self.micros as i128 + other.micros as i128) }
    }

    /// The saturating negation.
    pub fn neg(self) -> (r: Value)
        ensures
            r@ == neg_spec(self@),
    {
        Value { micros: clamp(-(self.micros as i128)) }
    }

    /// The saturating product, rounded toward zero.
    pub fn mul(self, other: Value) -> (r: Value)
        ensures
            r@ == mul_spec(self@, other@),
    {
        let a: i128 = self.micros as i128;
        let b: i128 = other.micros as i128;
        proof {
            assert(-0x4000_0000_0000_0000_0000_0000_0000_0000int <= a * b
                <= 0x4000_0000_0000_0000_0000_0000_0000_0000int) by (nonlinear_arith)
                requires
                    -0x8000_0000_0000_0000int <= a <= 0x8000_0000_0000_0000int,
                    -0x8000_0000_0000_0000int <= b <= 0x8000_0000_0000_0000int,
            ;
        }
        let p: i128 = a * b;
        Value { micros: clamp(p / (SCALE as i128)) }
    }

    /// This number divided by a positive count, rounded toward zero.
    pub fn div_count(self, n: usize) -> (r: Value)
        requires
            n > 0,
        ensures
            r@ == div_count_spec(self@, n as int),
    {
        let q: i128 = (self.micros as i128) / (n as i128);
        proof {
            let a = self@;
            if a >= 0 {
                assert(0 <= a / (n as int) <= a) by (nonlinear_arith)
                    requires
                        a >= 0,
                        n > 0,
                ;
            } else {
                assert(0 <= (-a) / (n as int) <= -a) by (nonlinear_arith)
                    requires
                        a < 0,
                        n > 0,
                ;
            }
        }
        Value { micros: q as i64 }
    }

    /// The fraction `n / d`, rounded down.
    pub fn ratio(n: usize, d: usize) -> (r: Value)
        requires
            d > 0,
        ensures
            r@ == ratio_spec(n as nat, d as nat),
    {
        proof {
            assert(0 <= n * SCALE <= 0xffff_ffff_ffff_ffff * 1_000_000) by (nonlinear_arith)
                requires
                    0 <= n <= 0xffff_ffff_ffff_ffff,
                    SCALE == 1_000_000,
            ;
        }
        let p: i128 = (n as i128) * (SCALE as i128);
        Value { micros: clamp(p / (d as i128)) }
    }

    /// The square root of a count, rounded down.
    pub fn sqrt_count(n: usize) -> (r: Value)
        ensures
            r@ == sqrt_count_spec(n as nat),
    {
        proof {
            assert(n * SCALE * SCALE == n * 1_000_000_000_000) by (nonlinear_arith)
                requires
                    SCALE == 1_000_000,
            ;
        }
        let x: u128 = (n as u128) * 1_000_000_000_000u128;
        let root: u64 = integer_sqrt(x);
        Value { micros: root as i64 }
    }
}

} // verus!
