//! Shares of a whole at a fine scale, for weights that are divided by their
//! sum afterwards: numbers from 0 to 1 as whole numbers of 2^-62, their
//! products, powers and roots, and quotients rounded to the nearest whole
//! number.

use vstd::arithmetic::div_mod::{lemma_fundamental_div_mod, lemma_fundamental_div_mod_converse};
use vstd::prelude::*;

verus! {

/// The number of units that make up 1 at the fine scale: 2^62.
pub const FINE: u128 = 0x4000_0000_0000_0000;

/// The fraction `n / d` at the fine scale, rounded down, and 0 where `d` is
/// 0.
pub open spec fn fine_ratio(n: nat, d: nat) -> int {
    if d == 0 {
        0
    } else {
        (n * FINE) / (d as int)
    }
}

/// The product of two shares, rounded down.
pub open spec fn fine_mul(a: int, b: int) -> int {
    (a * b) / (FINE as int)
}

/// A share raised to the power `k` by repeated multiplication.
pub open spec fn fine_pow(b: int, k: nat) -> int
    decreases k,
{
    if k == 0 {
        FINE as int
    } else {
        fine_mul(fine_pow(b, (k - 1) as nat), b)
    }
}

/// Whether `r` is the root of order `q` of the share `x`, rounded up: the
/// smallest share whose power `q` is at least `x`.
pub open spec fn is_fine_root(x: int, q: nat, r: int) -> bool {
    &&& 0 <= r <= FINE
    &&& fine_pow(r, q) >= x
    &&& r > 0 ==> fine_pow(r - 1, q) < x
}

/// The root of order `q` of a share, rounded up: the smallest share whose
/// power `q` is at least `x`.
pub open spec fn fine_root(x: int, q: nat) -> int
    recommends
        x <= FINE,
        q >= 1,
{
    choose|r: int| is_fine_root(x, q, r)
}

/// The quotient of `x` by a positive `d`, rounded to the nearest whole
/// number, and up from the middle between two.
pub open spec fn round_div(x: int, d: int) -> int
    recommends
        d > 0,
{
    (2 * x + d) / (2 * d)
}

/// The whole number `n` raised to the power `k`.
pub open spec fn int_pow(n: int, k: nat) -> int
    decreases k,
{
    if k == 0 {
        1
    } else {
        int_pow(n, (k - 1) as nat) * n
    }
}

/// The fraction `n / d` is not negative and grows with `n`; it is at most 1
/// where `n` is at most `d`, 1 where the two are equal, and 0 for 0.
pub proof fn lemma_fine_ratio(n: nat, m: nat, d: nat)
    requires
        d > 0,
        n <= m,
    ensures
        0 <= fine_ratio(n, d) <= fine_ratio(m, d),
        m <= d ==> fine_ratio(m, d) <= FINE,
        fine_ratio(d, d) == FINE,
        fine_ratio(0, d) == 0,
{
    let f = FINE as int;
    assert(0 <= (n * f) / (d as int) <= (m * f) / (d as int)) by (nonlinear_arith)
        requires
            d > 0,
            0 <= n <= m,
            f > 0,
    ;
    assert(m <= d ==> (m * f) / (d as int) <= f) by (nonlinear_arith)
        requires
            d > 0,
            0 <= m,
            f > 0,
    ;
    assert((d * f) / (d as int) == f) by (nonlinear_arith)
        requires
            d > 0,
            f > 0,
    ;
    assert((0 * f) / (d as int) == 0) by (nonlinear_arith)
        requires
            d > 0,
    ;
}

/// The product of shares is not negative, grows with each of them, and is no
/// more than either.
pub proof fn lemma_fine_mul(a: int, b: int, c: int, d: int)
    requires
        0 <= a <= c,
        0 <= b <= d,
    ensures
        0 <= fine_mul(a, b) <= fine_mul(c, d),
        d <= FINE ==> fine_mul(c, d) <= c,
{
    let f = FINE as int;
    assert(0 <= a * b <= c * d) by (nonlinear_arith)
        requires
            0 <= a <= c,
            0 <= b <= d,
    ;
    assert(0 <= (a * b) / f <= (c * d) / f) by (nonlinear_arith)
        requires
            0 <= a * b <= c * d,
            f > 0,
    ;
    assert(d <= f ==> (c * d) / f <= c) by (nonlinear_arith)
        requires
            0 <= c,
            0 <= d,
            f > 0,
    ;
}

/// A power of a share is a share and grows with it; any power of 1 is 1, and
/// any power of 0 but the zeroth is 0.
pub proof fn lemma_fine_pow(x: int, y: int, k: nat)
    requires
        0 <= x <= y <= FINE,
    ensures
        0 <= fine_pow(x, k) <= fine_pow(y, k) <= FINE,
        fine_pow(FINE as int, k) == FINE,
        k > 0 ==> fine_pow(0, k) == 0,
    decreases k,
{
    if k > 0 {
        lemma_fine_pow(x, y, (k - 1) as nat);
        lemma_fine_mul(fine_pow(x, (k - 1) as nat), x, fine_pow(y, (k - 1) as nat), y);
        let f = FINE as int;
        assert((f * f) / f == f) by (nonlinear_arith)
            requires
                f > 0,
        ;
        assert((fine_pow(0, (k - 1) as nat) * 0) / f == 0) by (nonlinear_arith)
            requires
                f > 0,
        ;
    }
}

/// A power, from the first on, of the share just below 1 is below 1.
proof fn lemma_fine_pow_below_one(q: nat)
    requires
        q >= 1,
    ensures
        fine_pow(FINE - 1, q) < FINE,
{
    lemma_fine_pow(FINE - 1, FINE - 1, (q - 1) as nat);
    let before = fine_pow(FINE - 1, (q - 1) as nat);
    let f = FINE as int;
    assert((before * (f - 1)) / f < f) by (nonlinear_arith)
        requires
            0 <= before <= f,
            f > 1,
    ;
}

/// At most one share is the root of order `q` of `x`.
pub proof fn lemma_fine_root_unique(x: int, q: nat, r: int, s: int)
    requires
        is_fine_root(x, q, r),
        is_fine_root(x, q, s),
    ensures
        r == s,
{
    if r < s {
        lemma_fine_pow(r, s - 1, q);
    } else if s < r {
        lemma_fine_pow(s, r - 1, q);
    }
}

/// Looks for the root of order `q` of `x` from `from` upward.
proof fn lemma_fine_root_search(x: int, q: nat, from: int) -> (r: int)
    requires
        x <= FINE,
        q >= 1,
        0 <= from <= FINE,
        from > 0 ==> fine_pow(from - 1, q) < x,
    ensures
        is_fine_root(x, q, r),
    decreases FINE - from,
{
    if fine_pow(from, q) >= x {
        from
    } else {
        lemma_fine_pow(0, FINE as int, q);
        lemma_fine_root_search(x, q, from + 1)
    }
}

/// What the root of order `q` is: it is a share, its power `q` is at least
/// `x`, the power of the share before it is below `x`, it grows with `x`,
/// the root of 0 is 0 and the root of 1 is 1.
pub proof fn lemma_fine_root(x: int, y: int, q: nat)
    requires
        x <= y <= FINE,
        q >= 1,
    ensures
        is_fine_root(x, q, fine_root(x, q)),
        is_fine_root(y, q, fine_root(y, q)),
        0 <= fine_root(x, q) <= fine_root(y, q) <= FINE,
        fine_root(0, q) == 0,
        fine_root(FINE as int, q) == FINE,
{
    let r = lemma_fine_root_search(x, q, 0);
    let s = lemma_fine_root_search(y, q, 0);
    lemma_fine_pow(0, FINE as int, q);
    lemma_fine_pow_below_one(q);
    assert(is_fine_root(FINE as int, q, FINE as int));
    lemma_fine_root_unique(FINE as int, q, fine_root(FINE as int, q), FINE as int);
    assert(is_fine_root(0, q, 0));
    lemma_fine_root_unique(0, q, fine_root(0, q), 0);
    if fine_root(x, q) > fine_root(y, q) {
        lemma_fine_pow(fine_root(y, q), fine_root(x, q) - 1, q);
    }
}

/// A power of whole numbers that are not negative is not negative and grows
/// with the number; a power of a number above 0 is above 0.
pub proof fn lemma_int_pow(n: int, m: int, k: nat)
    requires
        0 <= n <= m,
    ensures
        0 <= int_pow(n, k) <= int_pow(m, k),
        m > 0 ==> int_pow(m, k) > 0,
    decreases k,
{
    if k > 0 {
        lemma_int_pow(n, m, (k - 1) as nat);
        let a = int_pow(n, (k - 1) as nat);
        let b = int_pow(m, (k - 1) as nat);
        assert(0 <= a * n <= b * m) by (nonlinear_arith)
            requires
                0 <= a <= b,
                0 <= n <= m,
        ;
        assert(m > 0 && b > 0 ==> b * m > 0) by (nonlinear_arith);
    }
}

/// How far the power of a share at the fine scale is from the power of the
/// fraction itself: the share `n / m` raised to the power `k` is no more than
/// `(n / m) ^ k`, and less than that by no more than `2 * k` units of the
/// fine scale.
pub proof fn lemma_fine_pow_is_close(n: nat, m: nat, k: nat)
    requires
        n <= m,
        m > 0,
    ensures
        ({
            let power = fine_pow(fine_ratio(n, m), k);
            &&& 0 <= power <= FINE
            &&& power * int_pow(m as int, k) <= int_pow(n as int, k) * FINE
            &&& int_pow(n as int, k) * FINE <= power * int_pow(m as int, k) + 2 * k * int_pow(
                m as int,
                k,
            )
        }),
    decreases k,
{
    let f = FINE as int;
    let s = fine_ratio(n, m);
    lemma_fine_ratio(n, n, m);
    lemma_fine_pow(s, s, k);
    lemma_int_pow(n as int, m as int, k);
    if k > 0 {
        let j = (k - 1) as nat;
        lemma_fine_pow_is_close(n, m, j);
        lemma_int_pow(n as int, m as int, j);
        lemma_fine_pow(s, s, j);
        let y = fine_pow(s, j);
        let next = fine_pow(s, k);
        let a = int_pow(n as int, j);
        let b = int_pow(m as int, j);
        let nn = n as int;
        let mm = m as int;
        // what rounding down the share and the product means
        lemma_fundamental_div_mod(nn * f, mm);
        vstd::arithmetic::div_mod::lemma_mod_bound(nn * f, mm);
        assert(s * mm <= nn * f && nn * f < s * mm + mm) by (nonlinear_arith)
            requires
                nn * f == mm * s + (nn * f) % mm,
                0 <= (nn * f) % mm < mm,
        ;
        lemma_fundamental_div_mod(y * s, f);
        vstd::arithmetic::div_mod::lemma_mod_bound(y * s, f);
        assert(next == (y * s) / f);
        assert(next * f <= y * s && y * s < next * f + f) by (nonlinear_arith)
            requires
                y * s == f * next + (y * s) % f,
                0 <= (y * s) % f < f,
        ;
        let u = y * b;
        let big_u = a * f;
        let v = s * mm;
        let big_v = nn * f;
        assert(0 <= u <= big_u <= u + 2 * j * b);
        assert(0 <= v <= big_v <= v + mm);
        // from above
        assert(u * v <= big_u * big_v) by (nonlinear_arith)
            requires
                0 <= u <= big_u,
                0 <= v <= big_v,
        ;
        assert(next * (b * mm) * f <= (a * nn * f) * f) by (nonlinear_arith)
            requires
                next * f <= y * s,
                u * v <= big_u * big_v,
                u == y * b,
                v == s * mm,
                big_u == a * f,
                big_v == nn * f,
                b >= 0,
                mm >= 0,
        ;
        assert(next * (b * mm) <= a * nn * f) by (nonlinear_arith)
            requires
                next * (b * mm) * f <= (a * nn * f) * f,
                f > 0,
        ;
        // from below
        assert(big_u * big_v - u * v <= big_u * mm + v * (2 * j * b)) by (nonlinear_arith)
            requires
                0 <= u <= big_u <= u + 2 * j * b,
                0 <= v <= big_v <= v + mm,
        ;
        assert(big_u * mm + v * (2 * j * b) <= (2 * j + 1) * (b * mm) * f) by (nonlinear_arith)
            requires
                big_u == a * f,
                0 <= a <= b,
                0 <= v <= big_v,
                big_v == nn * f,
                0 <= nn <= mm,
                f > 0,
                j >= 0,
                b >= 0,
        ;
        let bm = b * mm;
        let ys = y * s;
        let whole = a * nn * f;
        assert(bm >= 0) by (nonlinear_arith)
            requires
                b >= 0,
                mm >= 0,
                bm == b * mm,
        ;
        assert(u * v == ys * bm) by (nonlinear_arith)
            requires
                u == y * b,
                v == s * mm,
                ys == y * s,
                bm == b * mm,
        ;
        assert(ys * bm <= next * bm * f + bm * f) by (nonlinear_arith)
            requires
                ys <= next * f + f,
                bm >= 0,
        ;
        assert(big_u * big_v == whole * f) by (nonlinear_arith)
            requires
                big_u == a * f,
                big_v == nn * f,
                whole == a * nn * f,
        ;
        assert((2 * j + 1) * bm * f + bm * f == 2 * k * bm * f) by (nonlinear_arith)
            requires
                k == j + 1,
        ;
        assert(whole * f <= (next * bm + 2 * k * bm) * f) by (nonlinear_arith)
            requires
                whole * f <= next * bm * f + 2 * k * bm * f,
        ;
        assert(whole <= next * bm + 2 * k * bm) by (nonlinear_arith)
            requires
                whole * f <= (next * bm + 2 * k * bm) * f,
                f > 0,
        ;
    }
}

/// The fraction `n / d` at the fine scale, rounded down.
pub fn share_of(n: usize, d: usize) -> (share: u128)
    requires
        0 < d,
        n <= d,
    ensures
        share == fine_ratio(n as nat, d as nat),
        share <= FINE,
{
    proof {
        lemma_fine_ratio(n as nat, n as nat, d as nat);
        assert(n * FINE <= 0xffff_ffff_ffff_ffff * 0x4000_0000_0000_0000) by (nonlinear_arith)
            requires
                0 <= n <= 0xffff_ffff_ffff_ffff,
                FINE == 0x4000_0000_0000_0000,
        ;
    }
    ((n as u128) * FINE) / (d as u128)
}

/// The product of two shares, rounded down.
pub fn share_mul(a: u128, b: u128) -> (product: u128)
    requires
        a <= FINE,
        b <= FINE,
    ensures
        product == fine_mul(a as int, b as int),
        product <= FINE,
{
    proof {
        lemma_fine_mul(a as int, b as int, a as int, b as int);
        assert(a * b <= 0x4000_0000_0000_0000 * 0x4000_0000_0000_0000) by (nonlinear_arith)
            requires
                0 <= a <= 0x4000_0000_0000_0000,
                0 <= b <= 0x4000_0000_0000_0000,
        ;
    }
    (a * b) / FINE
}

/// A share raised to the power `k` by repeated multiplication.
pub fn share_pow(b: u128, k: u32) -> (power: u128)
    requires
        b <= FINE,
    ensures
        power == fine_pow(b as int, k as nat),
        power <= FINE,
{
    let mut acc: u128 = FINE;
    let mut i: u32 = 0;
    while i < k
        invariant
            i <= k,
            b <= FINE,
            acc <= FINE,
            acc == fine_pow(b as int, i as nat),
        decreases k - i,
    {
        acc = share_mul(acc, b);
        i += 1;
    }
    acc
}

/// The root of order `q` of a share, rounded up, found by bisection.
pub fn share_root(x: u128, q: u32) -> (root: u128)
    requires
        x <= FINE,
        q >= 1,
    ensures
        root == fine_root(x as int, q as nat),
        root <= FINE,
{
    proof {
        lemma_fine_pow(0, FINE as int, q as nat);
        lemma_fine_root(x as int, x as int, q as nat);
    }
    if x == 0 {
        return 0;
    }
    let mut lo: u128 = 0;
    let mut hi: u128 = FINE;
    while hi - lo > 1
        invariant
            0 <= lo < hi <= FINE,
            fine_pow(hi as int, q as nat) >= x,
            fine_pow(lo as int, q as nat) < x,
        decreases hi - lo,
    {
        let mid: u128 = lo + (hi - lo) / 2;
        if share_pow(mid, q) >= x {
            hi = mid;
        } else {
            lo = mid;
        }
    }
    proof {
        lemma_fine_root_unique(x as int, q as nat, hi as int, fine_root(x as int, q as nat));
    }
    hi
}

/// The quotient of `x` by `d`, rounded to the nearest whole number, and up
/// from the middle between two.
pub fn rounded_quotient(x: u128, d: u128) -> (quotient: u128)
    requires
        d > 0,
    ensures
        quotient == round_div(x as int, d as int),
{
    let whole = x / d;
    let rest = x % d;
    proof {
        lemma_fundamental_div_mod(x as int, d as int);
    }
    if rest >= d - rest {
        proof {
            assert(whole + 1 <= u128::MAX && 2 * x + d == (whole + 1) * (2 * d) + (2 * rest - d))
                by (nonlinear_arith)
                requires
                    x == d * whole + rest,
                    0 <= rest < d,
                    rest >= d - rest,
                    x <= u128::MAX,
                    0 <= whole,
            ;
            lemma_fundamental_div_mod_converse(
                2 * x + d,
                2 * d,
                whole + 1,
                2 * rest - d,
            );
        }
        whole + 1
    } else {
        proof {
            assert(2 * x + d == whole * (2 * d) + (2 * rest + d)) by (nonlinear_arith)
                requires
                    x == d * whole + rest,
            ;
            lemma_fundamental_div_mod_converse(2 * x + d, 2 * d, whole as int, 2 * rest + d);
        }
        whole
    }
}

} // verus!
