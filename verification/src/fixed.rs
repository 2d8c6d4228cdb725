//! A decimal fixed-point scalar: real quantities stored as signed
//! counts of billionths. All arithmetic saturates at the mantissa
//! bounds, the fixed-point analogue of overflowing to an infinity.

use vstd::prelude::*;

verus! {

/// Number of mantissa units in one whole: a `Fixed` with mantissa `m`
/// stands for the real number `m / SCALE`.
pub const SCALE: i64 = 1_000_000_000;

/// A real quantity in fixed-point form.
#[derive(Clone, Copy, PartialEq, Eq, Structural, Debug)]
pub struct Fixed {
    pub m: i64,
}

impl View for Fixed {
    type V = int;

    open spec fn view(&self) -> int {
        self.m as int
    }
}

/// Saturation of an out-of-range mantissa to the nearest representable
/// one.
pub open spec fn clip(x: int) -> int {
    if x > i64::MAX {
        i64::MAX as int
    } else if x < i64::MIN {
        i64::MIN as int
    } else {
        x
    }
}

/// Division truncated toward zero, as machine division behaves, for a
/// positive divisor.
pub open spec fn tdiv(p: int, d: int) -> int
    recommends
        d > 0,
{
    if p >= 0 {
        p / d
    } else {
        -((-p) / d)
    }
}

/// Mantissa of the sum of two fixed-point values.
pub open spec fn fx_add(a: int, b: int) -> int {
    clip(a + b)
}

/// Mantissa of the difference of two fixed-point values.
pub open spec fn fx_sub(a: int, b: int) -> int {
    clip(a - b)
}

/// Mantissa of the product of two fixed-point values: the double-width
/// product is rescaled by `SCALE`, truncating toward zero.
pub open spec fn fx_mul(a: int, b: int) -> int {
    clip(tdiv(a * b, SCALE as int))
}

/// Floor of the square root of a natural number, defined by primitive
/// recursion.
pub open spec fn sqrt_floor(n: nat) -> nat
    decreases n,
{
    if n == 0 {
        0
    } else {
        let r = sqrt_floor((n - 1) as nat);
        if (r + 1) * (r + 1) <= n {
            r + 1
        } else {
            r
        }
    }
}

/// Mantissa of the square root of a nonnegative fixed-point value: for
/// a mantissa `m` the represented value is `m / SCALE`, whose root has
/// mantissa `sqrt(m * SCALE)`, rounded down.
pub open spec fn fx_sqrt(m: int) -> int
    recommends
        m >= 0,
{
    sqrt_floor((m * SCALE) as nat) as int
}

/// The mantissas of a sequence of fixed-point values.
pub open spec fn mantissas(s: Seq<Fixed>) -> Seq<int> {
    s.map_values(|x: Fixed| x@)
}

/// `sqrt_floor` is the floor of the square root: it is the unique
/// natural number whose square is at most `n` while the next square is
/// above `n`.
pub proof fn lemma_sqrt_floor_bounds(n: nat)
    ensures
        sqrt_floor(n) * sqrt_floor(n) <= n,
        n < (sqrt_floor(n) + 1) * (sqrt_floor(n) + 1),
    decreases n,
{
    if n == 0 {
        assert(sqrt_floor(n) == 0);
        assert(n < (sqrt_floor(n) + 1) * (sqrt_floor(n) + 1)) by (nonlinear_arith)
            requires
                n == 0,
                sqrt_floor(n) == 0,
        ;
    } else {
        lemma_sqrt_floor_bounds((n - 1) as nat);
        let r = sqrt_floor((n - 1) as nat);
        if (r + 1) * (r + 1) <= n {
            assert(sqrt_floor(n) == r + 1);
            assert((r + 1) * (r + 1) < (r + 2) * (r + 2)) by (nonlinear_arith);
        } else {
            assert(sqrt_floor(n) == r);
        }
    }
}

/// Any natural number bracketed the same way as `sqrt_floor(n)` equals
/// it.
pub proof fn lemma_sqrt_floor_unique(n: nat, r: nat)
    requires
        r * r <= n,
        n < (r + 1) * (r + 1),
    ensures
        r == sqrt_floor(n),
{
    lemma_sqrt_floor_bounds(n);
    let s = sqrt_floor(n);
    if r < s {
        assert((r + 1) * (r + 1) <= s * s) by (nonlinear_arith)
            requires
                r + 1 <= s,
        ;
    }
    if s < r {
        assert((s + 1) * (s + 1) <= r * r) by (nonlinear_arith)
            requires
                s + 1 <= r,
        ;
    }
}

/// A product of two mantissas stays within the doubled-width range.
proof fn lemma_i64_product_bounded(a: int, b: int)
    by (nonlinear_arith)
    requires
        -0x8000_0000_0000_0000 <= a <= 0x8000_0000_0000_0000,
        -0x8000_0000_0000_0000 <= b <= 0x8000_0000_0000_0000,
    ensures
        -0x4000_0000_0000_0000_0000_0000_0000_0000 <= a * b
            <= 0x4000_0000_0000_0000_0000_0000_0000_0000,
{
}

/// Dividing a nonnegative number by a positive one neither makes it
/// negative nor larger.
pub proof fn lemma_div_le(p: int, d: int)
    by (nonlinear_arith)
    requires
        p >= 0,
        d >= 1,
    ensures
        0 <= p / d <= p,
{
}

impl Fixed {
    /// Wraps a raw mantissa.
    pub fn new(m: i64) -> (r: Fixed)
        ensures
            r@ == m as int,
    {
        Fixed { m }
    }

    /// Saturating fixed-point addition.
    pub fn add(self, other: Fixed) -> (r: Fixed)
        ensures
            r@ == fx_add(self@, other@),
    {
        let s: i128 = self.m as i128 + other.m as i128;
        if s > i64::MAX as i128 {
            Fixed { m: i64::MAX }
        } else if s < i64::MIN as i128 {
            Fixed { m: i64::MIN }
        } else {
            Fixed { m: s as i64 }
        }
    }

    /// Saturating fixed-point subtraction.
    pub fn sub(self, other: Fixed) -> (r: Fixed)
        ensures
            r@ == fx_sub(self@, other@),
    {
        let s: i128 = self.m as i128 - other.m as i128;
        if s > i64::MAX as i128 {
            Fixed { m: i64::MAX }
        } else if s < i64::MIN as i128 {
            Fixed { m: i64::MIN }
        } else {
            Fixed { m: s as i64 }
        }
    }

    /// Saturating fixed-point multiplication.
    pub fn mul(self, other: Fixed) -> (r: Fixed)
        ensures
            r@ == fx_mul(self@, other@),
    {
        proof {
            lemma_i64_product_bounded(self.m as int, other.m as int);
        }
        let p: i128 = (self.m as i128) * (other.m as i128);
        if p >= 0 {
            let q: u128 = (p as u128) / (SCALE as u128);
            proof {
                lemma_div_le(p as int, SCALE as int);
            }
            if q > i64::MAX as u128 {
                Fixed { m: i64::MAX }
            } else {
                Fixed { m: q as i64 }
            }
        } else {
            let np: u128 = (-p) as u128;
            let q: u128 = np / (SCALE as u128);
            proof {
                lemma_div_le(np as int, SCALE as int);
            }
            if q > 0x8000_0000_0000_0000u128 {
                Fixed { m: i64::MIN }
            } else {
                Fixed { m: (-(q as i128)) as i64 }
            }
        }
    }

    /// Division by a positive whole-number divisor (a step count or a
    /// remaining-interval count), truncated toward zero.
    pub fn div_whole(self, k: i64) -> (r: Fixed)
        requires
            k > 0,
        ensures
            r@ == tdiv(self@, k as int),
    {
        if self.m >= 0 {
            proof {
                lemma_div_le(self.m as int, k as int);
            }
            let q: u64 = (self.m as u64) / (k as u64);
            Fixed { m: q as i64 }
        } else {
            let n: u128 = (-(self.m as i128)) as u128;
            proof {
                lemma_div_le(n as int, k as int);
            }
            let q: u128 = n / (k as u128);
            Fixed { m: (-(q as i128)) as i64 }
        }
    }

    /// Square root of a nonnegative quantity, rounded down in mantissa
    /// units, located by bisection.
    pub fn sqrt(self) -> (r: Fixed)
        requires
            self@ >= 0,
        ensures
            r@ == fx_sqrt(self@),
            r@ >= 0,
    {
        let v: u128 = (self.m as u128) * (SCALE as u128);
        let mut lo: u128 = 0;
        let mut hi: u128 = 0x8000_0000_0000;
        proof {
            assert(v < 0x8000_0000_0000 * 0x8000_0000_0000);
        }
        while lo + 1 < hi
            invariant
                lo < hi,
                hi <= 0x8000_0000_0000,
                lo * lo <= v,
                v < hi * hi,
            decreases hi - lo,
        {
            let mid: u128 = lo + (hi - lo) / 2;
            proof {
                assert(mid * mid < 0x8000_0000_0000 * 0x8000_0000_0000) by (nonlinear_arith)
                    requires
                        mid < 0x8000_0000_0000,
                ;
            }
            if mid * mid <= v {
                lo = mid;
            } else {
                hi = mid;
            }
        }
        proof {
            lemma_sqrt_floor_unique(v as nat, lo as nat);
        }
        Fixed { m: lo as i64 }
    }
}

} // verus!
