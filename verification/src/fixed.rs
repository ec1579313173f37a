//! Decimal fixed-point numbers with saturating arithmetic.

use vstd::prelude::*;

verus! {

/// Number of raw units in the value one.
pub const SCALE: i64 = 1_000_000_000_000_000;

/// The integer nearest to `x` that an `i64` can hold.
pub open spec fn saturate(x: int) -> int {
    if x > i64::MAX as int {
        i64::MAX as int
    } else if x < i64::MIN as int {
        i64::MIN as int
    } else {
        x
    }
}

/// Quotient of `x` by a positive `d`, rounded toward zero.
pub open spec fn trunc_div(x: int, d: int) -> int {
    if x >= 0 {
        x / d
    } else {
        -((-x) / d)
    }
}

/// A real number held as a count of `1 / SCALE` units.
///
/// Sums, differences and products that leave the range of `i64` stop at its ends;
/// products and quotients are rounded toward zero.
#[derive(Clone, Copy, Debug, PartialEq, Eq, Structural)]
pub struct Fixed {
    pub raw: i64,
}

/// Brings a wide count of units back into the range of `i64`.
pub fn narrow(wide: i128) -> (r: i64)
    ensures
        r as int == saturate(wide as int),
{
    if wide > i64::MAX as i128 {
        i64::MAX
    } else if wide < i64::MIN as i128 {
        i64::MIN
    } else {
        wide as i64
    }
}

impl Fixed {
    /// The value zero.
    pub open spec fn zero_spec() -> Fixed {
        Fixed { raw: 0 }
    }

    /// The value one.
    pub open spec fn one_spec() -> Fixed {
        Fixed { raw: SCALE }
    }

    /// The value one half.
    pub open spec fn half_spec() -> Fixed {
        Fixed { raw: 500_000_000_000_000 }
    }

    /// Whether the value lies between zero and one, both included.
    pub open spec fn is_probability(self) -> bool {
        0 <= self.raw <= SCALE
    }

    /// The sum, stopped at the ends of the range.
    pub open spec fn plus_spec(self, rhs: Fixed) -> Fixed {
        Fixed { raw: saturate(self.raw + rhs.raw) as i64 }
    }

    /// The difference, stopped at the ends of the range.
    pub open spec fn minus_spec(self, rhs: Fixed) -> Fixed {
        Fixed { raw: saturate(self.raw - rhs.raw) as i64 }
    }

    /// The product, rounded toward zero and stopped at the ends of the range.
    pub open spec fn times_spec(self, rhs: Fixed) -> Fixed {
        Fixed { raw: saturate(trunc_div(self.raw * rhs.raw, SCALE as int)) as i64 }
    }

    /// The value divided by a positive count.
    pub open spec fn shared_spec(self, count: int) -> Fixed {
        Fixed { raw: trunc_div(self.raw as int, count) as i64 }
    }

    /// One minus the value.
    pub open spec fn complement_spec(self) -> Fixed {
        Fixed::one_spec().minus_spec(self)
    }

    /// The value brought into the interval from zero to one.
    pub open spec fn clip_spec(self) -> Fixed {
        if self.raw > SCALE {
            Fixed::one_spec()
        } else if self.raw < 0 {
            Fixed::zero_spec()
        } else {
            self
        }
    }

    /// The integer part of a hundred times the value.
    pub open spec fn hundredths_spec(self) -> int {
        trunc_div(self.raw * 100, SCALE as int)
    }

    /// The value of `raw` units.
    pub fn from_raw(raw: i64) -> (r: Fixed)
        ensures
            r.raw == raw,
    {
        Fixed { raw }
    }

    /// The value as a count of units.
    pub fn raw(&self) -> (r: i64)
        ensures
            r == self.raw,
    {
        self.raw
    }

    /// The value zero.
    pub fn zero() -> (r: Fixed)
        ensures
            r == Fixed::zero_spec(),
    {
        Fixed { raw: 0 }
    }

    /// The value one.
    pub fn one() -> (r: Fixed)
        ensures
            r == Fixed::one_spec(),
    {
        Fixed { raw: SCALE }
    }

    /// The value one half.
    pub fn half() -> (r: Fixed)
        ensures
            r == Fixed::half_spec(),
    {
        Fixed { raw: 500_000_000_000_000 }
    }

    /// The value that a wide count of units stands for, stopped at the ends of the range.
    pub fn from_wide(wide: i128) -> (r: Fixed)
        ensures
            r.raw as int == saturate(wide as int),
    {
        Fixed { raw: narrow(wide) }
    }

    /// The sum, stopped at the ends of the range.
    pub fn plus(self, rhs: Fixed) -> (r: Fixed)
        ensures
            r == self.plus_spec(rhs),
    {
        let wide: i128 = self.raw as i128 + rhs.raw as i128;
        Fixed { raw: narrow(wide) }
    }

    /// The difference, stopped at the ends of the range.
    pub fn minus(self, rhs: Fixed) -> (r: Fixed)
        ensures
            r == self.minus_spec(rhs),
    {
        let wide: i128 = self.raw as i128 - rhs.raw as i128;
        Fixed { raw: narrow(wide) }
    }

    /// The product, rounded toward zero and stopped at the ends of the range.
    pub fn times(self, rhs: Fixed) -> (r: Fixed)
        ensures
            r == self.times_spec(rhs),
    {
        proof {
            lemma_product_range(self.raw as int, rhs.raw as int, 0x8000_0000_0000_0000);
        }
        let wide: i128 = (self.raw as i128) * (rhs.raw as i128);
        Fixed { raw: narrow(wide / (SCALE as i128)) }
    }

    /// The value divided by a positive count, rounded toward zero.
    pub fn shared(self, count: usize) -> (r: Fixed)
        requires
            count > 0,
        ensures
            r == self.shared_spec(count as int),
    {
        proof {
            lemma_trunc_div_range(self.raw as int, count as int);
        }
        let wide: i128 = (self.raw as i128) / (count as i128);
        Fixed { raw: wide as i64 }
    }

    /// One minus the value.
    pub fn complement(self) -> (r: Fixed)
        ensures
            r == self.complement_spec(),
    {
        Fixed::one().minus(self)
    }

    /// The value brought into the interval from zero to one.
    pub fn clip(self) -> (r: Fixed)
        ensures
            r == self.clip_spec(),
            r.is_probability(),
    {
        if self.raw > SCALE {
            Fixed::one()
        } else if self.raw < 0 {
            Fixed::zero()
        } else {
            self
        }
    }

    /// The integer part of a hundred times the value.
    pub fn hundredths(self) -> (r: i64)
        ensures
            r as int == self.hundredths_spec(),
    {
        let wide: i128 = (self.raw as i128) * 100;
        let q: i128 = wide / (SCALE as i128);
        proof {
            lemma_trunc_div_range(wide as int, SCALE as int);
        }
        q as i64
    }
}

/// Every value lies between zero and one.
pub open spec fn all_probabilities(v: Seq<Fixed>) -> bool {
    forall|i: int| 0 <= i < v.len() ==> (#[trigger] v[i]).is_probability()
}

/// The sum of two rounded quotients is at most the quotient of the sum.
pub proof fn lemma_quotients_add(a: int, b: int, d: int, most: int)
    requires
        0 <= a,
        0 <= b,
        0 < d,
        a + b <= most * d,
    ensures
        0 <= a / d,
        0 <= b / d,
        a / d + b / d <= most,
{
    assert(0 <= a / d && (a / d) * d <= a) by (nonlinear_arith)
        requires
            0 <= a,
            0 < d,
    ;
    assert(0 <= b / d && (b / d) * d <= b) by (nonlinear_arith)
        requires
            0 <= b,
            0 < d,
    ;
    assert(a / d + b / d <= most) by (nonlinear_arith)
        requires
            (a / d) * d <= a,
            (b / d) * d <= b,
            a + b <= most * d,
            0 < d,
    ;
}

/// The complement of a probability is a probability, and the two sum to one.
pub proof fn lemma_complement_of_probability(q: Fixed)
    requires
        q.is_probability(),
    ensures
        q.complement_spec().is_probability(),
        q.complement_spec().raw == SCALE - q.raw,
{
}

/// The product of two probabilities is a probability no larger than either.
pub proof fn lemma_times_of_probabilities(x: Fixed, q: Fixed)
    requires
        x.is_probability(),
        q.is_probability(),
    ensures
        x.times_spec(q).is_probability(),
        x.times_spec(q).raw == (x.raw * q.raw) / (SCALE as int),
        x.times_spec(q).raw <= x.raw,
        x.times_spec(q).raw <= q.raw,
{
    let a = x.raw * q.raw;
    assert(0 <= a && a <= x.raw * SCALE && a <= q.raw * SCALE) by (nonlinear_arith)
        requires
            a == x.raw * q.raw,
            0 <= x.raw <= SCALE,
            0 <= q.raw <= SCALE,
    ;
    lemma_quotients_add(a, 0, SCALE as int, x.raw as int);
    lemma_quotients_add(a, 0, SCALE as int, q.raw as int);
}

/// A probability shared out between an event and its complement is not exceeded by
/// the two shares.
pub proof fn lemma_shares_of_probability(x: Fixed, q: Fixed)
    requires
        x.is_probability(),
        q.is_probability(),
    ensures
        x.times_spec(q.complement_spec()).raw + x.times_spec(q).raw <= x.raw,
{
    lemma_complement_of_probability(q);
    lemma_times_of_probabilities(x, q);
    lemma_times_of_probabilities(x, q.complement_spec());
    let a = x.raw * (SCALE - q.raw);
    let b = x.raw * q.raw;
    assert(0 <= a && 0 <= b && a + b == x.raw * SCALE) by (nonlinear_arith)
        requires
            a == x.raw * (SCALE - q.raw),
            b == x.raw * q.raw,
            0 <= x.raw,
            0 <= q.raw <= SCALE,
    ;
    lemma_quotients_add(a, b, SCALE as int, x.raw as int);
}

/// A mixture of two probabilities, one weighted by an event and one by its
/// complement, is a probability, and its parts add without loss.
pub proof fn lemma_mixture_of_probabilities(x: Fixed, y: Fixed, q: Fixed)
    requires
        x.is_probability(),
        y.is_probability(),
        q.is_probability(),
    ensures
        x.times_spec(q.complement_spec()).plus_spec(y.times_spec(q)).is_probability(),
        x.times_spec(q.complement_spec()).plus_spec(y.times_spec(q)).raw == x.times_spec(
            q.complement_spec(),
        ).raw + y.times_spec(q).raw,
{
    lemma_complement_of_probability(q);
    lemma_times_of_probabilities(y, q);
    lemma_times_of_probabilities(x, q.complement_spec());
    let a = x.raw * (SCALE - q.raw);
    let b = y.raw * q.raw;
    assert(0 <= a && 0 <= b && a + b <= SCALE * SCALE) by (nonlinear_arith)
        requires
            a == x.raw * (SCALE - q.raw),
            b == y.raw * q.raw,
            0 <= x.raw <= SCALE,
            0 <= y.raw <= SCALE,
            0 <= q.raw <= SCALE,
    ;
    lemma_quotients_add(a, b, SCALE as int, SCALE as int);
}

/// A product of two numbers of magnitude at most `m` has magnitude at most `m * m`.
pub proof fn lemma_product_range(a: int, b: int, m: int)
    requires
        -m <= a <= m,
        -m <= b <= m,
    ensures
        -(m * m) <= a * b <= m * m,
{
    assert(-(m * m) <= a * b <= m * m) by (nonlinear_arith)
        requires
            -m <= a <= m,
            -m <= b <= m,
    ;
}

/// Dividing by a positive number brings a value no further from zero.
pub proof fn lemma_trunc_div_range(x: int, d: int)
    requires
        d > 0,
    ensures
        x >= 0 ==> 0 <= trunc_div(x, d) <= x,
        x <= 0 ==> x <= trunc_div(x, d) <= 0,
{
    if x >= 0 {
        assert(0 <= x / d <= x) by (nonlinear_arith)
            requires
                x >= 0,
                d > 0,
        ;
    } else {
        let y = -x;
        assert(0 <= y / d <= y) by (nonlinear_arith)
            requires
                y >= 0,
                d > 0,
        ;
    }
}

} // verus!
