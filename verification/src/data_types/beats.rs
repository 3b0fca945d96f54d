use crate::data_types::Ticks;
use vstd::prelude::*;

verus! {

/// A musical position measured in beats, kept exactly as the fraction
/// `numerator / denominator`. A zero denominator stands for an infinite
/// amount of beats with the sign of the numerator, or for no number at all
/// when the numerator is zero too.
#[derive(Clone, Copy, Default, PartialEq, Eq, Structural, Debug)]
pub struct Beats {
    pub numerator: i64,
    pub denominator: u64,
}

/// `a / b` rounded toward zero, for `b > 0`.
pub open spec fn div_toward_zero(a: int, b: int) -> int {
    if a >= 0 {
        a / b
    } else {
        -((-a) / b)
    }
}

/// `x` limited to the range of `i64`.
pub open spec fn saturate_i64(x: int) -> int {
    if x > i64::MAX {
        i64::MAX as int
    } else if x < i64::MIN {
        i64::MIN as int
    } else {
        x
    }
}

/// The whole number of ticks in `beats`, at `resolution` ticks per beat:
/// the exact product rounded toward zero and limited to the range of `i64`.
/// An infinite amount of beats gives the extreme tick of its sign, and the
/// product of no number, or of infinity and zero, gives zero.
pub open spec fn spec_beats_to_ticks(beats: Beats, resolution: u64) -> int {
    if beats.denominator == 0 {
        if beats.numerator > 0 && resolution > 0 {
            i64::MAX as int
        } else if beats.numerator < 0 && resolution > 0 {
            i64::MIN as int
        } else {
            0
        }
    } else {
        saturate_i64(div_toward_zero(beats.numerator * resolution, beats.denominator as int))
    }
}

/// Turning ticks into beats and back at the same positive resolution gives
/// the same ticks.
pub proof fn lemma_ticks_beats_roundtrip(ticks: i64, resolution: u64)
    requires
        resolution > 0,
    ensures
        spec_beats_to_ticks(Beats { numerator: ticks, denominator: resolution }, resolution) == ticks,
{
    let t = ticks as int;
    let r = resolution as int;
    if t >= 0 {
        vstd::arithmetic::div_mod::lemma_div_by_multiple(t, r);
    } else {
        vstd::arithmetic::div_mod::lemma_div_by_multiple(-t, r);
        assert(-(t * r) == (-t) * r) by (nonlinear_arith);
        assert(t * r < 0) by (nonlinear_arith)
            requires
                t < 0,
                r > 0,
        ;
    }
}

/// Beats turn into ticks by truncated division: for beats `n / d` with
/// `d > 0` at resolution `r`, the ticks `t` are the whole number of times `d`
/// fits into the product `n * r`, counted toward zero: `t * d` does not pass
/// `n * r`, and `t` one further from zero would, unless `t` is already the
/// extreme tick of `i64`.
pub proof fn lemma_beats_to_ticks_truncates(numerator: i64, denominator: u64, resolution: u64)
    requires
        denominator > 0,
    ensures
        i64::MIN <= spec_beats_to_ticks(Beats { numerator, denominator }, resolution) <= i64::MAX,
        numerator * resolution >= 0 ==> {
            let t = spec_beats_to_ticks(Beats { numerator, denominator }, resolution);
            &&& 0 <= t
            &&& t * denominator <= numerator * resolution
            &&& (t == i64::MAX || numerator * resolution < (t + 1) * denominator)
        },
        numerator * resolution < 0 ==> {
            let t = spec_beats_to_ticks(Beats { numerator, denominator }, resolution);
            &&& t <= 0
            &&& numerator * resolution <= t * denominator
            &&& (t == i64::MIN || (t - 1) * denominator < numerator * resolution)
        },
{
    let p = numerator * resolution;
    let d = denominator as int;
    let t = spec_beats_to_ticks(Beats { numerator, denominator }, resolution);
    if p >= 0 {
        let q = p / d;
        vstd::arithmetic::div_mod::lemma_fundamental_div_mod(p, d);
        vstd::arithmetic::div_mod::lemma_mod_bound(p, d);
        assert(q >= 0) by (nonlinear_arith)
            requires
                p >= 0,
                d > 0,
                q == p / d,
        ;
        assert(q * d <= p && p < (q + 1) * d) by (nonlinear_arith)
            requires
                p == d * q + p % d,
                0 <= p % d < d,
        ;
        if q > i64::MAX {
            assert(t == i64::MAX);
            assert(t * d <= q * d) by (nonlinear_arith)
                requires
                    t <= q,
                    d > 0,
            ;
        } else {
            assert(t == q);
        }
    } else {
        let np = -p;
        let q = np / d;
        vstd::arithmetic::div_mod::lemma_fundamental_div_mod(np, d);
        vstd::arithmetic::div_mod::lemma_mod_bound(np, d);
        assert(q >= 0) by (nonlinear_arith)
            requires
                np > 0,
                d > 0,
                q == np / d,
        ;
        assert((-q) * d >= p && (-q - 1) * d < p) by (nonlinear_arith)
            requires
                np == d * q + np % d,
                0 <= np % d < d,
                p == -np,
        ;
        if -q < i64::MIN {
            assert(t == i64::MIN);
            assert(p <= t * d) by (nonlinear_arith)
                requires
                    -q < t,
                    d > 0,
                    (-q) * d >= p,
                    (-q - 1) * d < p,
            ;
        } else {
            assert(t == -q);
        }
    }
}

/// The tick count depends only on the number of beats, not on how its
/// fraction is written: scaling the numerator and the denominator by the
/// same positive factor gives the same ticks.
pub proof fn lemma_beats_to_ticks_scale_invariant(beats: Beats, scaled: Beats, factor: int, resolution: u64)
    requires
        beats.denominator > 0,
        factor > 0,
        scaled.numerator == beats.numerator * factor,
        scaled.denominator == beats.denominator * factor,
    ensures
        spec_beats_to_ticks(scaled, resolution) == spec_beats_to_ticks(beats, resolution),
{
    let n = beats.numerator as int;
    let d = beats.denominator as int;
    let r = resolution as int;
    let m = factor;
    assert(scaled.denominator > 0) by (nonlinear_arith)
        requires
            d > 0,
            m > 0,
            scaled.denominator == d * m,
    ;
    lemma_beats_to_ticks_truncates(beats.numerator, beats.denominator, resolution);
    lemma_beats_to_ticks_truncates(scaled.numerator, scaled.denominator, resolution);
    let t = spec_beats_to_ticks(beats, resolution);
    let u = spec_beats_to_ticks(scaled, resolution);
    let p = n * r;
    assert(scaled.numerator * resolution == p * m) by (nonlinear_arith)
        requires
            scaled.numerator == n * m,
            p == n * r,
            r == resolution,
    ;
    assert(p >= 0 <==> p * m >= 0) by (nonlinear_arith)
        requires
            m > 0,
    ;
    // Divide the bounds on the scaled fraction by the factor
    assert forall|x: int| #[trigger] (x * (d * m)) <= p * m <==> x * d <= p by {
        assert(x * (d * m) == (x * d) * m) by (nonlinear_arith);
        assert((x * d) * m <= p * m <==> x * d <= p) by (nonlinear_arith)
            requires
                m > 0,
        ;
    }
    assert forall|x: int| p * m < #[trigger] (x * (d * m)) <==> p < x * d by {
        assert(x * (d * m) == (x * d) * m) by (nonlinear_arith);
        assert(p * m < (x * d) * m <==> p < x * d) by (nonlinear_arith)
            requires
                m > 0,
        ;
    }
    assert(u * (d * m) <= p * m <==> u * d <= p);
    assert((u + 1) * (d * m) <= p * m <==> (u + 1) * d <= p);
    assert(p * m < (u + 1) * (d * m) <==> p < (u + 1) * d);
    assert(p * m <= u * (d * m) <==> p <= u * d) by {
        assert(u * (d * m) == (u * d) * m) by (nonlinear_arith);
        assert(p * m <= (u * d) * m <==> p <= u * d) by (nonlinear_arith)
            requires
                m > 0,
        ;
    }
    assert((u - 1) * (d * m) < p * m <==> (u - 1) * d < p) by {
        assert((u - 1) * (d * m) == ((u - 1) * d) * m) by (nonlinear_arith);
        assert(((u - 1) * d) * m < p * m <==> (u - 1) * d < p) by (nonlinear_arith)
            requires
                m > 0,
        ;
    }
    // Both counts bound the same fraction, and only one whole number does
    if p >= 0 {
        if t < u {
            assert((t + 1) * d <= u * d) by (nonlinear_arith)
                requires
                    t + 1 <= u,
                    d > 0,
            ;
        } else if u < t {
            assert((u + 1) * d <= t * d) by (nonlinear_arith)
                requires
                    u + 1 <= t,
                    d > 0,
            ;
        }
    } else {
        if t < u {
            assert(t * d <= (u - 1) * d) by (nonlinear_arith)
                requires
                    t <= u - 1,
                    d > 0,
            ;
        } else if u < t {
            assert(u * d <= (t - 1) * d) by (nonlinear_arith)
                requires
                    u <= t - 1,
                    d > 0,
            ;
        }
    }
}

/// Whole beats give the beats times the resolution, when that fits in `i64`.
pub proof fn lemma_whole_beats_to_ticks(beats: i64, resolution: u64)
    requires
        i64::MIN <= beats * resolution <= i64::MAX,
    ensures
        spec_beats_to_ticks(Beats { numerator: beats, denominator: 1 }, resolution) == beats * resolution,
{
    lemma_beats_to_ticks_truncates(beats, 1, resolution);
}

/// An infinite amount of beats gives the extreme tick of its sign at a
/// positive resolution; no number of beats, or any infinite amount at
/// resolution zero, gives tick zero.
pub proof fn lemma_infinite_beats_to_ticks(numerator: i64, resolution: u64)
    ensures
        numerator > 0 && resolution > 0 ==> spec_beats_to_ticks(Beats { numerator, denominator: 0 }, resolution)
            == i64::MAX,
        numerator < 0 && resolution > 0 ==> spec_beats_to_ticks(Beats { numerator, denominator: 0 }, resolution)
            == i64::MIN,
        numerator == 0 || resolution == 0 ==> spec_beats_to_ticks(Beats { numerator, denominator: 0 }, resolution)
            == 0,
{
}

impl Beats {
    /// The whole number of ticks in these beats at `resolution` ticks per beat.
    pub fn to_ticks(&self, resolution: u64) -> (ticks: Ticks)
        ensures
            ticks.0 == spec_beats_to_ticks(*self, resolution),
    {
        if self.denominator == 0 {
            if self.numerator > 0 && resolution > 0 {
                return Ticks(i64::MAX);
            } else if self.numerator < 0 && resolution > 0 {
                return Ticks(i64::MIN);
            } else {
                return Ticks(0);
            }
        }
        let magnitude: u128 = if self.numerator >= 0 {
            self.numerator as u128
        } else {
            (-(self.numerator as i128)) as u128
        };
        assert(magnitude * resolution <= u128::MAX) by (nonlinear_arith)
            requires
                magnitude <= 0x8000_0000_0000_0000,
                resolution <= u64::MAX,
        ;
        let product: u128 = magnitude * (resolution as u128);
        let quotient: u128 = product / (self.denominator as u128);
        proof {
            let n = self.numerator as int;
            let r = resolution as int;
            if n < 0 {
                assert(-(n * r) == (-n) * r) by (nonlinear_arith);
            }
        }
        if self.numerator >= 0 {
            if quotient > i64::MAX as u128 {
                Ticks(i64::MAX)
            } else {
                Ticks(quotient as i64)
            }
        } else {
            if quotient > 0x8000_0000_0000_0000u128 {
                Ticks(i64::MIN)
            } else {
                Ticks((-(quotient as i128)) as i64)
            }
        }
    }
}

} // verus!
